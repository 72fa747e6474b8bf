//! Policies: ordered collections of statements, and the decision they
//! aggregate to.

use vstd::prelude::*;

use crate::effect::Effect;
use crate::request::{Request, RequestModel};
use crate::statement::{statement_applies, statement_models, Statement, StatementModel};

verus! {

broadcast use vstd::std_specs::vec::group_vec_axioms;

/// The decision a set of statements aggregates to for a request: the least
/// permissive effect contributed by any covering statement, and `Deny`
/// when none covers the request.
pub open spec fn policy_effect(stmts: Seq<StatementModel>, r: RequestModel) -> Effect {
    if exists|i: int|
        0 <= i < stmts.len() && statement_applies(stmts[i], r) && stmts[i].effect
            == Effect::Deny {
        Effect::Deny
    } else if exists|i: int| 0 <= i < stmts.len() && statement_applies(stmts[i], r) {
        Effect::Allow
    } else {
        Effect::Deny
    }
}

/// An ordered collection of statements, evaluated together for one
/// decision.
pub struct Policy {
    statements: Vec<Statement>,
}

impl View for Policy {
    type V = Seq<StatementModel>;

    closed spec fn view(&self) -> Seq<StatementModel> {
        statement_models(self.statements@)
    }
}

impl Default for Policy {
    /// The empty policy, which denies every request.
    fn default() -> (r: Policy)
        ensures
            r@ == Seq::<StatementModel>::empty(),
    {
        let r = Policy { statements: Vec::new() };
        proof {
            assert(r@ =~= Seq::<StatementModel>::empty());
        }
        r
    }
}

impl Policy {
    /// Appends one statement to the policy.
    pub fn add_statement(&mut self, statement: Statement)
        ensures
            final(self)@ == old(self)@.push(statement@),
    {
        let ghost old_view = self@;
        self.statements.push(statement);
        proof {
            assert(self@ =~= old_view.push(statement@));
        }
    }

    /// Decides the request: collects the effects of all covering
    /// statements and returns the least permissive, `Deny` when none
    /// covers it.
    #[verifier::loop_isolation(false)]
    pub fn get_effect(&self, request: &Request) -> (r: Effect)
        ensures
            r == policy_effect(self@, request@),
    {
        proof {
            assert(forall|i: int|
                0 <= i < self.statements@.len() ==> self@[i] == self.statements@[i]@);
        }
        let mut found_deny = false;
        let mut found_any = false;
        let mut i: usize = 0;
        while i < self.statements.len()
            invariant
                0 <= i <= self.statements@.len(),
                found_deny == exists|j: int|
                    0 <= j < i && statement_applies(self@[j], request@) && self@[j].effect
                        == Effect::Deny,
                found_any == exists|j: int| 0 <= j < i && statement_applies(self@[j], request@),
            decreases self.statements@.len() - i,
        {
            proof {
                assert(self@[i as int] == self.statements@[i as int]@);
            }
            match self.statements[i].get_effect(request) {
                Option::None => {},
                Option::Some(effect) => {
                    found_any = true;
                    if let Effect::Deny = effect {
                        found_deny = true;
                    }
                },
            }
            i = i + 1;
        }
        if found_deny {
            Effect::Deny
        } else if found_any {
            Effect::Allow
        } else {
            Effect::Deny
        }
    }
}

impl Policy {
    /// Serializes the policy to its self-describing byte encoding.
    pub fn to_bytes(&self) -> (r: Vec<u8>)
        ensures
            r@ == crate::codec::enc_policy(self@),
            crate::codec::wf_policy(self@),
    {
        let mut out: Vec<u8> = Vec::new();
        crate::codec::encode_u64_into(&mut out, self.statements.len() as u64);
        crate::codec::encode_statements_into(&mut out, &self.statements, 0);
        proof {
            assert(self@.skip(0) =~= self@);
            assert(self@.len() == self.statements@.len());
            assert(out@ =~= Seq::<u8>::empty() + crate::codec::enc_u64(self@.len() as u64)
                + crate::codec::enc_statements(self@));
            assert(Seq::<u8>::empty() + crate::codec::enc_u64(self@.len() as u64)
                + crate::codec::enc_statements(self@) =~= crate::codec::enc_policy(self@));
        }
        out
    }

    /// Deserializes a policy from its byte encoding; malformed bytes are
    /// rejected, never resolved to a policy or a decision.
    pub fn from_bytes(bytes: &[u8]) -> (r: Option<Policy>)
        ensures
            match crate::codec::dec_policy(bytes@) {
                Some(m) => r is Some && r.unwrap()@ == m,
                None => r is None,
            },
    {
        match crate::codec::decode_u64(bytes, 0) {
            Option::Some((n, p)) => match crate::codec::decode_statements(bytes, p, n) {
                Option::Some((v, p2)) => {
                    if p2 == bytes.len() {
                        Option::Some(Policy { statements: v })
                    } else {
                        Option::None
                    }
                },
                Option::None => Option::None,
            },
            Option::None => Option::None,
        }
    }
}

/// Round trip: a policy serialized with [`Policy::to_bytes`] and read back
/// with [`Policy::from_bytes`] yields a policy with the same model, and so
/// one that decides every request exactly as the original does.
pub proof fn lemma_round_trip_preserves_decisions(m: Seq<StatementModel>, r: RequestModel)
    requires
        crate::codec::wf_policy(m),
    ensures
        crate::codec::dec_policy(crate::codec::enc_policy(m)) == Some(m),
        policy_effect(crate::codec::dec_policy(crate::codec::enc_policy(m)).unwrap(), r)
            == policy_effect(m, r),
{
    crate::codec::lemma_policy_round_trip(m);
}

/// Aggregates a policy's decision for a request.
pub fn get_effect(p: &Policy, r: &Request) -> (e: Effect)
    ensures
        e == policy_effect(p@, r@),
{
    p.get_effect(r)
}

/// Fail-closed default: a request that no statement of the policy covers
/// is denied.
pub proof fn lemma_fail_closed(stmts: Seq<StatementModel>, r: RequestModel)
    requires
        forall|i: int| 0 <= i < stmts.len() ==> !statement_applies(stmts[i], r),
    ensures
        policy_effect(stmts, r) == Effect::Deny,
{
}

/// Least-permissive wins: when at least one covering statement denies,
/// the aggregate decision is `Deny`, however many covering statements
/// allow.
pub proof fn lemma_least_permissive_wins(stmts: Seq<StatementModel>, r: RequestModel)
    requires
        exists|i: int|
            0 <= i < stmts.len() && statement_applies(stmts[i], r) && stmts[i].effect
                == Effect::Deny,
    ensures
        policy_effect(stmts, r) == Effect::Deny,
{
}

/// A covering statement transfers to any rearrangement of the statement
/// sequence, and so does a covering statement that denies.
proof fn lemma_applies_transfer(s1: Seq<StatementModel>, s2: Seq<StatementModel>, r: RequestModel)
    requires
        s1.to_multiset() == s2.to_multiset(),
    ensures
        (exists|i: int| 0 <= i < s1.len() && statement_applies(s1[i], r)) ==> (exists|i: int|
            0 <= i < s2.len() && statement_applies(s2[i], r)),
        (exists|i: int|
            0 <= i < s1.len() && statement_applies(s1[i], r) && s1[i].effect == Effect::Deny)
            ==> (exists|i: int|
            0 <= i < s2.len() && statement_applies(s2[i], r) && s2[i].effect == Effect::Deny),
{
    broadcast use vstd::seq_lib::group_to_multiset_ensures;

    if exists|i: int| 0 <= i < s1.len() && statement_applies(s1[i], r) {
        let i = choose|i: int| 0 <= i < s1.len() && statement_applies(s1[i], r);
        let x = s1[i];
        assert(s1.contains(x));
        assert(s1.to_multiset().count(x) > 0);
        assert(s2.contains(x));
        let j = choose|j: int| 0 <= j < s2.len() && s2[j] == x;
        assert(statement_applies(s2[j], r));
    }
    if exists|i: int|
        0 <= i < s1.len() && statement_applies(s1[i], r) && s1[i].effect == Effect::Deny {
        let i = choose|i: int|
            0 <= i < s1.len() && statement_applies(s1[i], r) && s1[i].effect == Effect::Deny;
        let x = s1[i];
        assert(s1.contains(x));
        assert(s1.to_multiset().count(x) > 0);
        assert(s2.contains(x));
        let j = choose|j: int| 0 <= j < s2.len() && s2[j] == x;
        assert(statement_applies(s2[j], r) && s2[j].effect == Effect::Deny);
    }
}

/// Order independence: rearranging the statements of a policy never
/// changes the aggregate decision for any fixed request.
pub proof fn lemma_order_independence(
    s1: Seq<StatementModel>,
    s2: Seq<StatementModel>,
    r: RequestModel,
)
    requires
        s1.to_multiset() == s2.to_multiset(),
    ensures
        policy_effect(s1, r) == policy_effect(s2, r),
{
    lemma_applies_transfer(s1, s2, r);
    lemma_applies_transfer(s2, s1, r);
}

} // verus!

