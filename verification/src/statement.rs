//! Statements: the individual access rules of a policy.
//!
//! A statement pairs an effect with the identities, action names and
//! resource patterns it governs. A request contributes the statement's
//! effect exactly when all three clauses match.

use vstd::prelude::*;

use crate::effect::Effect;
use crate::request::{Principal, Request, RequestModel};

verus! {

broadcast use vstd::std_specs::vec::group_vec_axioms;

/// The identity of a caller, as an opaque comparable token: the raw bytes
/// of a principal.
pub enum Identity {
    Principal(Principal),
}

/// The mathematical value of an [`Identity`]: the principal's bytes.
pub enum IdentityModel {
    Principal(Seq<u8>),
}

impl View for Identity {
    type V = IdentityModel;

    open spec fn view(&self) -> IdentityModel {
        match self {
            Identity::Principal(p) => IdentityModel::Principal(p@),
        }
    }
}

/// The identity clause of a statement: either one specific identity, or a
/// wildcard matching every caller.
pub enum StatementIdentity {
    Identity(Identity),
    Any,
}

/// The mathematical value of a [`StatementIdentity`].
pub enum StatementIdentityModel {
    Identity(IdentityModel),
    Any,
}

impl View for StatementIdentity {
    type V = StatementIdentityModel;

    open spec fn view(&self) -> StatementIdentityModel {
        match self {
            StatementIdentity::Identity(id) => StatementIdentityModel::Identity(id@),
            StatementIdentity::Any => StatementIdentityModel::Any,
        }
    }
}

/// Whether an identity clause covers a caller: `Any` covers everyone, a
/// specific identity covers exactly the callers equal to it.
pub open spec fn id_matches(clause: StatementIdentityModel, caller: IdentityModel) -> bool {
    match clause {
        StatementIdentityModel::Any => true,
        StatementIdentityModel::Identity(IdentityModel::Principal(p)) => match caller {
            IdentityModel::Principal(q) => p == q,
        },
    }
}

impl StatementIdentity {
    /// Decides whether this identity clause covers the given caller.
    pub fn matches(&self, v: &Identity) -> (r: bool)
        ensures
            r == id_matches(self@, v@),
    {
        match (self, v) {
            (StatementIdentity::Any, _) => true,
            (
                StatementIdentity::Identity(Identity::Principal(p1)),
                Identity::Principal(p2),
            ) => p1.same_as(p2),
        }
    }

    /// Decides whether this identity clause covers a caller given as a
    /// bare principal.
    fn covers_principal(&self, p: &Principal) -> (r: bool)
        ensures
            r == id_matches(self@, IdentityModel::Principal(p@)),
    {
        match self {
            StatementIdentity::Any => true,
            StatementIdentity::Identity(Identity::Principal(q)) => q.same_as(p),
        }
    }
}

/// The concrete resource a request targets: a non-branching chain of path
/// segments, outermost first.
#[derive(Debug)]
pub enum RequestResource {
    Resource(String),
    Nested { node: String, next: Option<Box<RequestResource>> },
}

/// The sequence of path segments a [`RequestResource`] chain spells out,
/// outermost first. A chain link without a continuation ends the path just
/// as a terminal segment does.
pub open spec fn segments_of(r: RequestResource) -> Seq<Seq<char>>
    decreases r,
{
    match r {
        RequestResource::Resource(s) => seq![s@],
        RequestResource::Nested { node, next } => match next {
            Option::None => seq![node@],
            Option::Some(rest) => seq![node@] + segments_of(*rest),
        },
    }
}

/// A resource path always spells out at least one segment.
pub proof fn lemma_segments_nonempty(r: RequestResource)
    ensures
        segments_of(r).len() >= 1,
    decreases r,
{
    match r {
        RequestResource::Resource(_) => {},
        RequestResource::Nested { node, next } => match next {
            Option::None => {},
            Option::Some(rest) => lemma_segments_nonempty(*rest),
        },
    }
}

/// The resources a statement covers: a tree of path segments where each
/// node offers a set of alternative continuations.
#[derive(Debug)]
pub enum StatementResource {
    Resource(String),
    Nested { node: String, next: Vec<StatementResource> },
}

/// The mathematical value of a [`StatementResource`]: a tree of segment
/// sequences.
pub enum PatternModel {
    Leaf(Seq<char>),
    Node(Seq<char>, Seq<PatternModel>),
}

/// The model of a [`StatementResource`] tree.
pub open spec fn pattern_of(p: StatementResource) -> PatternModel
    decreases p,
{
    match p {
        StatementResource::Resource(s) => PatternModel::Leaf(s@),
        StatementResource::Nested { node, next } => PatternModel::Node(
            node@,
            patterns_of(next@),
        ),
    }
}

/// The models of a sequence of [`StatementResource`] trees, in order.
pub open spec fn patterns_of(s: Seq<StatementResource>) -> Seq<PatternModel>
    decreases s,
{
    if s.len() == 0 {
        Seq::empty()
    } else {
        seq![pattern_of(s[0])] + patterns_of(s.drop_first())
    }
}

/// `patterns_of` maps `pattern_of` over the sequence, element by element.
pub proof fn lemma_patterns_of(s: Seq<StatementResource>)
    ensures
        patterns_of(s).len() == s.len(),
        forall|i: int| 0 <= i < s.len() ==> patterns_of(s)[i] == pattern_of(s[i]),
    decreases s.len(),
{
    if s.len() > 0 {
        lemma_patterns_of(s.drop_first());
    }
}

/// The segment at the root of a pattern.
pub open spec fn pattern_name(p: PatternModel) -> Seq<char> {
    match p {
        PatternModel::Leaf(s) => s,
        PatternModel::Node(s, _) => s,
    }
}

/// Whether a pattern covers a concrete path, by structural recursion:
/// a leaf covers exactly the one-segment path with its segment; a node
/// with no children behaves as a leaf; a node with children covers a
/// deeper path exactly when the head segments agree and at least one
/// child covers the remaining tail. Matching is exact in depth: no
/// prefix or suffix of a covered path is covered unless declared.
pub open spec fn path_matches(p: PatternModel, path: Seq<Seq<char>>) -> bool
    decreases p,
{
    match p {
        PatternModel::Leaf(seg) => path.len() == 1 && path[0] == seg,
        PatternModel::Node(seg, children) => {
            if path.len() <= 1 {
                path.len() == 1 && path[0] == seg && children.len() == 0
            } else {
                path[0] == seg && any_child_matches(children, path.skip(1))
            }
        },
    }
}

/// Whether at least one of the sibling patterns covers the path: the
/// alternation across a node's children.
pub open spec fn any_child_matches(children: Seq<PatternModel>, path: Seq<Seq<char>>) -> bool
    decreases children,
{
    children.len() > 0 && (path_matches(children[0], path) || any_child_matches(
        children.drop_first(),
        path,
    ))
}

/// The alternation across siblings holds exactly when some sibling covers
/// the path.
pub proof fn lemma_any_child_matches(children: Seq<PatternModel>, path: Seq<Seq<char>>)
    ensures
        any_child_matches(children, path) <==> exists|i: int|
            0 <= i < children.len() && path_matches(children[i], path),
    decreases children.len(),
{
    if children.len() > 0 {
        lemma_any_child_matches(children.drop_first(), path);
        if path_matches(children[0], path) {
            assert(0 <= 0 < children.len() && path_matches(children[0], path));
        } else if any_child_matches(children.drop_first(), path) {
            let i = choose|i: int|
                0 <= i < children.drop_first().len() && path_matches(
                    children.drop_first()[i],
                    path,
                );
            assert(children.drop_first()[i] == children[i + 1]);
            assert(path_matches(children[i + 1], path));
        } else {
            assert(forall|i: int|
                0 < i < children.len() ==> children.drop_first()[i - 1] == children[i]);
        }
    }
}

impl StatementResource {
    /// The segment at the root of this pattern tree.
    pub fn get_node_name(&self) -> (r: &String)
        ensures
            r@ == pattern_name(pattern_of(*self)),
    {
        match self {
            StatementResource::Resource(r) => r,
            StatementResource::Nested { node, next } => node,
        }
    }

    /// Appends one alternative continuation beneath this pattern's root
    /// node; a terminal pattern becomes a branching node.
    pub fn add_nested(self, nested: StatementResource) -> (r: Self)
        ensures
            pattern_of(r) == (match pattern_of(self) {
                PatternModel::Leaf(s) => PatternModel::Node(s, seq![pattern_of(nested)]),
                PatternModel::Node(s, cs) => PatternModel::Node(s, cs.push(pattern_of(nested))),
            }),
    {
        match self {
            StatementResource::Resource(node) => {
                let next = vec![nested];
                proof {
                    lemma_patterns_of(next@);
                    assert(patterns_of(next@) =~= seq![pattern_of(next@[0])]);
                }
                StatementResource::Nested { node, next }
            },
            StatementResource::Nested { node, mut next } => {
                let ghost old_next = next@;
                next.push(nested);
                proof {
                    lemma_patterns_of(old_next);
                    lemma_patterns_of(next@);
                    assert(patterns_of(next@) =~= patterns_of(old_next).push(pattern_of(nested)));
                }
                StatementResource::Nested { node, next }
            },
        }
    }

    /// Appends several alternative continuations beneath this pattern's
    /// root node; with an empty list the pattern is returned unchanged.
    pub fn add_nested_resources(self, nested: Vec<StatementResource>) -> (r: Self)
        ensures
            pattern_of(r) == (if nested@.len() == 0 {
                pattern_of(self)
            } else {
                match pattern_of(self) {
                    PatternModel::Leaf(s) => PatternModel::Node(s, patterns_of(nested@)),
                    PatternModel::Node(s, cs) => PatternModel::Node(
                        s,
                        cs + patterns_of(nested@),
                    ),
                }
            }),
    {
        if nested.len() == 0 {
            return self;
        }
        match self {
            StatementResource::Resource(node) => StatementResource::Nested { node, next: nested },
            StatementResource::Nested { node, mut next } => {
                let ghost old_next = next@;
                let mut nested = nested;
                let ghost nested_snap = nested@;
                next.append(&mut nested);
                proof {
                    lemma_patterns_of(old_next);
                    lemma_patterns_of(nested_snap);
                    lemma_patterns_of(next@);
                    assert(patterns_of(next@) =~= patterns_of(old_next) + patterns_of(
                        nested_snap,
                    ));
                }
                StatementResource::Nested { node, next }
            },
        }
    }

    /// Decides whether this pattern covers the concrete path of `request`.
    #[verifier::loop_isolation(false)]
    pub fn matches(&self, request: &RequestResource) -> (r: bool)
        ensures
            r == path_matches(pattern_of(*self), segments_of(*request)),
        decreases *self,
    {
        match (self, request) {
            (StatementResource::Resource(left), RequestResource::Resource(right)) => {
                *left == *right
            },
            (StatementResource::Resource(v), RequestResource::Nested { node, next }) => {
                proof {
                    if let Option::Some(rest) = next {
                        lemma_segments_nonempty(**rest);
                    }
                }
                next.is_none() && *v == *node
            },
            (StatementResource::Nested { node, next }, RequestResource::Resource(r)) => {
                proof {
                    lemma_patterns_of(next@);
                }
                next.len() == 0 && *node == *r
            },
            (
                StatementResource::Nested { node: node_left, next: next_left },
                RequestResource::Nested { node: node_right, next: next_right },
            ) => {
                match next_right {
                    Option::None => {
                        proof {
                            lemma_patterns_of(next_left@);
                        }
                        next_left.len() == 0 && *node_left == *node_right
                    },
                    Option::Some(tail) => {
                        if !(*node_left == *node_right) {
                            proof {
                                lemma_segments_nonempty(**tail);
                            }
                            return false;
                        }
                        let ghost children = patterns_of(next_left@);
                        let ghost tail_path = segments_of(*request).skip(1);
                        proof {
                            lemma_segments_nonempty(**tail);
                            assert(segments_of(**tail) =~= tail_path);
                            lemma_patterns_of(next_left@);
                            assert(children.skip(0) =~= children);
                        }
                        let mut i: usize = 0;
                        while i < next_left.len()
                            invariant
                                0 <= i <= next_left@.len(),
                                any_child_matches(children, tail_path) == any_child_matches(
                                    children.skip(i as int),
                                    tail_path,
                                ),
                            decreases next_left@.len() - i,
                        {
                            proof {
                                assert(children.skip(i as int)[0] == pattern_of(next_left@[i as int]));
                            }
                            if next_left[i].matches(&**tail) {
                                proof {
                                    assert(any_child_matches(children.skip(i as int), tail_path));
                                    assert(segments_of(*request) == seq![node_right@]
                                        + segments_of(**tail));
                                    assert(segments_of(*request).len() > 1);
                                    assert(segments_of(*request)[0] == node_left@);
                                    assert(path_matches(
                                        PatternModel::Node(node_left@, children),
                                        segments_of(*request),
                                    ));
                                }
                                return true;
                            }
                            proof {
                                assert(children.skip(i as int).drop_first() =~= children.skip(
                                    i as int + 1,
                                ));
                            }
                            i = i + 1;
                        }
                        proof {
                            assert(children.skip(next_left@.len() as int).len() == 0);
                            assert(!any_child_matches(children, tail_path));
                            assert(segments_of(*request) == seq![node_right@]
                                + segments_of(**tail));
                            assert(segments_of(*request).len() > 1);
                        }
                        false
                    },
                }
            },
        }
    }
}

/// The mathematical value of a [`Statement`].
pub struct StatementModel {
    pub effect: Effect,
    pub identities: Seq<StatementIdentityModel>,
    pub operations: Seq<Seq<char>>,
    pub resources: Seq<PatternModel>,
}

/// The models of a sequence of identity clauses, in order.
pub open spec fn sid_models(v: Seq<StatementIdentity>) -> Seq<StatementIdentityModel> {
    v.map_values(|x: StatementIdentity| x@)
}

/// The views of a sequence of strings, in order.
pub open spec fn str_models(v: Seq<String>) -> Seq<Seq<char>> {
    v.map_values(|x: String| x@)
}

/// The models of a sequence of statements, in order.
pub open spec fn statement_models(v: Seq<Statement>) -> Seq<StatementModel> {
    v.map_values(|s: Statement| s@)
}

/// One access rule: an effect together with the identities, action names
/// and resource patterns it governs.
pub struct Statement {
    effect: Effect,
    identities: Vec<StatementIdentity>,
    operations: Vec<String>,
    resources: Vec<StatementResource>,
}

impl View for Statement {
    type V = StatementModel;

    closed spec fn view(&self) -> StatementModel {
        StatementModel {
            effect: self.effect,
            identities: sid_models(self.identities@),
            operations: str_models(self.operations@),
            resources: patterns_of(self.resources@),
        }
    }
}

/// Whether a statement covers a request: the action name, the caller and
/// the resource path must each match one of the statement's clauses.
pub open spec fn statement_applies(s: StatementModel, r: RequestModel) -> bool {
    &&& s.operations.contains(r.action)
    &&& exists|i: int|
        0 <= i < s.identities.len() && id_matches(
            s.identities[i],
            IdentityModel::Principal(r.caller),
        )
    &&& exists|i: int| 0 <= i < s.resources.len() && path_matches(s.resources[i], r.path)
}

/// The contribution of a statement to a decision: its effect when it
/// covers the request, and nothing otherwise.
pub open spec fn statement_effect(s: StatementModel, r: RequestModel) -> Option<Effect> {
    if statement_applies(s, r) {
        Option::Some(s.effect)
    } else {
        Option::None
    }
}

impl Statement {
    /// Assembles a statement from its four parts.
    pub fn new(
        effect: Effect,
        identities: Vec<StatementIdentity>,
        operations: Vec<String>,
        resources: Vec<StatementResource>,
    ) -> (r: Self)
        ensures
            r@ == (StatementModel {
                effect,
                identities: sid_models(identities@),
                operations: str_models(operations@),
                resources: patterns_of(resources@),
            }),
    {
        Statement { effect, identities, operations, resources }
    }

    /// The statement's contribution for `request`: `Some` of its effect
    /// when all three clauses match, `None` otherwise.
    #[verifier::loop_isolation(false)]
    pub fn get_effect(&self, request: &Request) -> (r: Option<Effect>)
        ensures
            r == statement_effect(self@, request@),
    {
        proof {
            assert(forall|i: int|
                0 <= i < self.operations@.len() ==> self@.operations[i] == self.operations@[i]@);
            assert(forall|i: int|
                0 <= i < self.identities@.len() ==> self@.identities[i] == self.identities@[i]@);
            lemma_patterns_of(self.resources@);
        }
        let action = request.action();
        let mut found_op = false;
        let mut i: usize = 0;
        while i < self.operations.len()
            invariant
                0 <= i <= self.operations@.len(),
                found_op == exists|j: int|
                    0 <= j < i && self@.operations[j] == request@.action,
            decreases self.operations@.len() - i,
        {
            proof {
                assert(self@.operations[i as int] == self.operations@[i as int]@);
            }
            let op = &self.operations[i];
            if *op == *action {
                found_op = true;
            }
            i = i + 1;
        }
        if !found_op {
            proof {
                assert(!self@.operations.contains(request@.action));
            }
            return Option::None;
        }
        proof {
            assert(self@.operations.contains(request@.action));
        }

        let caller = request.caller();
        let mut found_id = false;
        i = 0;
        while i < self.identities.len()
            invariant
                0 <= i <= self.identities@.len(),
                found_id == exists|j: int|
                    0 <= j < i && id_matches(
                        self@.identities[j],
                        IdentityModel::Principal(request@.caller),
                    ),
            decreases self.identities@.len() - i,
        {
            proof {
                assert(self@.identities[i as int] == self.identities@[i as int]@);
            }
            if self.identities[i].covers_principal(caller) {
                found_id = true;
            }
            i = i + 1;
        }
        if !found_id {
            return Option::None;
        }

        let resource = request.resource();
        let mut found_res = false;
        i = 0;
        while i < self.resources.len()
            invariant
                0 <= i <= self.resources@.len(),
                found_res == exists|j: int|
                    0 <= j < i && path_matches(self@.resources[j], request@.path),
            decreases self.resources@.len() - i,
        {
            proof {
                assert(self@.resources[i as int] == pattern_of(self.resources@[i as int]));
                assert(segments_of(*resource) == request@.path);
            }
            if self.resources[i].matches(resource) {
                found_res = true;
            }
            i = i + 1;
        }
        if found_res {
            Option::Some(self.effect)
        } else {
            Option::None
        }
    }

    /// Appends this statement's byte encoding to `out`.
    #[verifier::rlimit(30)]
    pub(crate) fn encode_into(&self, out: &mut Vec<u8>)
        ensures
            final(out)@ == old(out)@ + crate::codec::enc_statement(self@),
            crate::codec::wf_statement(self@),
    {
        crate::codec::encode_effect_into(out, self.effect);
        crate::codec::encode_u64_into(out, self.identities.len() as u64);
        crate::codec::encode_sids_into(out, &self.identities, 0);
        crate::codec::encode_u64_into(out, self.operations.len() as u64);
        crate::codec::encode_strs_into(out, &self.operations, 0);
        crate::codec::encode_u64_into(out, self.resources.len() as u64);
        crate::codec::encode_patterns_into(out, &self.resources, 0);
        proof {
            let e0 = crate::codec::enc_effect(self@.effect);
            let e1 = crate::codec::enc_u64(self@.identities.len() as u64);
            let e2 = crate::codec::enc_sids(self@.identities);
            let e3 = crate::codec::enc_u64(self@.operations.len() as u64);
            let e4 = crate::codec::enc_strs(self@.operations);
            let e5 = crate::codec::enc_u64(self@.resources.len() as u64);
            let e6 = crate::codec::enc_patterns(self@.resources);
            assert(self@.identities.skip(0) =~= self@.identities);
            assert(self@.operations.skip(0) =~= self@.operations);
            assert(self@.resources.skip(0) =~= self@.resources);
            assert(self@.identities.len() == self.identities@.len());
            assert(self@.operations.len() == self.operations@.len());
            assert(self@.resources.len() == self.resources@.len()) by {
                lemma_patterns_of(self.resources@);
            }
            assert(out@ =~= old(out)@ + e0 + e1 + e2 + e3 + e4 + e5 + e6);
            assert(old(out)@ + e0 + e1 + e2 + e3 + e4 + e5 + e6 =~= old(out)@ + (e0 + e1 + e2 + e3
                + e4 + e5 + e6));
            assert(crate::codec::enc_statement(self@) == e0 + e1 + e2 + e3 + e4 + e5 + e6);
        }
    }
}

/// The identity wildcard covers every caller.
pub proof fn lemma_identity_wildcard(caller: IdentityModel)
    ensures
        id_matches(StatementIdentityModel::Any, caller),
{
}

/// An identity clause naming one specific principal covers exactly the
/// callers with that principal.
pub proof fn lemma_identity_specific(p: Seq<u8>, q: Seq<u8>)
    ensures
        id_matches(
            StatementIdentityModel::Identity(IdentityModel::Principal(p)),
            IdentityModel::Principal(q),
        ) <==> p == q,
{
}

/// A statement whose identity clauses include the wildcard passes its
/// identity check for every caller whatsoever.
pub proof fn lemma_wildcard_statement(s: StatementModel, caller: Seq<u8>)
    requires
        s.identities.contains(StatementIdentityModel::Any),
    ensures
        exists|i: int|
            0 <= i < s.identities.len() && id_matches(
                s.identities[i],
                IdentityModel::Principal(caller),
            ),
{
    let i = choose|i: int| 0 <= i < s.identities.len() && s.identities[i]
        == StatementIdentityModel::Any;
    assert(id_matches(s.identities[i], IdentityModel::Principal(caller)));
}

/// A statement naming one specific identity covers only requests from that
/// very caller.
pub proof fn lemma_specific_identity_statement(s: StatementModel, r: RequestModel, p: Seq<u8>)
    requires
        s.identities == seq![
            StatementIdentityModel::Identity(IdentityModel::Principal(p))
        ],
        statement_applies(s, r),
    ensures
        r.caller == p,
{
}

/// Matching is exact in depth: the two-level pattern `a -> b` covers the
/// path `a / b`, but neither the bare `a` nor any deeper `a / b / c` —
/// unless a further branch for `c` is declared explicitly beneath `b`.
pub proof fn lemma_exact_path(a: Seq<char>, b: Seq<char>, c: Seq<char>)
    ensures
        path_matches(PatternModel::Node(a, seq![PatternModel::Leaf(b)]), seq![a, b]),
        !path_matches(PatternModel::Node(a, seq![PatternModel::Leaf(b)]), seq![a]),
        !path_matches(PatternModel::Node(a, seq![PatternModel::Leaf(b)]), seq![a, b, c]),
        path_matches(
            PatternModel::Node(a, seq![PatternModel::Node(b, seq![PatternModel::Leaf(c)])]),
            seq![a, b, c],
        ),
{
    let leaf_b = PatternModel::Leaf(b);
    let leaf_c = PatternModel::Leaf(c);
    lemma_any_child_matches(seq![leaf_b], seq![a, b].skip(1));
    assert(seq![a, b].skip(1) =~= seq![b]);
    assert(path_matches(leaf_b, seq![b]));

    lemma_any_child_matches(seq![leaf_b], seq![a, b, c].skip(1));
    assert(seq![a, b, c].skip(1) =~= seq![b, c]);

    let node_bc = PatternModel::Node(b, seq![leaf_c]);
    lemma_any_child_matches(seq![node_bc], seq![a, b, c].skip(1));
    lemma_any_child_matches(seq![leaf_c], seq![b, c].skip(1));
    assert(seq![b, c].skip(1) =~= seq![c]);
    assert(path_matches(leaf_c, seq![c]));
    assert(path_matches(node_bc, seq![b, c]));
}

/// Branch alternation: a node's children are alternatives, so the pattern
/// `a -> { b -> c, b -> d }` covers both `a / b / c` and `a / b / d`, and
/// covers no `a / b / e` for any other final segment `e`.
pub proof fn lemma_branch_alternation(a: Seq<char>, b: Seq<char>, c: Seq<char>, d: Seq<char>, e: Seq<char>)
    requires
        e != c,
        e != d,
    ensures
        path_matches(
            PatternModel::Node(
                a,
                seq![
                    PatternModel::Node(b, seq![PatternModel::Leaf(c)]),
                    PatternModel::Node(b, seq![PatternModel::Leaf(d)]),
                ],
            ),
            seq![a, b, c],
        ),
        path_matches(
            PatternModel::Node(
                a,
                seq![
                    PatternModel::Node(b, seq![PatternModel::Leaf(c)]),
                    PatternModel::Node(b, seq![PatternModel::Leaf(d)]),
                ],
            ),
            seq![a, b, d],
        ),
        !path_matches(
            PatternModel::Node(
                a,
                seq![
                    PatternModel::Node(b, seq![PatternModel::Leaf(c)]),
                    PatternModel::Node(b, seq![PatternModel::Leaf(d)]),
                ],
            ),
            seq![a, b, e],
        ),
{
    let node_bc = PatternModel::Node(b, seq![PatternModel::Leaf(c)]);
    let node_bd = PatternModel::Node(b, seq![PatternModel::Leaf(d)]);
    let children = seq![node_bc, node_bd];
    assert(children[0] == node_bc && children[1] == node_bd);

    lemma_any_child_matches(children, seq![a, b, c].skip(1));
    assert(seq![a, b, c].skip(1) =~= seq![b, c]);
    lemma_any_child_matches(seq![PatternModel::Leaf(c)], seq![b, c].skip(1));
    assert(seq![b, c].skip(1) =~= seq![c]);
    assert(path_matches(PatternModel::Leaf(c), seq![c]));
    assert(path_matches(node_bc, seq![b, c]));

    lemma_any_child_matches(children, seq![a, b, d].skip(1));
    assert(seq![a, b, d].skip(1) =~= seq![b, d]);
    lemma_any_child_matches(seq![PatternModel::Leaf(d)], seq![b, d].skip(1));
    assert(seq![b, d].skip(1) =~= seq![d]);
    assert(path_matches(PatternModel::Leaf(d), seq![d]));
    assert(path_matches(node_bd, seq![b, d]));

    lemma_any_child_matches(children, seq![a, b, e].skip(1));
    assert(seq![a, b, e].skip(1) =~= seq![b, e]);
    lemma_any_child_matches(seq![PatternModel::Leaf(c)], seq![b, e].skip(1));
    lemma_any_child_matches(seq![PatternModel::Leaf(d)], seq![b, e].skip(1));
    assert(seq![b, e].skip(1) =~= seq![e]);
    assert(!path_matches(node_bc, seq![b, e]));
    assert(!path_matches(node_bd, seq![b, e]));
}

} // verus!
