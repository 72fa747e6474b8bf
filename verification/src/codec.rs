//! A self-describing byte encoding for policies, for hand-off to a
//! durable store: every frame is a little-endian 64-bit length or count,
//! a one-byte tag, or raw UTF-8 bytes. Decoding is total: malformed bytes
//! are reported as `None`, never turned into a decision.

use vstd::prelude::*;

use vstd::bytes::{spec_u64_from_le_bytes, spec_u64_to_le_bytes};
use vstd::utf8::{decode_utf8, encode_utf8, valid_utf8};

use crate::effect::Effect;
use crate::request::Principal;
use crate::statement::{
    pattern_of, patterns_of, sid_models, statement_models, str_models, Identity, IdentityModel,
    PatternModel, Statement, StatementIdentity, StatementIdentityModel, StatementModel,
    StatementResource,
};

verus! {

/// One past the largest count or length a frame can carry.
pub open spec fn frame_limit() -> int {
    0x1_0000_0000_0000_0000
}

pub open spec fn enc_u64(v: u64) -> Seq<u8> {
    spec_u64_to_le_bytes(v)
}

pub open spec fn enc_bytes(b: Seq<u8>) -> Seq<u8> {
    enc_u64(b.len() as u64) + b
}

pub open spec fn enc_str(s: Seq<char>) -> Seq<u8> {
    enc_bytes(encode_utf8(s))
}

pub open spec fn enc_effect(e: Effect) -> Seq<u8> {
    match e {
        Effect::Deny => seq![0u8],
        Effect::Allow => seq![1u8],
    }
}

pub open spec fn enc_sid(si: StatementIdentityModel) -> Seq<u8> {
    match si {
        StatementIdentityModel::Any => seq![0u8],
        StatementIdentityModel::Identity(IdentityModel::Principal(b)) => seq![1u8] + enc_bytes(b),
    }
}

pub open spec fn enc_pattern(p: PatternModel) -> Seq<u8>
    decreases p,
{
    match p {
        PatternModel::Leaf(s) => seq![0u8] + enc_str(s),
        PatternModel::Node(s, cs) => seq![1u8] + enc_str(s) + enc_u64(cs.len() as u64)
            + enc_patterns(cs),
    }
}

pub open spec fn enc_patterns(cs: Seq<PatternModel>) -> Seq<u8>
    decreases cs,
{
    if cs.len() == 0 {
        Seq::empty()
    } else {
        enc_pattern(cs[0]) + enc_patterns(cs.drop_first())
    }
}

pub open spec fn enc_sids(s: Seq<StatementIdentityModel>) -> Seq<u8>
    decreases s.len(),
{
    if s.len() == 0 {
        Seq::empty()
    } else {
        enc_sid(s[0]) + enc_sids(s.drop_first())
    }
}

pub open spec fn enc_strs(s: Seq<Seq<char>>) -> Seq<u8>
    decreases s.len(),
{
    if s.len() == 0 {
        Seq::empty()
    } else {
        enc_str(s[0]) + enc_strs(s.drop_first())
    }
}

pub open spec fn enc_statement(s: StatementModel) -> Seq<u8> {
    enc_effect(s.effect) + enc_u64(s.identities.len() as u64) + enc_sids(s.identities) + enc_u64(
        s.operations.len() as u64,
    ) + enc_strs(s.operations) + enc_u64(s.resources.len() as u64) + enc_patterns(s.resources)
}

pub open spec fn enc_statements(s: Seq<StatementModel>) -> Seq<u8>
    decreases s.len(),
{
    if s.len() == 0 {
        Seq::empty()
    } else {
        enc_statement(s[0]) + enc_statements(s.drop_first())
    }
}

pub open spec fn enc_policy(m: Seq<StatementModel>) -> Seq<u8> {
    enc_u64(m.len() as u64) + enc_statements(m)
}

/// Whether a byte string is short enough for its length frame.
pub open spec fn wf_bytes(b: Seq<u8>) -> bool {
    b.len() < frame_limit()
}

/// Whether a segment or action name is short enough for its length frame.
pub open spec fn wf_str(s: Seq<char>) -> bool {
    encode_utf8(s).len() < frame_limit()
}

pub open spec fn wf_sid(si: StatementIdentityModel) -> bool {
    match si {
        StatementIdentityModel::Any => true,
        StatementIdentityModel::Identity(IdentityModel::Principal(b)) => wf_bytes(b),
    }
}

pub open spec fn wf_pattern(p: PatternModel) -> bool
    decreases p,
{
    match p {
        PatternModel::Leaf(s) => wf_str(s),
        PatternModel::Node(s, cs) => wf_str(s) && cs.len() < frame_limit() && wf_patterns(cs),
    }
}

pub open spec fn wf_patterns(cs: Seq<PatternModel>) -> bool
    decreases cs,
{
    cs.len() == 0 || (wf_pattern(cs[0]) && wf_patterns(cs.drop_first()))
}

pub open spec fn wf_statement(s: StatementModel) -> bool {
    &&& s.identities.len() < frame_limit()
    &&& s.operations.len() < frame_limit()
    &&& s.resources.len() < frame_limit()
    &&& forall|i: int| 0 <= i < s.identities.len() ==> wf_sid(#[trigger] s.identities[i])
    &&& forall|i: int| 0 <= i < s.operations.len() ==> wf_str(#[trigger] s.operations[i])
    &&& wf_patterns(s.resources)
}

/// Whether a policy model fits the encoding's frames: every count and
/// every byte length is below [`frame_limit`]. Every policy held in
/// memory does.
pub open spec fn wf_policy(m: Seq<StatementModel>) -> bool {
    m.len() < frame_limit() && forall|i: int| 0 <= i < m.len() ==> wf_statement(#[trigger] m[i])
}

pub open spec fn dec_u64(bytes: Seq<u8>, pos: int) -> Option<(u64, int)> {
    if 0 <= pos && pos + 8 <= bytes.len() {
        Option::Some((spec_u64_from_le_bytes(bytes.subrange(pos, pos + 8)), pos + 8))
    } else {
        Option::None
    }
}

pub open spec fn dec_bytes(bytes: Seq<u8>, pos: int) -> Option<(Seq<u8>, int)> {
    match dec_u64(bytes, pos) {
        Option::Some((n, p)) => if p + n <= bytes.len() {
            Option::Some((bytes.subrange(p, p + n), p + n))
        } else {
            Option::None
        },
        Option::None => Option::None,
    }
}

pub open spec fn dec_str(bytes: Seq<u8>, pos: int) -> Option<(Seq<char>, int)> {
    match dec_bytes(bytes, pos) {
        Option::Some((b, p)) => if valid_utf8(b) {
            Option::Some((decode_utf8(b), p))
        } else {
            Option::None
        },
        Option::None => Option::None,
    }
}

pub open spec fn dec_effect(bytes: Seq<u8>, pos: int) -> Option<(Effect, int)> {
    if 0 <= pos && pos + 1 <= bytes.len() {
        if bytes[pos] == 0u8 {
            Option::Some((Effect::Deny, pos + 1))
        } else if bytes[pos] == 1u8 {
            Option::Some((Effect::Allow, pos + 1))
        } else {
            Option::None
        }
    } else {
        Option::None
    }
}

pub open spec fn dec_sid(bytes: Seq<u8>, pos: int) -> Option<(StatementIdentityModel, int)> {
    if 0 <= pos && pos + 1 <= bytes.len() {
        if bytes[pos] == 0u8 {
            Option::Some((StatementIdentityModel::Any, pos + 1))
        } else if bytes[pos] == 1u8 {
            match dec_bytes(bytes, pos + 1) {
                Option::Some((b, p)) => Option::Some(
                    (StatementIdentityModel::Identity(IdentityModel::Principal(b)), p),
                ),
                Option::None => Option::None,
            }
        } else {
            Option::None
        }
    } else {
        Option::None
    }
}

pub open spec fn dec_pattern(bytes: Seq<u8>, pos: int) -> Option<(PatternModel, int)>
    decreases bytes.len() - pos, 0int,
{
    if 0 <= pos && pos + 1 <= bytes.len() {
        if bytes[pos] == 0u8 {
            match dec_str(bytes, pos + 1) {
                Option::Some((s, p)) => Option::Some((PatternModel::Leaf(s), p)),
                Option::None => Option::None,
            }
        } else if bytes[pos] == 1u8 {
            match dec_str(bytes, pos + 1) {
                Option::Some((s, p1)) => match dec_u64(bytes, p1) {
                    Option::Some((n, p2)) => if pos < p2 <= bytes.len() {
                        match dec_patterns(bytes, p2, n as nat) {
                            Option::Some((cs, p3)) => Option::Some((PatternModel::Node(s, cs), p3)),
                            Option::None => Option::None,
                        }
                    } else {
                        Option::None
                    },
                    Option::None => Option::None,
                },
                Option::None => Option::None,
            }
        } else {
            Option::None
        }
    } else {
        Option::None
    }
}

pub open spec fn dec_patterns(bytes: Seq<u8>, pos: int, n: nat) -> Option<(Seq<PatternModel>, int)>
    decreases bytes.len() - pos, n,
{
    if n == 0 {
        if 0 <= pos <= bytes.len() {
            Option::Some((Seq::empty(), pos))
        } else {
            Option::None
        }
    } else {
        match dec_pattern(bytes, pos) {
            Option::Some((p, p1)) => if pos < p1 <= bytes.len() {
                match dec_patterns(bytes, p1, (n - 1) as nat) {
                    Option::Some((cs, p2)) => Option::Some((seq![p] + cs, p2)),
                    Option::None => Option::None,
                }
            } else {
                Option::None
            },
            Option::None => Option::None,
        }
    }
}

pub open spec fn dec_sids(bytes: Seq<u8>, pos: int, n: nat) -> Option<
    (Seq<StatementIdentityModel>, int),
>
    decreases n,
{
    if n == 0 {
        Option::Some((Seq::empty(), pos))
    } else {
        match dec_sid(bytes, pos) {
            Option::Some((x, p)) => match dec_sids(bytes, p, (n - 1) as nat) {
                Option::Some((xs, p2)) => Option::Some((seq![x] + xs, p2)),
                Option::None => Option::None,
            },
            Option::None => Option::None,
        }
    }
}

pub open spec fn dec_strs(bytes: Seq<u8>, pos: int, n: nat) -> Option<(Seq<Seq<char>>, int)>
    decreases n,
{
    if n == 0 {
        Option::Some((Seq::empty(), pos))
    } else {
        match dec_str(bytes, pos) {
            Option::Some((x, p)) => match dec_strs(bytes, p, (n - 1) as nat) {
                Option::Some((xs, p2)) => Option::Some((seq![x] + xs, p2)),
                Option::None => Option::None,
            },
            Option::None => Option::None,
        }
    }
}

pub open spec fn dec_statement(bytes: Seq<u8>, pos: int) -> Option<(StatementModel, int)> {
    match dec_effect(bytes, pos) {
        Option::Some((e, p0)) => match dec_u64(bytes, p0) {
            Option::Some((n1, p1)) => match dec_sids(bytes, p1, n1 as nat) {
                Option::Some((ids, p2)) => match dec_u64(bytes, p2) {
                    Option::Some((n2, p3)) => match dec_strs(bytes, p3, n2 as nat) {
                        Option::Some((ops, p4)) => match dec_u64(bytes, p4) {
                            Option::Some((n3, p5)) => match dec_patterns(bytes, p5, n3 as nat) {
                                Option::Some((res, p6)) => Option::Some(
                                    (
                                        StatementModel {
                                            effect: e,
                                            identities: ids,
                                            operations: ops,
                                            resources: res,
                                        },
                                        p6,
                                    ),
                                ),
                                Option::None => Option::None,
                            },
                            Option::None => Option::None,
                        },
                        Option::None => Option::None,
                    },
                    Option::None => Option::None,
                },
                Option::None => Option::None,
            },
            Option::None => Option::None,
        },
        Option::None => Option::None,
    }
}

pub open spec fn dec_statements(bytes: Seq<u8>, pos: int, n: nat) -> Option<
    (Seq<StatementModel>, int),
>
    decreases n,
{
    if n == 0 {
        Option::Some((Seq::empty(), pos))
    } else {
        match dec_statement(bytes, pos) {
            Option::Some((x, p)) => match dec_statements(bytes, p, (n - 1) as nat) {
                Option::Some((xs, p2)) => Option::Some((seq![x] + xs, p2)),
                Option::None => Option::None,
            },
            Option::None => Option::None,
        }
    }
}

/// The decoded policy model of a byte string, `None` unless the whole
/// string is one well-formed policy frame.
pub open spec fn dec_policy(bytes: Seq<u8>) -> Option<Seq<StatementModel>> {
    match dec_u64(bytes, 0) {
        Option::Some((n, p)) => match dec_statements(bytes, p, n as nat) {
            Option::Some((m, p2)) => if p2 == bytes.len() {
                Option::Some(m)
            } else {
                Option::None
            },
            Option::None => Option::None,
        },
        Option::None => Option::None,
    }
}

/// A byte region of `bytes` holding a concatenation splits into a region
/// for each part.
proof fn lemma_split(bytes: Seq<u8>, pos: int, e1: Seq<u8>, e2: Seq<u8>)
    requires
        0 <= pos,
        pos + e1.len() + e2.len() <= bytes.len(),
        bytes.subrange(pos, pos + e1.len() + e2.len()) == e1 + e2,
    ensures
        bytes.subrange(pos, pos + e1.len()) == e1,
        bytes.subrange(pos + e1.len(), pos + e1.len() + e2.len()) == e2,
{
    assert forall|i: int| 0 <= i < e1.len() implies bytes.subrange(pos, pos + e1.len())[i]
        == e1[i] by {
        assert(bytes.subrange(pos, pos + e1.len() + e2.len())[i] == (e1 + e2)[i]);
    }
    assert forall|i: int| 0 <= i < e2.len() implies #[trigger] e2[i] == bytes[pos + e1.len()
        + i] by {
        assert((e1 + e2)[e1.len() + i] == e2[i]);
        assert(bytes.subrange(pos, pos + e1.len() + e2.len())[e1.len() + i] == bytes[pos + e1.len()
            + i]);
    }
    assert(bytes.subrange(pos, pos + e1.len()) =~= e1);
    assert(bytes.subrange(pos + e1.len(), pos + e1.len() + e2.len()) =~= e2);
}

proof fn lemma_rt_u64(bytes: Seq<u8>, pos: int, v: u64)
    requires
        0 <= pos,
        pos + 8 <= bytes.len(),
        bytes.subrange(pos, pos + 8) == enc_u64(v),
    ensures
        dec_u64(bytes, pos) == Option::Some((v, pos + 8)),
        enc_u64(v).len() == 8,
{
    vstd::bytes::lemma_auto_spec_u64_to_from_le_bytes();
}

proof fn lemma_rt_bytes(bytes: Seq<u8>, pos: int, b: Seq<u8>)
    requires
        wf_bytes(b),
        0 <= pos,
        pos + enc_bytes(b).len() <= bytes.len(),
        bytes.subrange(pos, pos + enc_bytes(b).len()) == enc_bytes(b),
    ensures
        dec_bytes(bytes, pos) == Option::Some((b, pos + enc_bytes(b).len())),
        enc_bytes(b).len() == 8 + b.len(),
{
    vstd::bytes::lemma_auto_spec_u64_to_from_le_bytes();
    lemma_split(bytes, pos, enc_u64(b.len() as u64), b);
    lemma_rt_u64(bytes, pos, b.len() as u64);
}

proof fn lemma_rt_str(bytes: Seq<u8>, pos: int, s: Seq<char>)
    requires
        wf_str(s),
        0 <= pos,
        pos + enc_str(s).len() <= bytes.len(),
        bytes.subrange(pos, pos + enc_str(s).len()) == enc_str(s),
    ensures
        dec_str(bytes, pos) == Option::Some((s, pos + enc_str(s).len())),
        enc_str(s).len() == 8 + encode_utf8(s).len(),
{
    lemma_rt_bytes(bytes, pos, encode_utf8(s));
    vstd::utf8::encode_utf8_valid_utf8(s);
    vstd::utf8::encode_utf8_decode_utf8(s);
}

proof fn lemma_rt_effect(bytes: Seq<u8>, pos: int, e: Effect)
    requires
        0 <= pos,
        pos + enc_effect(e).len() <= bytes.len(),
        bytes.subrange(pos, pos + enc_effect(e).len()) == enc_effect(e),
    ensures
        dec_effect(bytes, pos) == Option::Some((e, pos + 1)),
        enc_effect(e).len() == 1,
{
    assert(bytes.subrange(pos, pos + 1)[0] == bytes[pos]);
}

proof fn lemma_rt_sid(bytes: Seq<u8>, pos: int, si: StatementIdentityModel)
    requires
        wf_sid(si),
        0 <= pos,
        pos + enc_sid(si).len() <= bytes.len(),
        bytes.subrange(pos, pos + enc_sid(si).len()) == enc_sid(si),
    ensures
        dec_sid(bytes, pos) == Option::Some((si, pos + enc_sid(si).len())),
        enc_sid(si).len() >= 1,
{
    match si {
        StatementIdentityModel::Any => {
            assert(bytes.subrange(pos, pos + 1)[0] == bytes[pos]);
        },
        StatementIdentityModel::Identity(IdentityModel::Principal(b)) => {
            lemma_split(bytes, pos, seq![1u8], enc_bytes(b));
            assert(bytes.subrange(pos, pos + 1)[0] == bytes[pos]);
            lemma_rt_bytes(bytes, pos + 1, b);
        },
    }
}

proof fn lemma_enc_pattern_len(p: PatternModel)
    ensures
        enc_pattern(p).len() >= 1,
{
    match p {
        PatternModel::Leaf(_) => {},
        PatternModel::Node(_, _) => {},
    }
}

proof fn lemma_rt_pattern(bytes: Seq<u8>, pos: int, p: PatternModel)
    requires
        wf_pattern(p),
        0 <= pos,
        pos + enc_pattern(p).len() <= bytes.len(),
        bytes.subrange(pos, pos + enc_pattern(p).len()) == enc_pattern(p),
    ensures
        dec_pattern(bytes, pos) == Option::Some((p, pos + enc_pattern(p).len())),
    decreases p,
{
    match p {
        PatternModel::Leaf(s) => {
            lemma_split(bytes, pos, seq![0u8], enc_str(s));
            assert(bytes.subrange(pos, pos + 1)[0] == bytes[pos]);
            lemma_rt_str(bytes, pos + 1, s);
        },
        PatternModel::Node(s, cs) => {
            let t = seq![1u8];
            let a = enc_str(s);
            let b = enc_u64(cs.len() as u64);
            let c = enc_patterns(cs);
            vstd::bytes::lemma_auto_spec_u64_to_from_le_bytes();
            assert(enc_pattern(p) =~= t + (a + (b + c)));
            lemma_split(bytes, pos, t, a + (b + c));
            assert(bytes.subrange(pos, pos + 1)[0] == bytes[pos]);
            lemma_split(bytes, pos + 1, a, b + c);
            lemma_rt_str(bytes, pos + 1, s);
            let p1 = pos + 1 + a.len();
            lemma_split(bytes, p1, b, c);
            lemma_rt_u64(bytes, p1, cs.len() as u64);
            let p2 = p1 + 8;
            lemma_rt_patterns(bytes, p2, cs);
            assert((cs.len() as u64) as nat == cs.len());
        },
    }
}

proof fn lemma_rt_patterns(bytes: Seq<u8>, pos: int, cs: Seq<PatternModel>)
    requires
        wf_patterns(cs),
        0 <= pos,
        pos + enc_patterns(cs).len() <= bytes.len(),
        bytes.subrange(pos, pos + enc_patterns(cs).len()) == enc_patterns(cs),
    ensures
        dec_patterns(bytes, pos, cs.len()) == Option::Some((cs, pos + enc_patterns(cs).len())),
    decreases cs,
{
    if cs.len() == 0 {
        assert(Seq::<PatternModel>::empty() =~= cs);
    } else {
        lemma_split(bytes, pos, enc_pattern(cs[0]), enc_patterns(cs.drop_first()));
        lemma_rt_pattern(bytes, pos, cs[0]);
        lemma_enc_pattern_len(cs[0]);
        let p1 = pos + enc_pattern(cs[0]).len();
        lemma_rt_patterns(bytes, p1, cs.drop_first());
        assert(seq![cs[0]] + cs.drop_first() =~= cs);
        assert((cs.len() - 1) as nat == cs.drop_first().len());
    }
}

proof fn lemma_rt_sids(bytes: Seq<u8>, pos: int, ids: Seq<StatementIdentityModel>)
    requires
        forall|i: int| 0 <= i < ids.len() ==> wf_sid(#[trigger] ids[i]),
        0 <= pos,
        pos + enc_sids(ids).len() <= bytes.len(),
        bytes.subrange(pos, pos + enc_sids(ids).len()) == enc_sids(ids),
    ensures
        dec_sids(bytes, pos, ids.len()) == Option::Some((ids, pos + enc_sids(ids).len())),
    decreases ids.len(),
{
    if ids.len() == 0 {
        assert(Seq::<StatementIdentityModel>::empty() =~= ids);
    } else {
        lemma_split(bytes, pos, enc_sid(ids[0]), enc_sids(ids.drop_first()));
        lemma_rt_sid(bytes, pos, ids[0]);
        let p1 = pos + enc_sid(ids[0]).len();
        assert(forall|i: int|
            0 <= i < ids.drop_first().len() ==> wf_sid(#[trigger] ids.drop_first()[i]));
        lemma_rt_sids(bytes, p1, ids.drop_first());
        assert(seq![ids[0]] + ids.drop_first() =~= ids);
    }
}

proof fn lemma_rt_strs(bytes: Seq<u8>, pos: int, ss: Seq<Seq<char>>)
    requires
        forall|i: int| 0 <= i < ss.len() ==> wf_str(#[trigger] ss[i]),
        0 <= pos,
        pos + enc_strs(ss).len() <= bytes.len(),
        bytes.subrange(pos, pos + enc_strs(ss).len()) == enc_strs(ss),
    ensures
        dec_strs(bytes, pos, ss.len()) == Option::Some((ss, pos + enc_strs(ss).len())),
    decreases ss.len(),
{
    if ss.len() == 0 {
        assert(Seq::<Seq<char>>::empty() =~= ss);
    } else {
        lemma_split(bytes, pos, enc_str(ss[0]), enc_strs(ss.drop_first()));
        lemma_rt_str(bytes, pos, ss[0]);
        let p1 = pos + enc_str(ss[0]).len();
        assert(forall|i: int|
            0 <= i < ss.drop_first().len() ==> wf_str(#[trigger] ss.drop_first()[i]));
        lemma_rt_strs(bytes, p1, ss.drop_first());
        assert(seq![ss[0]] + ss.drop_first() =~= ss);
    }
}

proof fn lemma_rt_statement(bytes: Seq<u8>, pos: int, s: StatementModel)
    requires
        wf_statement(s),
        0 <= pos,
        pos + enc_statement(s).len() <= bytes.len(),
        bytes.subrange(pos, pos + enc_statement(s).len()) == enc_statement(s),
    ensures
        dec_statement(bytes, pos) == Option::Some((s, pos + enc_statement(s).len())),
{
    let e0 = enc_effect(s.effect);
    let e1 = enc_u64(s.identities.len() as u64);
    let e2 = enc_sids(s.identities);
    let e3 = enc_u64(s.operations.len() as u64);
    let e4 = enc_strs(s.operations);
    let e5 = enc_u64(s.resources.len() as u64);
    let e6 = enc_patterns(s.resources);
    vstd::bytes::lemma_auto_spec_u64_to_from_le_bytes();
    assert(enc_statement(s) =~= e0 + (e1 + (e2 + (e3 + (e4 + (e5 + e6))))));
    lemma_split(bytes, pos, e0, e1 + (e2 + (e3 + (e4 + (e5 + e6)))));
    lemma_rt_effect(bytes, pos, s.effect);
    let p0 = pos + 1;
    lemma_split(bytes, p0, e1, e2 + (e3 + (e4 + (e5 + e6))));
    lemma_rt_u64(bytes, p0, s.identities.len() as u64);
    let p1 = p0 + 8;
    lemma_split(bytes, p1, e2, e3 + (e4 + (e5 + e6)));
    lemma_rt_sids(bytes, p1, s.identities);
    let p2 = p1 + e2.len();
    lemma_split(bytes, p2, e3, e4 + (e5 + e6));
    lemma_rt_u64(bytes, p2, s.operations.len() as u64);
    let p3 = p2 + 8;
    lemma_split(bytes, p3, e4, e5 + e6);
    lemma_rt_strs(bytes, p3, s.operations);
    let p4 = p3 + e4.len();
    lemma_split(bytes, p4, e5, e6);
    lemma_rt_u64(bytes, p4, s.resources.len() as u64);
    let p5 = p4 + 8;
    lemma_rt_patterns(bytes, p5, s.resources);
    assert((s.identities.len() as u64) as nat == s.identities.len());
    assert((s.operations.len() as u64) as nat == s.operations.len());
    assert((s.resources.len() as u64) as nat == s.resources.len());
}

proof fn lemma_rt_statements(bytes: Seq<u8>, pos: int, m: Seq<StatementModel>)
    requires
        forall|i: int| 0 <= i < m.len() ==> wf_statement(#[trigger] m[i]),
        0 <= pos,
        pos + enc_statements(m).len() <= bytes.len(),
        bytes.subrange(pos, pos + enc_statements(m).len()) == enc_statements(m),
    ensures
        dec_statements(bytes, pos, m.len()) == Option::Some((m, pos + enc_statements(m).len())),
    decreases m.len(),
{
    if m.len() == 0 {
        assert(Seq::<StatementModel>::empty() =~= m);
    } else {
        lemma_split(bytes, pos, enc_statement(m[0]), enc_statements(m.drop_first()));
        lemma_rt_statement(bytes, pos, m[0]);
        let p1 = pos + enc_statement(m[0]).len();
        assert(forall|i: int|
            0 <= i < m.drop_first().len() ==> wf_statement(#[trigger] m.drop_first()[i]));
        lemma_rt_statements(bytes, p1, m.drop_first());
        assert(seq![m[0]] + m.drop_first() =~= m);
    }
}

/// Round trip: decoding the encoding of any policy model that fits the
/// encoding's frames yields that model exactly, so a policy that is
/// serialized and then deserialized decides every request as the
/// original did.
pub proof fn lemma_policy_round_trip(m: Seq<StatementModel>)
    requires
        wf_policy(m),
    ensures
        dec_policy(enc_policy(m)) == Option::Some(m),
{
    let bytes = enc_policy(m);
    let e0 = enc_u64(m.len() as u64);
    let e1 = enc_statements(m);
    vstd::bytes::lemma_auto_spec_u64_to_from_le_bytes();
    assert(bytes.subrange(0, bytes.len() as int) =~= e0 + e1);
    lemma_split(bytes, 0, e0, e1);
    lemma_rt_u64(bytes, 0, m.len() as u64);
    lemma_rt_statements(bytes, 8, m);
    assert((m.len() as u64) as nat == m.len());
}

/// Relies on String::from_utf8: returns the string decoded from the given
/// bytes exactly when they are valid UTF-8, and fails otherwise.
#[verifier::external_body]
fn string_from_utf8(bytes: Vec<u8>) -> (r: Option<String>)
    ensures
        r is Some <==> valid_utf8(bytes@),
        r is Some ==> r.unwrap()@ == decode_utf8(bytes@),
{
    String::from_utf8(bytes).ok()
}

pub(crate) fn encode_u64_into(out: &mut Vec<u8>, v: u64)
    ensures
        final(out)@ == old(out)@ + enc_u64(v),
{
    let mut b = vstd::bytes::u64_to_le_bytes(v);
    out.append(&mut b);
}

#[verifier::loop_isolation(false)]
fn push_slice(out: &mut Vec<u8>, b: &[u8])
    ensures
        final(out)@ == old(out)@ + b@,
{
    let mut i: usize = 0;
    proof {
        assert(out@ =~= old(out)@ + b@.take(0));
    }
    while i < b.len()
        invariant
            0 <= i <= b@.len(),
            out@ == old(out)@ + b@.take(i as int),
        decreases b@.len() - i,
    {
        let x = *vstd::slice::slice_index_get(b, i);
        out.push(x);
        proof {
            assert(out@ =~= old(out)@ + b@.take(i as int + 1));
        }
        i = i + 1;
    }
    proof {
        assert(b@.take(b@.len() as int) =~= b@);
    }
}

pub(crate) fn encode_bytes_into(out: &mut Vec<u8>, b: &Vec<u8>)
    ensures
        final(out)@ == old(out)@ + enc_bytes(b@),
        wf_bytes(b@),
{
    encode_u64_into(out, b.len() as u64);
    push_slice(out, b.as_slice());
    proof {
        assert(out@ =~= old(out)@ + enc_bytes(b@));
    }
}

pub(crate) fn encode_str_into(out: &mut Vec<u8>, s: &str)
    ensures
        final(out)@ == old(out)@ + enc_str(s@),
        wf_str(s@),
{
    let bs = s.as_bytes();
    encode_u64_into(out, bs.len() as u64);
    push_slice(out, bs);
    proof {
        assert(out@ =~= old(out)@ + enc_str(s@));
    }
}

pub(crate) fn encode_effect_into(out: &mut Vec<u8>, e: Effect)
    ensures
        final(out)@ == old(out)@ + enc_effect(e),
{
    match e {
        Effect::Deny => out.push(0u8),
        Effect::Allow => out.push(1u8),
    }
    proof {
        assert(out@ =~= old(out)@ + enc_effect(e));
    }
}

pub(crate) fn encode_sid_into(out: &mut Vec<u8>, si: &StatementIdentity)
    ensures
        final(out)@ == old(out)@ + enc_sid(si@),
        wf_sid(si@),
{
    match si {
        StatementIdentity::Any => {
            out.push(0u8);
            proof {
                assert(out@ =~= old(out)@ + enc_sid(si@));
            }
        },
        StatementIdentity::Identity(Identity::Principal(p)) => {
            out.push(1u8);
            encode_bytes_into(out, p.as_bytes());
            proof {
                assert(out@ =~= old(out)@ + enc_sid(si@));
            }
        },
    }
}

pub(crate) fn encode_sids_into(out: &mut Vec<u8>, v: &Vec<StatementIdentity>, from: usize)
    requires
        from <= v@.len(),
    ensures
        final(out)@ == old(out)@ + enc_sids(sid_models(v@).skip(from as int)),
        forall|i: int| from <= i < v@.len() ==> wf_sid(#[trigger] v@[i]@),
    decreases v@.len() - from,
{
    let ghost models = sid_models(v@);
    if from < v.len() {
        encode_sid_into(out, &v[from]);
        encode_sids_into(out, v, from + 1);
        proof {
            assert(models[from as int] == v@[from as int]@);
            assert(models.skip(from as int).drop_first() =~= models.skip(from as int + 1));
            assert(models.skip(from as int)[0] == models[from as int]);
            assert(out@ =~= old(out)@ + enc_sids(models.skip(from as int)));
        }
    } else {
        proof {
            assert(models.skip(from as int) =~= Seq::<StatementIdentityModel>::empty());
            assert(out@ =~= old(out)@ + enc_sids(models.skip(from as int)));
        }
    }
}

pub(crate) fn encode_strs_into(out: &mut Vec<u8>, v: &Vec<String>, from: usize)
    requires
        from <= v@.len(),
    ensures
        final(out)@ == old(out)@ + enc_strs(str_models(v@).skip(from as int)),
        forall|i: int| from <= i < v@.len() ==> wf_str(#[trigger] v@[i]@),
    decreases v@.len() - from,
{
    let ghost models = str_models(v@);
    if from < v.len() {
        encode_str_into(out, v[from].as_str());
        encode_strs_into(out, v, from + 1);
        proof {
            assert(models[from as int] == v@[from as int]@);
            assert(models.skip(from as int).drop_first() =~= models.skip(from as int + 1));
            assert(models.skip(from as int)[0] == models[from as int]);
            assert(out@ =~= old(out)@ + enc_strs(models.skip(from as int)));
        }
    } else {
        proof {
            assert(models.skip(from as int) =~= Seq::<Seq<char>>::empty());
            assert(out@ =~= old(out)@ + enc_strs(models.skip(from as int)));
        }
    }
}

pub(crate) fn encode_pattern_into(out: &mut Vec<u8>, p: &StatementResource)
    ensures
        final(out)@ == old(out)@ + enc_pattern(pattern_of(*p)),
        wf_pattern(pattern_of(*p)),
    decreases *p, 0int,
{
    match p {
        StatementResource::Resource(s) => {
            out.push(0u8);
            encode_str_into(out, s.as_str());
            proof {
                assert(out@ =~= old(out)@ + enc_pattern(pattern_of(*p)));
            }
        },
        StatementResource::Nested { node, next } => {
            out.push(1u8);
            encode_str_into(out, node.as_str());
            encode_u64_into(out, next.len() as u64);
            encode_patterns_into(out, next, 0);
            proof {
                crate::statement::lemma_patterns_of(next@);
                assert(patterns_of(next@).skip(0) =~= patterns_of(next@));
                assert(out@ =~= old(out)@ + enc_pattern(pattern_of(*p)));
            }
        },
    }
}

pub(crate) fn encode_patterns_into(out: &mut Vec<u8>, v: &Vec<StatementResource>, from: usize)
    requires
        from <= v@.len(),
    ensures
        final(out)@ == old(out)@ + enc_patterns(patterns_of(v@).skip(from as int)),
        wf_patterns(patterns_of(v@).skip(from as int)),
    decreases *v, v@.len() - from,
{
    proof {
        crate::statement::lemma_patterns_of(v@);
    }
    let ghost models = patterns_of(v@);
    if from < v.len() {
        encode_pattern_into(out, &v[from]);
        encode_patterns_into(out, v, from + 1);
        proof {
            assert(models[from as int] == pattern_of(v@[from as int]));
            assert(models.skip(from as int).drop_first() =~= models.skip(from as int + 1));
            assert(models.skip(from as int)[0] == models[from as int]);
            assert(out@ =~= old(out)@ + enc_patterns(models.skip(from as int)));
        }
    } else {
        proof {
            assert(models.skip(from as int) =~= Seq::<PatternModel>::empty());
            assert(out@ =~= old(out)@ + enc_patterns(models.skip(from as int)));
        }
    }
}

pub(crate) fn encode_statements_into(out: &mut Vec<u8>, v: &Vec<Statement>, from: usize)
    requires
        from <= v@.len(),
    ensures
        final(out)@ == old(out)@ + enc_statements(statement_models(v@).skip(from as int)),
        forall|i: int| from <= i < v@.len() ==> wf_statement(#[trigger] v@[i]@),
    decreases v@.len() - from,
{
    let ghost models = statement_models(v@);
    if from < v.len() {
        v[from].encode_into(out);
        encode_statements_into(out, v, from + 1);
        proof {
            assert(models[from as int] == v@[from as int]@);
            assert(models.skip(from as int).drop_first() =~= models.skip(from as int + 1));
            assert(models.skip(from as int)[0] == models[from as int]);
            assert(out@ =~= old(out)@ + enc_statements(models.skip(from as int)));
        }
    } else {
        proof {
            assert(models.skip(from as int) =~= Seq::<StatementModel>::empty());
            assert(out@ =~= old(out)@ + enc_statements(models.skip(from as int)));
        }
    }
}

pub(crate) fn decode_u64(bytes: &[u8], pos: usize) -> (r: Option<(u64, usize)>)
    ensures
        match r {
            Option::Some(vp) => dec_u64(bytes@, pos as int) == Option::Some((vp.0, vp.1 as int))
                && pos < vp.1 <= bytes@.len(),
            Option::None => dec_u64(bytes@, pos as int) is None,
        },
{
    if pos <= bytes.len() && bytes.len() - pos >= 8 {
        let s = vstd::slice::slice_subrange(bytes, pos, pos + 8);
        Option::Some((vstd::bytes::u64_from_le_bytes(s), pos + 8))
    } else {
        Option::None
    }
}

pub(crate) fn decode_bytes(bytes: &[u8], pos: usize) -> (r: Option<(Vec<u8>, usize)>)
    ensures
        match r {
            Option::Some(vp) => dec_bytes(bytes@, pos as int) == Option::Some(
                (vp.0@, vp.1 as int),
            ) && pos < vp.1 <= bytes@.len(),
            Option::None => dec_bytes(bytes@, pos as int) is None,
        },
{
    match decode_u64(bytes, pos) {
        Option::Some((n, p)) => {
            if n <= (bytes.len() - p) as u64 {
                let nn = n as usize;
                let s = vstd::slice::slice_subrange(bytes, p, p + nn);
                Option::Some((vstd::slice::slice_to_vec(s), p + nn))
            } else {
                Option::None
            }
        },
        Option::None => Option::None,
    }
}

pub(crate) fn decode_str(bytes: &[u8], pos: usize) -> (r: Option<(String, usize)>)
    ensures
        match r {
            Option::Some(vp) => dec_str(bytes@, pos as int) == Option::Some((vp.0@, vp.1 as int))
                && pos < vp.1 <= bytes@.len(),
            Option::None => dec_str(bytes@, pos as int) is None,
        },
{
    match decode_bytes(bytes, pos) {
        Option::Some((b, p)) => {
            match string_from_utf8(b) {
                Option::Some(s) => Option::Some((s, p)),
                Option::None => Option::None,
            }
        },
        Option::None => Option::None,
    }
}

pub(crate) fn decode_effect(bytes: &[u8], pos: usize) -> (r: Option<(Effect, usize)>)
    ensures
        match r {
            Option::Some(vp) => dec_effect(bytes@, pos as int) == Option::Some(
                (vp.0, vp.1 as int),
            ) && pos < vp.1 <= bytes@.len(),
            Option::None => dec_effect(bytes@, pos as int) is None,
        },
{
    if pos < bytes.len() {
        let tag = *vstd::slice::slice_index_get(bytes, pos);
        if tag == 0u8 {
            Option::Some((Effect::Deny, pos + 1))
        } else if tag == 1u8 {
            Option::Some((Effect::Allow, pos + 1))
        } else {
            Option::None
        }
    } else {
        Option::None
    }
}

pub(crate) fn decode_sid(bytes: &[u8], pos: usize) -> (r: Option<(StatementIdentity, usize)>)
    ensures
        match r {
            Option::Some(vp) => dec_sid(bytes@, pos as int) == Option::Some(
                (vp.0@, vp.1 as int),
            ) && pos < vp.1 <= bytes@.len(),
            Option::None => dec_sid(bytes@, pos as int) is None,
        },
{
    if pos < bytes.len() {
        let tag = *vstd::slice::slice_index_get(bytes, pos);
        if tag == 0u8 {
            Option::Some((StatementIdentity::Any, pos + 1))
        } else if tag == 1u8 {
            match decode_bytes(bytes, pos + 1) {
                Option::Some((b, p)) => Option::Some(
                    (StatementIdentity::Identity(Identity::Principal(Principal::new(b))), p),
                ),
                Option::None => Option::None,
            }
        } else {
            Option::None
        }
    } else {
        Option::None
    }
}

pub(crate) fn decode_pattern(bytes: &[u8], pos: usize) -> (r: Option<(StatementResource, usize)>)
    ensures
        match r {
            Option::Some(vp) => dec_pattern(bytes@, pos as int) == Option::Some(
                (pattern_of(vp.0), vp.1 as int),
            ) && pos < vp.1 <= bytes@.len(),
            Option::None => dec_pattern(bytes@, pos as int) is None,
        },
    decreases bytes@.len() - pos, 0int,
{
    if pos >= bytes.len() {
        return Option::None;
    }
    let tag = *vstd::slice::slice_index_get(bytes, pos);
    if tag == 0u8 {
        match decode_str(bytes, pos + 1) {
            Option::Some((s, p)) => Option::Some((StatementResource::Resource(s), p)),
            Option::None => Option::None,
        }
    } else if tag == 1u8 {
        match decode_str(bytes, pos + 1) {
            Option::Some((s, p1)) => match decode_u64(bytes, p1) {
                Option::Some((n, p2)) => match decode_patterns(bytes, p2, n) {
                    Option::Some((cs, p3)) => Option::Some(
                        (StatementResource::Nested { node: s, next: cs }, p3),
                    ),
                    Option::None => Option::None,
                },
                Option::None => Option::None,
            },
            Option::None => Option::None,
        }
    } else {
        Option::None
    }
}

pub(crate) fn decode_patterns(bytes: &[u8], pos: usize, n: u64) -> (r: Option<
    (Vec<StatementResource>, usize),
>)
    requires
        pos <= bytes@.len(),
    ensures
        match r {
            Option::Some(vp) => dec_patterns(bytes@, pos as int, n as nat) == Option::Some(
                (patterns_of(vp.0@), vp.1 as int),
            ) && pos <= vp.1 <= bytes@.len(),
            Option::None => dec_patterns(bytes@, pos as int, n as nat) is None,
        },
    decreases bytes@.len() - pos, n as int,
{
    if n == 0 {
        let empty: Vec<StatementResource> = Vec::new();
        proof {
            assert(patterns_of(empty@) =~= Seq::<PatternModel>::empty());
        }
        Option::Some((empty, pos))
    } else {
        match decode_pattern(bytes, pos) {
            Option::Some((first, p1)) => match decode_patterns(bytes, p1, n - 1) {
                Option::Some((rest, p2)) => {
                    let mut rest = rest;
                    let ghost rest_view = rest@;
                    rest.insert(0, first);
                    proof {
                        assert(rest@ =~= seq![first] + rest_view);
                        assert(rest@.drop_first() =~= rest_view);
                        assert(patterns_of(rest@) =~= seq![pattern_of(first)] + patterns_of(
                            rest_view,
                        ));
                    }
                    Option::Some((rest, p2))
                },
                Option::None => Option::None,
            },
            Option::None => Option::None,
        }
    }
}

pub(crate) fn decode_sids(bytes: &[u8], pos: usize, n: u64) -> (r: Option<
    (Vec<StatementIdentity>, usize),
>)
    requires
        pos <= bytes@.len(),
    ensures
        match r {
            Option::Some(vp) => dec_sids(bytes@, pos as int, n as nat) == Option::Some(
                (sid_models(vp.0@), vp.1 as int),
            ) && pos <= vp.1 <= bytes@.len(),
            Option::None => dec_sids(bytes@, pos as int, n as nat) is None,
        },
    decreases n as int,
{
    if n == 0 {
        let empty: Vec<StatementIdentity> = Vec::new();
        proof {
            assert(sid_models(empty@) =~= Seq::<StatementIdentityModel>::empty());
        }
        Option::Some((empty, pos))
    } else {
        match decode_sid(bytes, pos) {
            Option::Some((first, p1)) => match decode_sids(bytes, p1, n - 1) {
                Option::Some((rest, p2)) => {
                    let mut rest = rest;
                    let ghost rest_view = rest@;
                    rest.insert(0, first);
                    proof {
                        assert(rest@ =~= seq![first] + rest_view);
                        assert(sid_models(rest@) =~= seq![first@] + sid_models(rest_view));
                    }
                    Option::Some((rest, p2))
                },
                Option::None => Option::None,
            },
            Option::None => Option::None,
        }
    }
}

pub(crate) fn decode_strs(bytes: &[u8], pos: usize, n: u64) -> (r: Option<(Vec<String>, usize)>)
    requires
        pos <= bytes@.len(),
    ensures
        match r {
            Option::Some(vp) => dec_strs(bytes@, pos as int, n as nat) == Option::Some(
                (str_models(vp.0@), vp.1 as int),
            ) && pos <= vp.1 <= bytes@.len(),
            Option::None => dec_strs(bytes@, pos as int, n as nat) is None,
        },
    decreases n as int,
{
    if n == 0 {
        let empty: Vec<String> = Vec::new();
        proof {
            assert(str_models(empty@) =~= Seq::<Seq<char>>::empty());
        }
        Option::Some((empty, pos))
    } else {
        match decode_str(bytes, pos) {
            Option::Some((first, p1)) => match decode_strs(bytes, p1, n - 1) {
                Option::Some((rest, p2)) => {
                    let mut rest = rest;
                    let ghost rest_view = rest@;
                    rest.insert(0, first);
                    proof {
                        assert(rest@ =~= seq![first] + rest_view);
                        assert(str_models(rest@) =~= seq![first@] + str_models(rest_view));
                    }
                    Option::Some((rest, p2))
                },
                Option::None => Option::None,
            },
            Option::None => Option::None,
        }
    }
}

pub(crate) fn decode_statement(bytes: &[u8], pos: usize) -> (r: Option<(Statement, usize)>)
    ensures
        match r {
            Option::Some(vp) => dec_statement(bytes@, pos as int) == Option::Some(
                (vp.0@, vp.1 as int),
            ) && pos < vp.1 <= bytes@.len(),
            Option::None => dec_statement(bytes@, pos as int) is None,
        },
{
    match decode_effect(bytes, pos) {
        Option::Some((e, p0)) => match decode_u64(bytes, p0) {
            Option::Some((n1, p1)) => match decode_sids(bytes, p1, n1) {
                Option::Some((ids, p2)) => match decode_u64(bytes, p2) {
                    Option::Some((n2, p3)) => match decode_strs(bytes, p3, n2) {
                        Option::Some((ops, p4)) => match decode_u64(bytes, p4) {
                            Option::Some((n3, p5)) => match decode_patterns(bytes, p5, n3) {
                                Option::Some((res, p6)) => Option::Some(
                                    (Statement::new(e, ids, ops, res), p6),
                                ),
                                Option::None => Option::None,
                            },
                            Option::None => Option::None,
                        },
                        Option::None => Option::None,
                    },
                    Option::None => Option::None,
                },
                Option::None => Option::None,
            },
            Option::None => Option::None,
        },
        Option::None => Option::None,
    }
}

pub(crate) fn decode_statements(bytes: &[u8], pos: usize, n: u64) -> (r: Option<
    (Vec<Statement>, usize),
>)
    requires
        pos <= bytes@.len(),
    ensures
        match r {
            Option::Some(vp) => dec_statements(bytes@, pos as int, n as nat) == Option::Some(
                (statement_models(vp.0@), vp.1 as int),
            ) && pos <= vp.1 <= bytes@.len(),
            Option::None => dec_statements(bytes@, pos as int, n as nat) is None,
        },
    decreases n as int,
{
    if n == 0 {
        let empty: Vec<Statement> = Vec::new();
        proof {
            assert(statement_models(empty@) =~= Seq::<StatementModel>::empty());
        }
        Option::Some((empty, pos))
    } else {
        match decode_statement(bytes, pos) {
            Option::Some((first, p1)) => match decode_statements(bytes, p1, n - 1) {
                Option::Some((rest, p2)) => {
                    let mut rest = rest;
                    let ghost rest_view = rest@;
                    rest.insert(0, first);
                    proof {
                        assert(rest@ =~= seq![first] + rest_view);
                        assert(statement_models(rest@) =~= seq![first@] + statement_models(rest_view));
                    }
                    Option::Some((rest, p2))
                },
                Option::None => Option::None,
            },
            Option::None => Option::None,
        }
    }
}

} // verus!
