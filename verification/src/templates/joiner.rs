use vstd::prelude::*;

use super::primitive::Token;

verus! {

pub type Crd = Token<u32, u32>;

/// Which merge a two-way joiner performs.
#[derive(Clone, Copy, Debug, PartialEq, Eq)]
pub enum JoinKind {
    Intersect,
    Union,
}

/// What a joiner does for one set of stream heads: which inputs it
/// consumes, what it emits (a coordinate and one reference per input),
/// whether it has finished, and whether the heads break its rules.
pub struct JoinStep<R> {
    pub adv1: bool,
    pub adv2: bool,
    pub out: Option<(Crd, Token<R, u32>, Token<R, u32>)>,
    pub finish: bool,
    pub fault: bool,
}

pub open spec fn js<R>(
    adv1: bool,
    adv2: bool,
    out: Option<(Crd, Token<R, u32>, Token<R, u32>)>,
    finish: bool,
) -> JoinStep<R> {
    JoinStep { adv1, adv2, out, finish, fault: false }
}

/// The intersection rule: equal coordinates are emitted with both
/// references, the smaller coordinate is skipped, a value facing a stop is
/// skipped, matching stops are passed on; unequal stop levels break the
/// rule; an empty marker facing a value, or a done token facing a value,
/// is emitted without consuming anything.
pub open spec fn intersect_rule<R>(c1: Crd, r1: Token<R, u32>, c2: Crd, r2: Token<R, u32>) -> JoinStep<R> {
    match (c1, c2) {
        (Token::Val(a), Token::Val(b)) => if a == b {
            js(true, true, Some((Token::Val(a), r1, r2)), false)
        } else if a < b {
            js(true, false, None, false)
        } else {
            js(false, true, None, false)
        },
        (Token::Val(_), Token::Stop(_)) => js(true, false, None, false),
        (Token::Stop(_), Token::Val(_)) => js(false, true, None, false),
        (Token::Val(_), Token::Done) => js(false, false, Some((Token::Done, Token::Done, Token::Done)), false),
        (Token::Done, Token::Val(_)) => js(false, false, Some((Token::Done, Token::Done, Token::Done)), false),
        (Token::Stop(s1), Token::Stop(s2)) => if s1 == s2 {
            js(true, true, Some((Token::Stop(s1), r1, r2)), false)
        } else {
            JoinStep { adv1: false, adv2: false, out: None, finish: false, fault: true }
        },
        (Token::Empty, Token::Val(_)) => js(false, false, Some((Token::Empty, Token::Empty, Token::Empty)), false),
        (Token::Val(_), Token::Empty) => js(false, false, Some((Token::Empty, Token::Empty, Token::Empty)), false),
        (Token::Done, Token::Done) => js(false, false, Some((Token::Done, Token::Done, Token::Done)), true),
        _ => js(false, false, None, false),
    }
}

/// The union rule: every coordinate of either input is emitted, with the
/// reference of each side that holds it and an empty marker for the side
/// that does not; stops are passed on when both sides stop; a done token on
/// either side (facing a value, a done token or an empty marker) ends the
/// merge.  When both heads are values and the first is larger, the first
/// coordinate is emitted with the second side's reference.
pub open spec fn union_rule<R>(c1: Crd, r1: Token<R, u32>, c2: Crd, r2: Token<R, u32>) -> JoinStep<R> {
    let done = Some((Token::Done, Token::Done, Token::Done));
    match (c1, c2) {
        (Token::Val(a), Token::Val(b)) => if a == b {
            js(true, true, Some((Token::Val(a), r1, r2)), false)
        } else if a < b {
            js(true, false, Some((Token::Val(a), r1, Token::Empty)), false)
        } else {
            js(false, true, Some((Token::Val(a), Token::Empty, r2)), false)
        },
        (Token::Val(a), Token::Stop(_)) => js(true, false, Some((Token::Val(a), r1, Token::Empty)), false),
        (Token::Val(a), Token::Empty) => js(true, false, Some((Token::Val(a), r1, Token::Empty)), false),
        (Token::Val(_), Token::Done) => js(false, false, done, true),
        (Token::Done, Token::Val(_)) => js(false, false, done, true),
        (Token::Done, Token::Done) => js(false, false, done, true),
        (Token::Done, Token::Empty) => js(false, false, done, true),
        (Token::Empty, Token::Done) => js(false, false, done, true),
        (Token::Stop(_), Token::Val(b)) => js(false, true, Some((Token::Val(b), Token::Empty, r2)), false),
        (Token::Empty, Token::Val(b)) => js(false, true, Some((Token::Val(b), Token::Empty, r2)), false),
        (Token::Stop(s1), Token::Stop(_)) => js(true, true, Some((Token::Stop(s1), r1, r2)), false),
        (Token::Stop(_), Token::Empty) => js(false, true, None, false),
        (Token::Empty, Token::Stop(_)) => js(true, false, None, false),
        _ => js(false, false, None, false),
    }
}

#[verifier::opaque]
pub open spec fn join_rule<R>(kind: JoinKind, c1: Crd, r1: Token<R, u32>, c2: Crd, r2: Token<R, u32>) -> JoinStep<R> {
    match kind {
        JoinKind::Intersect => intersect_rule(c1, r1, c2, r2),
        JoinKind::Union => union_rule(c1, r1, c2, r2),
    }
}

/// Decides what a two-way joiner does for the given stream heads.
pub fn join_decide<R: Copy>(kind: JoinKind, c1: Crd, r1: Token<R, u32>, c2: Crd, r2: Token<R, u32>) -> (r: JoinStep<R>)
    ensures
        r == join_rule(kind, c1, r1, c2, r2),
{
    reveal(join_rule);
    let done = Some((Token::Done, Token::Done, Token::Done));
    match kind {
        JoinKind::Intersect => match (c1, c2) {
            (Token::Val(a), Token::Val(b)) => if a == b {
                JoinStep { adv1: true, adv2: true, out: Some((Token::Val(a), r1, r2)), finish: false, fault: false }
            } else if a < b {
                JoinStep { adv1: true, adv2: false, out: None, finish: false, fault: false }
            } else {
                JoinStep { adv1: false, adv2: true, out: None, finish: false, fault: false }
            },
            (Token::Val(_), Token::Stop(_)) => JoinStep { adv1: true, adv2: false, out: None, finish: false, fault: false },
            (Token::Stop(_), Token::Val(_)) => JoinStep { adv1: false, adv2: true, out: None, finish: false, fault: false },
            (Token::Val(_), Token::Done) | (Token::Done, Token::Val(_)) => JoinStep {
                adv1: false,
                adv2: false,
                out: done,
                finish: false,
                fault: false,
            },
            (Token::Stop(s1), Token::Stop(s2)) => if s1 == s2 {
                JoinStep { adv1: true, adv2: true, out: Some((Token::Stop(s1), r1, r2)), finish: false, fault: false }
            } else {
                JoinStep { adv1: false, adv2: false, out: None, finish: false, fault: true }
            },
            (Token::Empty, Token::Val(_)) | (Token::Val(_), Token::Empty) => JoinStep {
                adv1: false,
                adv2: false,
                out: Some((Token::Empty, Token::Empty, Token::Empty)),
                finish: false,
                fault: false,
            },
            (Token::Done, Token::Done) => JoinStep { adv1: false, adv2: false, out: done, finish: true, fault: false },
            _ => JoinStep { adv1: false, adv2: false, out: None, finish: false, fault: false },
        },
        JoinKind::Union => match (c1, c2) {
            (Token::Val(a), Token::Val(b)) => if a == b {
                JoinStep { adv1: true, adv2: true, out: Some((Token::Val(a), r1, r2)), finish: false, fault: false }
            } else if a < b {
                JoinStep {
                    adv1: true,
                    adv2: false,
                    out: Some((Token::Val(a), r1, Token::Empty)),
                    finish: false,
                    fault: false,
                }
            } else {
                JoinStep {
                    adv1: false,
                    adv2: true,
                    out: Some((Token::Val(a), Token::Empty, r2)),
                    finish: false,
                    fault: false,
                }
            },
            (Token::Val(a), Token::Stop(_)) | (Token::Val(a), Token::Empty) => JoinStep {
                adv1: true,
                adv2: false,
                out: Some((Token::Val(a), r1, Token::Empty)),
                finish: false,
                fault: false,
            },
            (Token::Val(_), Token::Done) | (Token::Done, Token::Val(_)) | (Token::Done, Token::Done) | (
                Token::Done,
                Token::Empty,
            ) | (Token::Empty, Token::Done) => JoinStep {
                adv1: false,
                adv2: false,
                out: done,
                finish: true,
                fault: false,
            },
            (Token::Stop(_), Token::Val(b)) | (Token::Empty, Token::Val(b)) => JoinStep {
                adv1: false,
                adv2: true,
                out: Some((Token::Val(b), Token::Empty, r2)),
                finish: false,
                fault: false,
            },
            (Token::Stop(s1), Token::Stop(_)) => JoinStep {
                adv1: true,
                adv2: true,
                out: Some((Token::Stop(s1), r1, r2)),
                finish: false,
                fault: false,
            },
            (Token::Stop(_), Token::Empty) => JoinStep { adv1: false, adv2: true, out: None, finish: false, fault: false },
            (Token::Empty, Token::Stop(_)) => JoinStep { adv1: true, adv2: false, out: None, finish: false, fault: false },
            _ => JoinStep { adv1: false, adv2: false, out: None, finish: false, fault: false },
        },
    }
}

} // verus!

verus! {

/// How a joiner's run over whole streams ended.
#[derive(Clone, Copy, Debug, PartialEq, Eq)]
pub enum JoinStatus {
    /// The done tokens were merged.
    Finished,
    /// The heads admit no progress; the joiner would wait forever.
    Stalled,
    /// The heads break the joiner's rules (unequal stop levels); only the
    /// general `join_streams` gives this answer.
    Fault,
    /// An input stream ended before the done token.
    Exhausted,
}

pub open spec fn out_crds<R>(o: Option<(Crd, Token<R, u32>, Token<R, u32>)>) -> Seq<Crd> {
    match o {
        Some(x) => seq![x.0],
        None => seq![],
    }
}

pub open spec fn out_refs1<R>(o: Option<(Crd, Token<R, u32>, Token<R, u32>)>) -> Seq<Token<R, u32>> {
    match o {
        Some(x) => seq![x.1],
        None => seq![],
    }
}

pub open spec fn out_refs2<R>(o: Option<(Crd, Token<R, u32>, Token<R, u32>)>) -> Seq<Token<R, u32>> {
    match o {
        Some(x) => seq![x.2],
        None => seq![],
    }
}

pub open spec fn heads_ready<R>(c1: Seq<Crd>, r1: Seq<Token<R, u32>>, c2: Seq<Crd>, r2: Seq<Token<R, u32>>, i1: nat, i2: nat) -> bool {
    i1 < c1.len() && i1 < r1.len() && i2 < c2.len() && i2 < r2.len()
}

/// A two-way joiner on whole streams, from positions `i1` and `i2`: the
/// coordinate and reference streams it emits and how it ends.
#[verifier::opaque]
pub open spec fn join_run<R>(
    kind: JoinKind,
    c1: Seq<Crd>,
    r1: Seq<Token<R, u32>>,
    c2: Seq<Crd>,
    r2: Seq<Token<R, u32>>,
    i1: nat,
    i2: nat,
) -> (Seq<Crd>, Seq<Token<R, u32>>, Seq<Token<R, u32>>, JoinStatus)
    decreases (c1.len() - i1) + (c2.len() - i2),
{
    if !heads_ready(c1, r1, c2, r2, i1, i2) {
        (seq![], seq![], seq![], JoinStatus::Exhausted)
    } else {
        let st = join_rule(kind, c1[i1 as int], r1[i1 as int], c2[i2 as int], r2[i2 as int]);
        let oc = out_crds(st.out);
        let o1 = out_refs1(st.out);
        let o2 = out_refs2(st.out);
        if st.fault {
            (seq![], seq![], seq![], JoinStatus::Fault)
        } else if st.finish {
            (oc, o1, o2, JoinStatus::Finished)
        } else if !st.adv1 && !st.adv2 {
            (oc, o1, o2, JoinStatus::Stalled)
        } else {
            let n1 = if st.adv1 { i1 + 1 } else { i1 };
            let n2 = if st.adv2 { i2 + 1 } else { i2 };
            let (rc, rr1, rr2, status) = join_run(kind, c1, r1, c2, r2, n1, n2);
            (oc + rc, o1 + rr1, o2 + rr2, status)
        }
    }
}

/// One step of `join_run`, spelled out.
proof fn lemma_join_run_unfold<R>(
    kind: JoinKind,
    c1: Seq<Crd>,
    r1: Seq<Token<R, u32>>,
    c2: Seq<Crd>,
    r2: Seq<Token<R, u32>>,
    i1: nat,
    i2: nat,
)
    ensures
        !heads_ready(c1, r1, c2, r2, i1, i2) ==> join_run(kind, c1, r1, c2, r2, i1, i2) == (
            Seq::<Crd>::empty(),
            Seq::<Token<R, u32>>::empty(),
            Seq::<Token<R, u32>>::empty(),
            JoinStatus::Exhausted,
        ),
        heads_ready(c1, r1, c2, r2, i1, i2) ==> ({
            let st = join_rule(kind, c1[i1 as int], r1[i1 as int], c2[i2 as int], r2[i2 as int]);
            let oc = out_crds(st.out);
            let o1 = out_refs1(st.out);
            let o2 = out_refs2(st.out);
            join_run(kind, c1, r1, c2, r2, i1, i2) == if st.fault {
                (Seq::<Crd>::empty(), Seq::<Token<R, u32>>::empty(), Seq::<Token<R, u32>>::empty(), JoinStatus::Fault)
            } else if st.finish {
                (oc, o1, o2, JoinStatus::Finished)
            } else if !st.adv1 && !st.adv2 {
                (oc, o1, o2, JoinStatus::Stalled)
            } else {
                let n1 = if st.adv1 { i1 + 1 } else { i1 };
                let n2 = if st.adv2 { i2 + 1 } else { i2 };
                let (rc, rr1, rr2, status) = join_run(kind, c1, r1, c2, r2, n1, n2);
                (oc + rc, o1 + rr1, o2 + rr2, status)
            }
        }),
{
    reveal(join_run);
}

/// Runs a two-way joiner over whole input streams (each reference stream
/// aligned with its coordinate stream) until it finishes, stalls, faults or
/// runs out of input.
pub fn join_streams<R: Copy>(
    kind: JoinKind,
    in_crd1: &Vec<Crd>,
    in_ref1: &Vec<Token<R, u32>>,
    in_crd2: &Vec<Crd>,
    in_ref2: &Vec<Token<R, u32>>,
) -> (r: (Vec<Crd>, Vec<Token<R, u32>>, Vec<Token<R, u32>>, JoinStatus))
    ensures
        (r.0@, r.1@, r.2@, r.3) == join_run(kind, in_crd1@, in_ref1@, in_crd2@, in_ref2@, 0, 0),
{
    let mut out_crd: Vec<Crd> = Vec::new();
    let mut out_ref1: Vec<Token<R, u32>> = Vec::new();
    let mut out_ref2: Vec<Token<R, u32>> = Vec::new();
    let ghost total = join_run(kind, in_crd1@, in_ref1@, in_crd2@, in_ref2@, 0, 0);
    let mut i1: usize = 0;
    let mut i2: usize = 0;
    loop
        invariant
            i1 <= in_crd1@.len(),
            i2 <= in_crd2@.len(),
            total == join_run(kind, in_crd1@, in_ref1@, in_crd2@, in_ref2@, 0, 0),
            ({
                let (rc, rr1, rr2, st) = join_run(kind, in_crd1@, in_ref1@, in_crd2@, in_ref2@, i1 as nat, i2 as nat);
                total.0 == out_crd@ + rc && total.1 == out_ref1@ + rr1 && total.2 == out_ref2@ + rr2 && total.3 == st
            }),
        decreases (in_crd1@.len() - i1) + (in_crd2@.len() - i2),
    {
        let ghost oc = out_crd@;
        let ghost o1 = out_ref1@;
        let ghost o2 = out_ref2@;
        proof {
            lemma_join_run_unfold(kind, in_crd1@, in_ref1@, in_crd2@, in_ref2@, i1 as nat, i2 as nat);
        }
        if !(i1 < in_crd1.len() && i1 < in_ref1.len() && i2 < in_crd2.len() && i2 < in_ref2.len()) {
            assert(total.0 =~= out_crd@);
            assert(total.1 =~= out_ref1@);
            assert(total.2 =~= out_ref2@);
            return (out_crd, out_ref1, out_ref2, JoinStatus::Exhausted);
        }
        let st = join_decide(kind, in_crd1[i1], in_ref1[i1], in_crd2[i2], in_ref2[i2]);
        if st.fault {
            assert(total.0 =~= out_crd@);
            assert(total.1 =~= out_ref1@);
            assert(total.2 =~= out_ref2@);
            return (out_crd, out_ref1, out_ref2, JoinStatus::Fault);
        }
        match st.out {
            Some((c, a, b)) => {
                out_crd.push(c);
                out_ref1.push(a);
                out_ref2.push(b);
            },
            None => {},
        }
        let ghost step_c = out_crds(st.out);
        let ghost step_1 = out_refs1(st.out);
        let ghost step_2 = out_refs2(st.out);
        assert(out_crd@ =~= oc + step_c);
        assert(out_ref1@ =~= o1 + step_1);
        assert(out_ref2@ =~= o2 + step_2);
        if st.finish {
            assert(total.0 =~= out_crd@);
            assert(total.1 =~= out_ref1@);
            assert(total.2 =~= out_ref2@);
            return (out_crd, out_ref1, out_ref2, JoinStatus::Finished);
        }
        if !st.adv1 && !st.adv2 {
            return (out_crd, out_ref1, out_ref2, JoinStatus::Stalled);
        }
        if st.adv1 {
            i1 = i1 + 1;
        }
        if st.adv2 {
            i2 = i2 + 1;
        }
        proof {
            let (rc, rr1, rr2, s) = join_run(kind, in_crd1@, in_ref1@, in_crd2@, in_ref2@, i1 as nat, i2 as nat);
            assert(oc + (step_c + rc) =~= (oc + step_c) + rc);
            assert(o1 + (step_1 + rr1) =~= (o1 + step_1) + rr1);
            assert(o2 + (step_2 + rr2) =~= (o2 + step_2) + rr2);
        }
    }
}

} // verus!

verus! {

/// `c` with reference `r` stands at some position of the paired streams.
pub open spec fn found_in<R>(cs: Seq<Crd>, rs: Seq<Token<R, u32>>, c: Crd, r: Token<R, u32>) -> bool {
    exists|p: int| 0 <= p < cs.len() && p < rs.len() && cs[p] == c && rs[p] == r
}

/// Every emitted coordinate payload stands in both inputs, each time at the
/// position of the reference emitted beside it.
pub open spec fn intersect_outputs_found<R>(
    oc: Seq<Crd>,
    o1: Seq<Token<R, u32>>,
    o2: Seq<Token<R, u32>>,
    c1: Seq<Crd>,
    r1: Seq<Token<R, u32>>,
    c2: Seq<Crd>,
    r2: Seq<Token<R, u32>>,
) -> bool {
    &&& oc.len() == o1.len() && oc.len() == o2.len()
    &&& forall|k: int|
        0 <= k < oc.len() && (#[trigger] oc[k]) is Val ==> found_in(c1, r1, oc[k], o1[k]) && found_in(c2, r2, oc[k], o2[k])
}

/// Every emitted coordinate payload whose first reference is not an empty
/// marker stands in the first input at the position of that reference.
pub open spec fn union_first_found<R>(
    oc: Seq<Crd>,
    o1: Seq<Token<R, u32>>,
    o2: Seq<Token<R, u32>>,
    c1: Seq<Crd>,
    r1: Seq<Token<R, u32>>,
) -> bool {
    &&& oc.len() == o1.len() && oc.len() == o2.len()
    &&& forall|k: int|
        0 <= k < oc.len() && (#[trigger] oc[k]) is Val && !(o1[k] is Empty) ==> found_in(c1, r1, oc[k], o1[k])
}

/// The number of stop tokens in `s` from position `i` up to, not including,
/// position `j`: which fiber position `j` lies in, counted from `i`.
pub open spec fn stops_between(s: Seq<Crd>, i: int, j: int) -> nat
    decreases j - i,
{
    if i >= j {
        0
    } else {
        (if s[i] is Stop { 1nat } else { 0nat }) + stops_between(s, i + 1, j)
    }
}

/// Within each fiber (between two stop tokens) the coordinate payloads of
/// `s` strictly increase.
pub open spec fn fibers_sorted(s: Seq<Crd>) -> bool {
    forall|a: int, b: int|
        0 <= a < b < s.len() && (#[trigger] s[a]) is Val && (#[trigger] s[b]) is Val && stops_between(s, a, b) == 0
            ==> s[a]->Val_0 < s[b]->Val_0
}

/// No done token stands in `s` from position `i` up to, not including, `j`.
pub open spec fn no_done_between(s: Seq<Crd>, i: int, j: int) -> bool {
    forall|m: int| i <= m < j ==> !(#[trigger] s[m] is Done)
}

/// Position `k` of the output streams holds coordinate `c` with references
/// `a` and `b`, in the output's fiber number `f`.
pub open spec fn emitted_in_fiber<R>(
    oc: Seq<Crd>,
    o1: Seq<Token<R, u32>>,
    o2: Seq<Token<R, u32>>,
    k: int,
    c: Crd,
    a: Token<R, u32>,
    b: Token<R, u32>,
    f: nat,
) -> bool {
    &&& 0 <= k < oc.len() && k < o1.len() && k < o2.len()
    &&& oc[k] == c && o1[k] == a && o2[k] == b
    &&& stops_between(oc, 0, k) == f
}

/// Counting stops is unchanged by shifting a stretch of tokens to other
/// positions.
proof fn lemma_stops_shift(s: Seq<Crd>, t: Seq<Crd>, d: int, a: int, b: int)
    requires
        0 <= a,
        b <= t.len(),
        forall|m: int| a <= m < b ==> s[m + d] == t[m],
    ensures
        stops_between(s, a + d, b + d) == stops_between(t, a, b),
    decreases b - a,
{
    if a < b {
        lemma_stops_shift(s, t, d, a + 1, b);
        assert(s[a + d] == t[a]);
        assert(stops_between(s, a + d, b + d) == (if s[a + d] is Stop { 1nat } else { 0nat }) + stops_between(
            s,
            (a + 1) + d,
            b + d,
        ));
    }
}

/// The stops before position `p.len() + k` of `p + q`, for a prefix `p` of
/// at most one token, are those of `p` and those before position `k` of `q`.
proof fn lemma_stops_after_prefix(p: Seq<Crd>, q: Seq<Crd>, k: int)
    requires
        p.len() <= 1,
        0 <= k <= q.len(),
    ensures
        stops_between(p + q, 0, p.len() + k) == stops_between(p, 0, p.len() as int) + stops_between(q, 0, k),
{
    if p.len() == 0 {
        assert(p + q =~= q);
    } else {
        lemma_stops_shift(p + q, q, 1, 0, k);
        assert((p + q)[0] == p[0]);
        assert(stops_between(p, 1, 1) == 0);
    }
}

/// Law: an intersection emits a coordinate only where both inputs hold it,
/// and passes on the references found at those positions.
pub proof fn lemma_intersect_outputs_found<R>(
    c1: Seq<Crd>,
    r1: Seq<Token<R, u32>>,
    c2: Seq<Crd>,
    r2: Seq<Token<R, u32>>,
    i1: nat,
    i2: nat,
)
    ensures
        ({
            let (oc, o1, o2, st) = join_run(JoinKind::Intersect, c1, r1, c2, r2, i1, i2);
            intersect_outputs_found(oc, o1, o2, c1, r1, c2, r2)
        }),
    decreases (c1.len() - i1) + (c2.len() - i2),
{
    lemma_join_run_unfold(JoinKind::Intersect, c1, r1, c2, r2, i1, i2);
    if heads_ready(c1, r1, c2, r2, i1, i2) {
        let st = join_rule(JoinKind::Intersect, c1[i1 as int], r1[i1 as int], c2[i2 as int], r2[i2 as int]);
        reveal(join_rule);
        let oc = out_crds(st.out);
        let o1 = out_refs1(st.out);
        let o2 = out_refs2(st.out);
        assert(intersect_outputs_found(oc, o1, o2, c1, r1, c2, r2)) by {
            if st.out is Some && st.out.unwrap().0 is Val {
                let (oa, ob, od) = st.out.unwrap();
                assert(c1[i1 as int] == oa && r1[i1 as int] == ob);
                assert(c2[i2 as int] == oa && r2[i2 as int] == od);
                assert(oc[0] == oa);
                assert(found_in(c1, r1, oc[0], o1[0]));
                assert(found_in(c2, r2, oc[0], o2[0]));
            }
        }
        if !st.fault && !st.finish && (st.adv1 || st.adv2) {
            let n1 = if st.adv1 { i1 + 1 } else { i1 };
            let n2 = if st.adv2 { i2 + 1 } else { i2 };
            lemma_intersect_outputs_found(c1, r1, c2, r2, n1, n2);
            let (rc, rr1, rr2, status) = join_run(JoinKind::Intersect, c1, r1, c2, r2, n1, n2);
            let ac = oc + rc;
            let a1 = o1 + rr1;
            let a2 = o2 + rr2;
            assert forall|k: int| 0 <= k < ac.len() && (#[trigger] ac[k]) is Val implies found_in(c1, r1, ac[k], a1[k])
                && found_in(c2, r2, ac[k], a2[k]) by {
                if k < oc.len() {
                    assert(ac[k] == oc[k] && a1[k] == o1[k] && a2[k] == o2[k]);
                } else {
                    let j = k - oc.len();
                    assert(ac[k] == rc[j] && a1[k] == rr1[j] && a2[k] == rr2[j]);
                }
            }
        }
    }
}

/// Law: in a union, a coordinate emitted with a first-side reference stands
/// in the first input at that reference's position.
pub proof fn lemma_union_first_found<R>(
    c1: Seq<Crd>,
    r1: Seq<Token<R, u32>>,
    c2: Seq<Crd>,
    r2: Seq<Token<R, u32>>,
    i1: nat,
    i2: nat,
)
    ensures
        ({
            let (oc, o1, o2, st) = join_run(JoinKind::Union, c1, r1, c2, r2, i1, i2);
            union_first_found(oc, o1, o2, c1, r1)
        }),
    decreases (c1.len() - i1) + (c2.len() - i2),
{
    lemma_join_run_unfold(JoinKind::Union, c1, r1, c2, r2, i1, i2);
    if heads_ready(c1, r1, c2, r2, i1, i2) {
        let st = join_rule(JoinKind::Union, c1[i1 as int], r1[i1 as int], c2[i2 as int], r2[i2 as int]);
        reveal(join_rule);
        let oc = out_crds(st.out);
        let o1 = out_refs1(st.out);
        let o2 = out_refs2(st.out);
        assert(union_first_found(oc, o1, o2, c1, r1)) by {
            if st.out is Some && st.out.unwrap().0 is Val && !(st.out.unwrap().1 is Empty) {
                let (oa, ob, od) = st.out.unwrap();
                assert(c1[i1 as int] == oa && r1[i1 as int] == ob);
                assert(oc[0] == oa);
                assert(found_in(c1, r1, oc[0], o1[0]));
            }
        }
        if !st.fault && !st.finish && (st.adv1 || st.adv2) {
            let n1 = if st.adv1 { i1 + 1 } else { i1 };
            let n2 = if st.adv2 { i2 + 1 } else { i2 };
            lemma_union_first_found(c1, r1, c2, r2, n1, n2);
            let (rc, rr1, rr2, status) = join_run(JoinKind::Union, c1, r1, c2, r2, n1, n2);
            let ac = oc + rc;
            let a1 = o1 + rr1;
            let a2 = o2 + rr2;
            assert forall|k: int| 0 <= k < ac.len() && (#[trigger] ac[k]) is Val && !(a1[k] is Empty) implies found_in(
                c1,
                r1,
                ac[k],
                a1[k],
            ) by {
                if k < oc.len() {
                    assert(ac[k] == oc[k] && a1[k] == o1[k]);
                } else {
                    let j = k - oc.len();
                    assert(ac[k] == rc[j] && a1[k] == rr1[j]);
                }
            }
        }
    }
}

/// Law: an intersection of fibers with sorted coordinates loses nothing that
/// both inputs hold.  A coordinate payload at position `i` of the first
/// input and at position `j` of the second, in the same fiber of each (as
/// many stops before it, counted from where the run starts) and ahead of
/// the first input's done token, is emitted with the references found at
/// those positions, in that fiber of the output, whenever the run finishes.
pub proof fn lemma_intersect_complete<R>(
    c1: Seq<Crd>,
    r1: Seq<Token<R, u32>>,
    c2: Seq<Crd>,
    r2: Seq<Token<R, u32>>,
    i1: nat,
    i2: nat,
    i: int,
    j: int,
)
    requires
        fibers_sorted(c1),
        fibers_sorted(c2),
        i1 <= i < c1.len(),
        i2 <= j < c2.len(),
        c1[i] is Val,
        c2[j] == c1[i],
        stops_between(c1, i1 as int, i) == stops_between(c2, i2 as int, j),
        no_done_between(c1, i1 as int, i),
        join_run(JoinKind::Intersect, c1, r1, c2, r2, i1, i2).3 is Finished,
    ensures
        ({
            let (oc, o1, o2, st) = join_run(JoinKind::Intersect, c1, r1, c2, r2, i1, i2);
            exists|k: int| #[trigger]
                emitted_in_fiber(oc, o1, o2, k, c1[i], r1[i], r2[j], stops_between(c1, i1 as int, i))
        }),
    decreases (c1.len() - i1) + (c2.len() - i2),
{
    let run = join_run(JoinKind::Intersect, c1, r1, c2, r2, i1, i2);
    lemma_join_run_unfold(JoinKind::Intersect, c1, r1, c2, r2, i1, i2);
    reveal(join_rule);
    assert(heads_ready(c1, r1, c2, r2, i1, i2));
    let h1 = c1[i1 as int];
    let h2 = c2[i2 as int];
    let st = join_rule(JoinKind::Intersect, h1, r1[i1 as int], h2, r2[i2 as int]);
    let oc = out_crds(st.out);
    let o1 = out_refs1(st.out);
    let o2 = out_refs2(st.out);
    let f = stops_between(c1, i1 as int, i);
    if h1 is Done {
        assert(i1 < i);
        assert(!(c1[i1 as int] is Done));
    }
    assert(!st.fault && !st.finish && (st.adv1 || st.adv2));
    let n1: nat = if st.adv1 { i1 + 1 } else { i1 };
    let n2: nat = if st.adv2 { i2 + 1 } else { i2 };
    let (rc, rr1, rr2, s2) = join_run(JoinKind::Intersect, c1, r1, c2, r2, n1, n2);
    assert(run == (oc + rc, o1 + rr1, o2 + rr2, s2));
    if i1 == i && i2 == j {
        assert(st.out == Some((c1[i], r1[i], r2[j])));
        assert(emitted_in_fiber(run.0, run.1, run.2, 0, c1[i], r1[i], r2[j], f));
    } else {
        if h1 is Val && h2 is Val {
            if i1 == i {
                assert(stops_between(c2, i2 as int, j) == 0);
                assert(h2->Val_0 < c2[j]->Val_0);
            } else if i2 == j {
                assert(stops_between(c1, i1 as int, i) == 0);
                assert(h1->Val_0 < c1[i]->Val_0);
            }
        }
        if i1 == i && h2 is Stop {
            assert(stops_between(c2, i2 as int, j) >= 1);
        }
        if i2 == j && h1 is Stop {
            assert(stops_between(c1, i1 as int, i) >= 1);
        }
        assert(n1 <= i && n2 <= j);
        assert(stops_between(c1, n1 as int, i) == stops_between(c2, n2 as int, j));
        assert(oc.len() <= 1);
        assert(f == (if h1 is Stop { 1nat } else { 0nat }) + stops_between(c1, i1 as int + 1, i));
        if oc.len() == 1 {
            assert(stops_between(oc, 0, 1) == (if oc[0] is Stop { 1nat } else { 0nat }) + stops_between(oc, 1, 1));
        }
        assert(stops_between(oc, 0, oc.len() as int) + stops_between(c1, n1 as int, i) == f);
        assert(no_done_between(c1, n1 as int, i));
        lemma_intersect_complete(c1, r1, c2, r2, n1, n2, i, j);
        let fr = stops_between(c1, n1 as int, i);
        let k2 = choose|k: int| #[trigger] emitted_in_fiber(rc, rr1, rr2, k, c1[i], r1[i], r2[j], fr);
        assert(emitted_in_fiber(rc, rr1, rr2, k2, c1[i], r1[i], r2[j], fr));
        lemma_stops_after_prefix(oc, rc, k2);
        let k = oc.len() + k2;
        assert((oc + rc)[k] == rc[k2]);
        assert((o1 + rr1)[k] == rr1[k2]);
        assert((o2 + rr2)[k] == rr2[k2]);
        assert(emitted_in_fiber(run.0, run.1, run.2, k, c1[i], r1[i], r2[j], f));
    }
}

/// Every emitted coordinate payload whose second reference is not an empty
/// marker has that reference beside a payload of the second input no larger
/// than it (equal, unless the first input's head was the larger one).
pub open spec fn union_second_found<R>(
    oc: Seq<Crd>,
    o1: Seq<Token<R, u32>>,
    o2: Seq<Token<R, u32>>,
    c2: Seq<Crd>,
    r2: Seq<Token<R, u32>>,
) -> bool {
    &&& oc.len() == o1.len() && oc.len() == o2.len()
    &&& forall|k: int|
        0 <= k < oc.len() && (#[trigger] oc[k]) is Val && !(o2[k] is Empty) ==> exists|p: int|
            0 <= p < c2.len() && p < r2.len() && (#[trigger] c2[p]) is Val && c2[p]->Val_0 <= oc[k]->Val_0 && r2[p]
                == o2[k]
}

/// Law: in a union, a coordinate emitted with a second-side reference stands
/// beside that reference's payload in the second input, or above it.
pub proof fn lemma_union_second_found<R>(
    c1: Seq<Crd>,
    r1: Seq<Token<R, u32>>,
    c2: Seq<Crd>,
    r2: Seq<Token<R, u32>>,
    i1: nat,
    i2: nat,
)
    ensures
        ({
            let (oc, o1, o2, st) = join_run(JoinKind::Union, c1, r1, c2, r2, i1, i2);
            union_second_found(oc, o1, o2, c2, r2)
        }),
    decreases (c1.len() - i1) + (c2.len() - i2),
{
    lemma_join_run_unfold(JoinKind::Union, c1, r1, c2, r2, i1, i2);
    if heads_ready(c1, r1, c2, r2, i1, i2) {
        let st = join_rule(JoinKind::Union, c1[i1 as int], r1[i1 as int], c2[i2 as int], r2[i2 as int]);
        reveal(join_rule);
        let oc = out_crds(st.out);
        let o1 = out_refs1(st.out);
        let o2 = out_refs2(st.out);
        assert(union_second_found(oc, o1, o2, c2, r2)) by {
            if st.out is Some && st.out.unwrap().0 is Val && !(st.out.unwrap().2 is Empty) {
                let (oa, ob, od) = st.out.unwrap();
                assert(c2[i2 as int] is Val && c2[i2 as int]->Val_0 <= oa->Val_0 && r2[i2 as int] == od);
                assert(oc[0] == oa && o2[0] == od);
            }
        }
        if !st.fault && !st.finish && (st.adv1 || st.adv2) {
            let n1 = if st.adv1 { i1 + 1 } else { i1 };
            let n2 = if st.adv2 { i2 + 1 } else { i2 };
            lemma_union_second_found(c1, r1, c2, r2, n1, n2);
            let (rc, rr1, rr2, status) = join_run(JoinKind::Union, c1, r1, c2, r2, n1, n2);
            let ac = oc + rc;
            let a1 = o1 + rr1;
            let a2 = o2 + rr2;
            assert forall|k: int| 0 <= k < ac.len() && (#[trigger] ac[k]) is Val && !(a2[k] is Empty) implies exists|
                p: int,
            |
                0 <= p < c2.len() && p < r2.len() && (#[trigger] c2[p]) is Val && c2[p]->Val_0 <= ac[k]->Val_0
                    && r2[p] == a2[k] by {
                if k < oc.len() {
                    assert(ac[k] == oc[k] && a2[k] == o2[k]);
                } else {
                    let j = k - oc.len();
                    assert(ac[k] == rc[j] && a2[k] == rr2[j]);
                }
            }
        }
    }
}

/// Position `k` of a union's output holds coordinate `c` with first-side
/// reference `a`, in the output's fiber number `f`.
pub open spec fn union_emits_first<R>(
    oc: Seq<Crd>,
    o1: Seq<Token<R, u32>>,
    k: int,
    c: Crd,
    a: Token<R, u32>,
    f: nat,
) -> bool {
    &&& 0 <= k < oc.len() && k < o1.len()
    &&& oc[k] == c && o1[k] == a
    &&& stops_between(oc, 0, k) == f
}

/// Position `k` of a union's output holds second-side reference `b`, in the
/// output's fiber number `f`, beside the second input's coordinate payload
/// `c`, or beside a larger payload of the first input with an empty
/// first-side reference (the first input's head was the larger one).
pub open spec fn union_emits_second<R>(
    oc: Seq<Crd>,
    o1: Seq<Token<R, u32>>,
    o2: Seq<Token<R, u32>>,
    k: int,
    c: Crd,
    b: Token<R, u32>,
    f: nat,
) -> bool {
    &&& 0 <= k < oc.len() && k < o1.len() && k < o2.len()
    &&& o2[k] == b && oc[k] is Val
    &&& (oc[k] == c || (oc[k]->Val_0 > c->Val_0 && o1[k] is Empty))
    &&& stops_between(oc, 0, k) == f
}

/// Law: a union loses no coordinate of its first input.  A coordinate
/// payload at position `i` of the first input, ahead of its done token, is
/// emitted with its reference, in the same fiber of the output, whenever the
/// run finishes and the second input closes that fiber (it has a stop token
/// at `m2`, ahead of its done token, with as many stops before it as `i`
/// has, counted from where the run starts).
pub proof fn lemma_union_keeps_first<R>(
    c1: Seq<Crd>,
    r1: Seq<Token<R, u32>>,
    c2: Seq<Crd>,
    r2: Seq<Token<R, u32>>,
    i1: nat,
    i2: nat,
    i: int,
    m2: int,
)
    requires
        i1 <= i < c1.len(),
        c1[i] is Val,
        no_done_between(c1, i1 as int, i),
        i2 <= m2 < c2.len(),
        c2[m2] is Stop,
        stops_between(c2, i2 as int, m2) == stops_between(c1, i1 as int, i),
        no_done_between(c2, i2 as int, m2),
        join_run(JoinKind::Union, c1, r1, c2, r2, i1, i2).3 is Finished,
    ensures
        ({
            let (oc, o1, o2, st) = join_run(JoinKind::Union, c1, r1, c2, r2, i1, i2);
            exists|k: int| #[trigger] union_emits_first(oc, o1, k, c1[i], r1[i], stops_between(c1, i1 as int, i))
        }),
    decreases (c1.len() - i1) + (c2.len() - i2),
{
    let run = join_run(JoinKind::Union, c1, r1, c2, r2, i1, i2);
    lemma_join_run_unfold(JoinKind::Union, c1, r1, c2, r2, i1, i2);
    reveal(join_rule);
    assert(heads_ready(c1, r1, c2, r2, i1, i2));
    let h1 = c1[i1 as int];
    let h2 = c2[i2 as int];
    let st = join_rule(JoinKind::Union, h1, r1[i1 as int], h2, r2[i2 as int]);
    let oc = out_crds(st.out);
    let o1 = out_refs1(st.out);
    let o2 = out_refs2(st.out);
    let f = stops_between(c1, i1 as int, i);
    if h1 is Done {
        assert(!(c1[i1 as int] is Done));
    }
    if h2 is Done {
        assert(!(c2[i2 as int] is Done));
    }
    assert(!st.fault && !st.finish && (st.adv1 || st.adv2));
    let n1: nat = if st.adv1 { i1 + 1 } else { i1 };
    let n2: nat = if st.adv2 { i2 + 1 } else { i2 };
    let (rc, rr1, rr2, s2) = join_run(JoinKind::Union, c1, r1, c2, r2, n1, n2);
    assert(run == (oc + rc, o1 + rr1, o2 + rr2, s2));
    if i1 == i && st.adv1 {
        assert(oc[0] == c1[i] && o1[0] == r1[i]);
        assert(union_emits_first(run.0, run.1, 0, c1[i], r1[i], f));
    } else {
        if h1 is Stop && h2 is Stop {
            assert(f >= 1);
            assert(i2 < m2);
        }
        assert(n1 <= i && n2 <= m2);
        assert(f == (if h1 is Stop { 1nat } else { 0nat }) + stops_between(c1, i1 as int + 1, i));
        if i2 < m2 {
            assert(stops_between(c2, i2 as int, m2) == (if h2 is Stop { 1nat } else { 0nat }) + stops_between(
                c2,
                i2 as int + 1,
                m2,
            ));
        }
        assert(stops_between(c2, n2 as int, m2) == stops_between(c1, n1 as int, i));
        if oc.len() == 1 {
            assert(stops_between(oc, 0, 1) == (if oc[0] is Stop { 1nat } else { 0nat }) + stops_between(oc, 1, 1));
        }
        assert(stops_between(oc, 0, oc.len() as int) + stops_between(c1, n1 as int, i) == f);
        assert(no_done_between(c1, n1 as int, i));
        assert(no_done_between(c2, n2 as int, m2));
        lemma_union_keeps_first(c1, r1, c2, r2, n1, n2, i, m2);
        let fr = stops_between(c1, n1 as int, i);
        let k2 = choose|k: int| #[trigger] union_emits_first(rc, rr1, k, c1[i], r1[i], fr);
        assert(union_emits_first(rc, rr1, k2, c1[i], r1[i], fr));
        lemma_stops_after_prefix(oc, rc, k2);
        let k = oc.len() + k2;
        assert((oc + rc)[k] == rc[k2]);
        assert((o1 + rr1)[k] == rr1[k2]);
        assert(union_emits_first(run.0, run.1, k, c1[i], r1[i], f));
    }
}

/// Law: a union loses no coordinate of its second input.  The reference of
/// a coordinate payload at position `j` of the second input, ahead of its
/// done token, is emitted in the same fiber of the output, beside that
/// payload (or, where the first input's head was larger, beside that larger
/// payload with an empty first-side reference), whenever the run finishes
/// and the first input closes that fiber (it has a stop token at `m1`,
/// ahead of its done token, with as many stops before it as `j` has).
pub proof fn lemma_union_keeps_second<R>(
    c1: Seq<Crd>,
    r1: Seq<Token<R, u32>>,
    c2: Seq<Crd>,
    r2: Seq<Token<R, u32>>,
    i1: nat,
    i2: nat,
    j: int,
    m1: int,
)
    requires
        i2 <= j < c2.len(),
        c2[j] is Val,
        no_done_between(c2, i2 as int, j),
        i1 <= m1 < c1.len(),
        c1[m1] is Stop,
        stops_between(c1, i1 as int, m1) == stops_between(c2, i2 as int, j),
        no_done_between(c1, i1 as int, m1),
        join_run(JoinKind::Union, c1, r1, c2, r2, i1, i2).3 is Finished,
    ensures
        ({
            let (oc, o1, o2, st) = join_run(JoinKind::Union, c1, r1, c2, r2, i1, i2);
            exists|k: int| #[trigger] union_emits_second(oc, o1, o2, k, c2[j], r2[j], stops_between(c2, i2 as int, j))
        }),
    decreases (c1.len() - i1) + (c2.len() - i2),
{
    let run = join_run(JoinKind::Union, c1, r1, c2, r2, i1, i2);
    lemma_join_run_unfold(JoinKind::Union, c1, r1, c2, r2, i1, i2);
    reveal(join_rule);
    assert(heads_ready(c1, r1, c2, r2, i1, i2));
    let h1 = c1[i1 as int];
    let h2 = c2[i2 as int];
    let st = join_rule(JoinKind::Union, h1, r1[i1 as int], h2, r2[i2 as int]);
    let oc = out_crds(st.out);
    let o1 = out_refs1(st.out);
    let o2 = out_refs2(st.out);
    let f = stops_between(c2, i2 as int, j);
    if h1 is Done {
        assert(!(c1[i1 as int] is Done));
    }
    if h2 is Done {
        assert(!(c2[i2 as int] is Done));
    }
    assert(!st.fault && !st.finish && (st.adv1 || st.adv2));
    let n1: nat = if st.adv1 { i1 + 1 } else { i1 };
    let n2: nat = if st.adv2 { i2 + 1 } else { i2 };
    let (rc, rr1, rr2, s2) = join_run(JoinKind::Union, c1, r1, c2, r2, n1, n2);
    assert(run == (oc + rc, o1 + rr1, o2 + rr2, s2));
    if i2 == j && st.adv2 {
        assert(o2[0] == r2[j] && oc[0] is Val);
        assert(union_emits_second(run.0, run.1, run.2, 0, c2[j], r2[j], f));
    } else {
        if h1 is Stop && h2 is Stop {
            assert(f >= 1);
            assert(i1 < m1);
        }
        assert(n2 <= j && n1 <= m1);
        assert(f == (if h2 is Stop { 1nat } else { 0nat }) + stops_between(c2, i2 as int + 1, j));
        if i1 < m1 {
            assert(stops_between(c1, i1 as int, m1) == (if h1 is Stop { 1nat } else { 0nat }) + stops_between(
                c1,
                i1 as int + 1,
                m1,
            ));
        }
        assert(stops_between(c1, n1 as int, m1) == stops_between(c2, n2 as int, j));
        if oc.len() == 1 {
            assert(stops_between(oc, 0, 1) == (if oc[0] is Stop { 1nat } else { 0nat }) + stops_between(oc, 1, 1));
        }
        assert(stops_between(oc, 0, oc.len() as int) + stops_between(c2, n2 as int, j) == f);
        assert(no_done_between(c2, n2 as int, j));
        assert(no_done_between(c1, n1 as int, m1));
        lemma_union_keeps_second(c1, r1, c2, r2, n1, n2, j, m1);
        let fr = stops_between(c2, n2 as int, j);
        let k2 = choose|k: int| #[trigger] union_emits_second(rc, rr1, rr2, k, c2[j], r2[j], fr);
        assert(union_emits_second(rc, rr1, rr2, k2, c2[j], r2[j], fr));
        lemma_stops_after_prefix(oc, rc, k2);
        let k = oc.len() + k2;
        assert((oc + rc)[k] == rc[k2]);
        assert((o1 + rr1)[k] == rr1[k2]);
        assert((o2 + rr2)[k] == rr2[k2]);
        assert(union_emits_second(run.0, run.1, run.2, k, c2[j], r2[j], f));
    }
}

/// A finished intersection of sorted fibers emits every coordinate payload
/// that both inputs hold in the same fiber, ahead of the first input's done
/// token, with the references at those positions and in that fiber.
pub open spec fn intersect_complete<R>(
    c1: Seq<Crd>,
    r1: Seq<Token<R, u32>>,
    c2: Seq<Crd>,
    r2: Seq<Token<R, u32>>,
    oc: Seq<Crd>,
    o1: Seq<Token<R, u32>>,
    o2: Seq<Token<R, u32>>,
    st: JoinStatus,
) -> bool {
    st is Finished && fibers_sorted(c1) && fibers_sorted(c2) ==> forall|i: int, j: int|
        #![trigger c1[i], c2[j]]
        0 <= i < c1.len() && 0 <= j < c2.len() && c1[i] is Val && c2[j] == c1[i] && stops_between(c1, 0, i)
            == stops_between(c2, 0, j) && no_done_between(c1, 0, i) ==> exists|k: int| #[trigger]
            emitted_in_fiber(oc, o1, o2, k, c1[i], r1[i], r2[j], stops_between(c1, 0, i))
}

/// `s` ends with its done token and holds no other.
pub open spec fn ends_with_done(s: Seq<Crd>) -> bool {
    &&& s.len() >= 1
    &&& s[s.len() - 1] is Done
    &&& no_done_between(s, 0, s.len() - 1)
}

/// No empty marker stands in `s` from position `i` up to, not including, `j`.
pub open spec fn no_empty_between(s: Seq<Crd>, i: int, j: int) -> bool {
    forall|m: int| i <= m < j ==> !(#[trigger] s[m] is Empty)
}

/// Law: a union finishes on any two streams that end with their done token
/// (holding no other), with aligned reference streams, as many stop tokens
/// left in each, and empty markers in at most one of them.
pub proof fn lemma_union_finishes<R>(
    c1: Seq<Crd>,
    r1: Seq<Token<R, u32>>,
    c2: Seq<Crd>,
    r2: Seq<Token<R, u32>>,
    i1: nat,
    i2: nat,
)
    requires
        ends_with_done(c1),
        ends_with_done(c2),
        r1.len() == c1.len(),
        r2.len() == c2.len(),
        i1 < c1.len(),
        i2 < c2.len(),
        stops_between(c1, i1 as int, c1.len() as int) == stops_between(c2, i2 as int, c2.len() as int),
        no_empty_between(c1, i1 as int, c1.len() as int) || no_empty_between(c2, i2 as int, c2.len() as int),
    ensures
        join_run(JoinKind::Union, c1, r1, c2, r2, i1, i2).3 is Finished,
    decreases (c1.len() - i1) + (c2.len() - i2),
{
    lemma_join_run_unfold(JoinKind::Union, c1, r1, c2, r2, i1, i2);
    reveal(join_rule);
    let l1 = c1.len() as int;
    let l2 = c2.len() as int;
    let h1 = c1[i1 as int];
    let h2 = c2[i2 as int];
    if i1 < l1 - 1 {
        assert(!(c1[i1 as int] is Done));
    }
    if i2 < l2 - 1 {
        assert(!(c2[i2 as int] is Done));
    }
    assert(h1 is Done <==> i1 == l1 - 1);
    assert(h2 is Done <==> i2 == l2 - 1);
    assert(stops_between(c1, i1 as int, l1) == (if h1 is Stop { 1nat } else { 0nat }) + stops_between(
        c1,
        i1 as int + 1,
        l1,
    ));
    assert(stops_between(c2, i2 as int, l2) == (if h2 is Stop { 1nat } else { 0nat }) + stops_between(
        c2,
        i2 as int + 1,
        l2,
    ));
    if h1 is Done {
        assert(stops_between(c1, l1, l1) == 0);
    }
    if h2 is Done {
        assert(stops_between(c2, l2, l2) == 0);
    }
    assert(!(h1 is Empty && h2 is Empty));
    let st = join_rule(JoinKind::Union, h1, r1[i1 as int], h2, r2[i2 as int]);
    if !st.finish {
        assert(st.adv1 || st.adv2);
        let n1: nat = if st.adv1 { i1 + 1 } else { i1 };
        let n2: nat = if st.adv2 { i2 + 1 } else { i2 };
        assert(no_empty_between(c1, n1 as int, l1) || no_empty_between(c2, n2 as int, l2));
        lemma_union_finishes(c1, r1, c2, r2, n1, n2);
    }
}

/// The levels of the stop tokens of `s` from position `i` on, in order.
pub open spec fn stop_levels(s: Seq<Crd>, i: int) -> Seq<u32>
    decreases s.len() - i,
{
    if i < 0 || i >= s.len() {
        seq![]
    } else if s[i] is Stop {
        seq![s[i]->Stop_0] + stop_levels(s, i + 1)
    } else {
        stop_levels(s, i + 1)
    }
}

/// A stream whose last fiber is closed: it ends with its done token right
/// after a stop token, and holds no other done token and no empty marker.
pub open spec fn closed_stream(s: Seq<Crd>) -> bool {
    &&& s.len() >= 2
    &&& s[s.len() - 1] is Done
    &&& s[s.len() - 2] is Stop
    &&& forall|m: int| 0 <= m < s.len() - 1 ==> !(#[trigger] s[m] is Done) && !(s[m] is Empty)
}

/// A stop token at or after position `i` leaves some stop level from `i` on.
proof fn lemma_stop_levels_nonempty(s: Seq<Crd>, i: int, m: int)
    requires
        0 <= i <= m < s.len(),
        s[m] is Stop,
    ensures
        stop_levels(s, i).len() > 0,
    decreases m - i,
{
    if i < m && !(s[i] is Stop) {
        lemma_stop_levels_nonempty(s, i + 1, m);
    }
}

/// Law: an intersection finishes, without a fault, on any two closed
/// streams with aligned reference streams whose stop tokens left to read
/// carry the same levels in the same order.
pub proof fn lemma_intersect_finishes<R>(
    c1: Seq<Crd>,
    r1: Seq<Token<R, u32>>,
    c2: Seq<Crd>,
    r2: Seq<Token<R, u32>>,
    i1: nat,
    i2: nat,
)
    requires
        closed_stream(c1),
        closed_stream(c2),
        r1.len() == c1.len(),
        r2.len() == c2.len(),
        i1 < c1.len(),
        i2 < c2.len(),
        stop_levels(c1, i1 as int) == stop_levels(c2, i2 as int),
    ensures
        join_run(JoinKind::Intersect, c1, r1, c2, r2, i1, i2).3 is Finished,
    decreases (c1.len() - i1) + (c2.len() - i2),
{
    lemma_join_run_unfold(JoinKind::Intersect, c1, r1, c2, r2, i1, i2);
    reveal(join_rule);
    let l1 = c1.len() as int;
    let l2 = c2.len() as int;
    let h1 = c1[i1 as int];
    let h2 = c2[i2 as int];
    if i1 < l1 - 1 {
        assert(!(c1[i1 as int] is Done) && !(c1[i1 as int] is Empty));
        lemma_stop_levels_nonempty(c1, i1 as int, l1 - 2);
    } else {
        assert(stop_levels(c1, l1) == Seq::<u32>::empty());
    }
    if i2 < l2 - 1 {
        assert(!(c2[i2 as int] is Done) && !(c2[i2 as int] is Empty));
        lemma_stop_levels_nonempty(c2, i2 as int, l2 - 2);
    } else {
        assert(stop_levels(c2, l2) == Seq::<u32>::empty());
    }
    assert(h1 is Done <==> i1 == l1 - 1);
    assert(h2 is Done <==> i2 == l2 - 1);
    let st = join_rule(JoinKind::Intersect, h1, r1[i1 as int], h2, r2[i2 as int]);
    if h1 is Stop && h2 is Stop {
        assert(stop_levels(c1, i1 as int)[0] == h1->Stop_0);
        assert(stop_levels(c2, i2 as int)[0] == h2->Stop_0);
        assert(stop_levels(c1, i1 as int + 1) =~= stop_levels(c1, i1 as int).drop_first());
        assert(stop_levels(c2, i2 as int + 1) =~= stop_levels(c2, i2 as int).drop_first());
    }
    if !st.finish {
        assert(!st.fault && (st.adv1 || st.adv2));
        let n1: nat = if st.adv1 { i1 + 1 } else { i1 };
        let n2: nat = if st.adv2 { i2 + 1 } else { i2 };
        assert(stop_levels(c1, n1 as int) == stop_levels(c2, n2 as int));
        lemma_intersect_finishes(c1, r1, c2, r2, n1, n2);
    }
}

/// A finished union emits every coordinate payload of either input that
/// lies ahead of its done token, in a fiber that the other input closes
/// ahead of its own done token: a first-input payload with its reference, a
/// second-input reference beside its payload (or beside a larger payload of
/// the first input), each in the same fiber of the output.
pub open spec fn union_complete<R>(
    c1: Seq<Crd>,
    r1: Seq<Token<R, u32>>,
    c2: Seq<Crd>,
    r2: Seq<Token<R, u32>>,
    oc: Seq<Crd>,
    o1: Seq<Token<R, u32>>,
    o2: Seq<Token<R, u32>>,
    st: JoinStatus,
) -> bool {
    st is Finished ==> {
        &&& forall|i: int, m2: int|
            #![trigger c1[i], c2[m2]]
            0 <= i < c1.len() && c1[i] is Val && no_done_between(c1, 0, i) && 0 <= m2 < c2.len() && c2[m2] is Stop
                && stops_between(c2, 0, m2) == stops_between(c1, 0, i) && no_done_between(c2, 0, m2) ==> exists|k: int|
                #[trigger] union_emits_first(oc, o1, k, c1[i], r1[i], stops_between(c1, 0, i))
        &&& forall|j: int, m1: int|
            #![trigger c2[j], c1[m1]]
            0 <= j < c2.len() && c2[j] is Val && no_done_between(c2, 0, j) && 0 <= m1 < c1.len() && c1[m1] is Stop
                && stops_between(c1, 0, m1) == stops_between(c2, 0, j) && no_done_between(c1, 0, m1) ==> exists|k: int|
                #[trigger] union_emits_second(oc, o1, o2, k, c2[j], r2[j], stops_between(c2, 0, j))
    }
}

/// Intersects two coordinate streams (two-way form).
pub struct Intersect;

/// Merges two coordinate streams into their union.
pub struct Union;

impl Intersect {
    pub fn new() -> Self {
        Intersect
    }

    /// Whether the two inputs meet every stop of the other at the same
    /// level, so that the intersection can run on them.
    pub fn stop_levels_agree<R: Copy>(
        &self,
        in_crd1: &Vec<Crd>,
        in_ref1: &Vec<Token<R, u32>>,
        in_crd2: &Vec<Crd>,
        in_ref2: &Vec<Token<R, u32>>,
    ) -> (r: bool)
        ensures
            r == !(join_run(JoinKind::Intersect, in_crd1@, in_ref1@, in_crd2@, in_ref2@, 0, 0).3 is Fault),
    {
        let (_, _, _, st) = join_streams(JoinKind::Intersect, in_crd1, in_ref1, in_crd2, in_ref2);
        match st {
            JoinStatus::Fault => false,
            _ => true,
        }
    }

    /// Runs the intersection over whole streams (whose stops meet at equal
    /// levels).
    pub fn run<R: Copy>(
        &self,
        in_crd1: &Vec<Crd>,
        in_ref1: &Vec<Token<R, u32>>,
        in_crd2: &Vec<Crd>,
        in_ref2: &Vec<Token<R, u32>>,
    ) -> (r: (Vec<Crd>, Vec<Token<R, u32>>, Vec<Token<R, u32>>, JoinStatus))
        requires
            !(join_run(JoinKind::Intersect, in_crd1@, in_ref1@, in_crd2@, in_ref2@, 0, 0).3 is Fault),
        ensures
            (r.0@, r.1@, r.2@, r.3) == join_run(JoinKind::Intersect, in_crd1@, in_ref1@, in_crd2@, in_ref2@, 0, 0),
            intersect_outputs_found(r.0@, r.1@, r.2@, in_crd1@, in_ref1@, in_crd2@, in_ref2@),
            intersect_complete(in_crd1@, in_ref1@, in_crd2@, in_ref2@, r.0@, r.1@, r.2@, r.3),
            closed_stream(in_crd1@) && closed_stream(in_crd2@) && in_ref1@.len() == in_crd1@.len() && in_ref2@.len()
                == in_crd2@.len() && stop_levels(in_crd1@, 0) == stop_levels(in_crd2@, 0) ==> r.3 is Finished,
    {
        proof {
            if closed_stream(in_crd1@) && closed_stream(in_crd2@) && in_ref1@.len() == in_crd1@.len() && in_ref2@.len()
                == in_crd2@.len() && stop_levels(in_crd1@, 0) == stop_levels(in_crd2@, 0) {
                lemma_intersect_finishes(in_crd1@, in_ref1@, in_crd2@, in_ref2@, 0, 0);
            }
            lemma_intersect_outputs_found(in_crd1@, in_ref1@, in_crd2@, in_ref2@, 0, 0);
            let (c1, r1, c2, r2) = (in_crd1@, in_ref1@, in_crd2@, in_ref2@);
            let (oc, o1, o2, st) = join_run(JoinKind::Intersect, c1, r1, c2, r2, 0, 0);
            if st is Finished && fibers_sorted(c1) && fibers_sorted(c2) {
                assert forall|i: int, j: int|
                    #![trigger c1[i], c2[j]]
                    0 <= i < c1.len() && 0 <= j < c2.len() && c1[i] is Val && c2[j] == c1[i] && stops_between(c1, 0, i)
                        == stops_between(c2, 0, j) && no_done_between(c1, 0, i) implies exists|k: int| #[trigger]
                    emitted_in_fiber(oc, o1, o2, k, c1[i], r1[i], r2[j], stops_between(c1, 0, i)) by {
                    lemma_intersect_complete(c1, r1, c2, r2, 0, 0, i, j);
                }
            }
        }
        join_streams(JoinKind::Intersect, in_crd1, in_ref1, in_crd2, in_ref2)
    }
}

impl Union {
    pub fn new() -> Self {
        Union
    }

    /// Runs the union over whole streams.
    pub fn run<R: Copy>(
        &self,
        in_crd1: &Vec<Crd>,
        in_ref1: &Vec<Token<R, u32>>,
        in_crd2: &Vec<Crd>,
        in_ref2: &Vec<Token<R, u32>>,
    ) -> (r: (Vec<Crd>, Vec<Token<R, u32>>, Vec<Token<R, u32>>, JoinStatus))
        ensures
            (r.0@, r.1@, r.2@, r.3) == join_run(JoinKind::Union, in_crd1@, in_ref1@, in_crd2@, in_ref2@, 0, 0),
            union_first_found(r.0@, r.1@, r.2@, in_crd1@, in_ref1@),
            union_second_found(r.0@, r.1@, r.2@, in_crd2@, in_ref2@),
            union_complete(in_crd1@, in_ref1@, in_crd2@, in_ref2@, r.0@, r.1@, r.2@, r.3),
            ends_with_done(in_crd1@) && ends_with_done(in_crd2@) && in_ref1@.len() == in_crd1@.len() && in_ref2@.len()
                == in_crd2@.len() && stops_between(in_crd1@, 0, in_crd1@.len() as int) == stops_between(
                in_crd2@,
                0,
                in_crd2@.len() as int,
            ) && (no_empty_between(in_crd1@, 0, in_crd1@.len() as int) || no_empty_between(
                in_crd2@,
                0,
                in_crd2@.len() as int,
            )) ==> r.3 is Finished,
    {
        proof {
            if ends_with_done(in_crd1@) && ends_with_done(in_crd2@) && in_ref1@.len() == in_crd1@.len()
                && in_ref2@.len() == in_crd2@.len() {
                if stops_between(in_crd1@, 0, in_crd1@.len() as int) == stops_between(in_crd2@, 0, in_crd2@.len() as int)
                    && (no_empty_between(in_crd1@, 0, in_crd1@.len() as int) || no_empty_between(
                    in_crd2@,
                    0,
                    in_crd2@.len() as int,
                )) {
                    lemma_union_finishes(in_crd1@, in_ref1@, in_crd2@, in_ref2@, 0, 0);
                }
            }
            lemma_union_first_found(in_crd1@, in_ref1@, in_crd2@, in_ref2@, 0, 0);
            lemma_union_second_found(in_crd1@, in_ref1@, in_crd2@, in_ref2@, 0, 0);
            let (c1, r1, c2, r2) = (in_crd1@, in_ref1@, in_crd2@, in_ref2@);
            let (oc, o1, o2, st) = join_run(JoinKind::Union, c1, r1, c2, r2, 0, 0);
            if st is Finished {
                assert forall|i: int, m2: int|
                    #![trigger c1[i], c2[m2]]
                    0 <= i < c1.len() && c1[i] is Val && no_done_between(c1, 0, i) && 0 <= m2 < c2.len() && c2[m2] is Stop
                        && stops_between(c2, 0, m2) == stops_between(c1, 0, i) && no_done_between(c2, 0, m2) implies exists|
                    k: int,
                | #[trigger] union_emits_first(oc, o1, k, c1[i], r1[i], stops_between(c1, 0, i)) by {
                    lemma_union_keeps_first(c1, r1, c2, r2, 0, 0, i, m2);
                }
                assert forall|j: int, m1: int|
                    #![trigger c2[j], c1[m1]]
                    0 <= j < c2.len() && c2[j] is Val && no_done_between(c2, 0, j) && 0 <= m1 < c1.len() && c1[m1] is Stop
                        && stops_between(c1, 0, m1) == stops_between(c2, 0, j) && no_done_between(c1, 0, m1) implies exists|
                    k: int,
                | #[trigger] union_emits_second(oc, o1, o2, k, c2[j], r2[j], stops_between(c2, 0, j)) by {
                    lemma_union_keeps_second(c1, r1, c2, r2, 0, 0, j, m1);
                }
            }
        }
        join_streams(JoinKind::Union, in_crd1, in_ref1, in_crd2, in_ref2)
    }
}

} // verus!

verus! {

/// Every head is a coordinate payload and they are all equal.
pub open spec fn all_vals_equal(hs: Seq<Crd>) -> bool {
    &&& hs.len() > 0
    &&& forall|k: int| 0 <= k < hs.len() ==> (#[trigger] hs[k]) is Val && hs[k]->Val_0 == hs[0]->Val_0
}

/// Some head is a coordinate payload.
pub open spec fn has_val(hs: Seq<Crd>) -> bool {
    exists|k: int| 0 <= k < hs.len() && (#[trigger] hs[k]) is Val
}

/// The level of the first stop token among the heads.
pub open spec fn first_stop(hs: Seq<Crd>) -> Option<u32>
    decreases hs.len(),
{
    if hs.len() == 0 {
        None
    } else if hs[0] is Stop {
        Some(hs[0]->Stop_0)
    } else {
        first_stop(hs.drop_first())
    }
}

/// The smallest coordinate payload among the heads.
pub open spec fn min_val(hs: Seq<Crd>) -> Option<u32>
    decreases hs.len(),
{
    if hs.len() == 0 {
        None
    } else {
        let rest = min_val(hs.drop_last());
        match hs.last() {
            Token::Val(v) => match rest {
                Some(m) => Some(if v < m { v } else { m }),
                None => Some(v),
            },
            _ => rest,
        }
    }
}

/// The position of the first done token among the heads.
pub open spec fn first_done(hs: Seq<Crd>) -> Option<nat>
    decreases hs.len(),
{
    if hs.len() == 0 {
        None
    } else if hs[0] is Done {
        Some(0)
    } else {
        match first_done(hs.drop_first()) {
            Some(k) => Some(k + 1),
            None => None,
        }
    }
}

/// What an N-way intersection does for one set of heads.
pub struct NJoinStep<R> {
    pub adv: Vec<bool>,
    pub out: Option<(Crd, Vec<Token<R, u32>>)>,
    pub finish: bool,
}

/// The N-way intersection rule: equal coordinate payloads on every input
/// are emitted with all references; while some input has reached a stop
/// token, the inputs still holding payloads skip them (they have no partner
/// in this fiber); once no payload is left beside a stop token, the first
/// stop token among the heads is emitted with all references and every
/// input moves on; otherwise each input holding the smallest payload moves
/// on, up to the first input holding the done token, which ends the
/// intersection.
pub open spec fn nway_adv(hs: Seq<Crd>, k: int) -> bool {
    if all_vals_equal(hs) {
        true
    } else if first_stop(hs) is Some && has_val(hs) {
        hs[k] is Val
    } else if first_stop(hs) is Some {
        true
    } else {
        &&& hs[k] is Val
        &&& min_val(hs) == Some(hs[k]->Val_0)
        &&& (first_done(hs) is None || k < first_done(hs)->0)
    }
}

pub open spec fn nway_out<R>(hs: Seq<Crd>, rs: Seq<Token<R, u32>>) -> Option<(Crd, Seq<Token<R, u32>>)> {
    if all_vals_equal(hs) {
        Some((hs[0], rs))
    } else if first_stop(hs) is Some && has_val(hs) {
        None
    } else if first_stop(hs) is Some {
        Some((Token::Stop(first_stop(hs)->0), rs))
    } else if first_done(hs) is Some {
        Some((Token::Done, Seq::new(hs.len(), |k: int| Token::Done)))
    } else {
        None
    }
}

pub open spec fn nway_finish(hs: Seq<Crd>) -> bool {
    !all_vals_equal(hs) && first_stop(hs) is None && first_done(hs) is Some
}

proof fn lemma_first_stop_some(hs: Seq<Crd>)
    ensures
        first_stop(hs) is Some <==> exists|k: int| 0 <= k < hs.len() && hs[k] is Stop,
    decreases hs.len(),
{
    if hs.len() > 0 {
        lemma_first_stop_some(hs.drop_first());
        if first_stop(hs.drop_first()) is Some {
            let k = choose|k: int| 0 <= k < hs.drop_first().len() && hs.drop_first()[k] is Stop;
            assert(hs[k + 1] is Stop);
        }
        if exists|k: int| 0 <= k < hs.len() && hs[k] is Stop {
            let k = choose|k: int| 0 <= k < hs.len() && hs[k] is Stop;
            if k > 0 {
                assert(hs.drop_first()[k - 1] is Stop);
            }
        }
    }
}

proof fn lemma_first_done_some(hs: Seq<Crd>)
    ensures
        (exists|k: int| 0 <= k < hs.len() && hs[k] is Done) ==> first_done(hs) is Some,
        first_done(hs) is Some ==> first_done(hs)->0 < hs.len() && hs[first_done(hs)->0 as int] is Done,
    decreases hs.len(),
{
    if hs.len() > 0 {
        lemma_first_done_some(hs.drop_first());
        if exists|k: int| 0 <= k < hs.len() && hs[k] is Done {
            let k = choose|k: int| 0 <= k < hs.len() && hs[k] is Done;
            if k > 0 {
                assert(hs.drop_first()[k - 1] is Done);
            }
        }
        if first_done(hs) is Some && !(hs[0] is Done) {
            let d = first_done(hs.drop_first())->0;
            assert(hs[d as int + 1] == hs.drop_first()[d as int]);
        }
    }
}

proof fn lemma_min_val_bound(hs: Seq<Crd>)
    ensures
        forall|k: int|
            0 <= k < hs.len() && (#[trigger] hs[k]) is Val ==> min_val(hs) is Some && min_val(hs)->0 <= hs[k]->Val_0,
    decreases hs.len(),
{
    if hs.len() > 0 {
        lemma_min_val_bound(hs.drop_last());
        assert forall|k: int| 0 <= k < hs.len() && (#[trigger] hs[k]) is Val implies min_val(hs) is Some && min_val(
            hs,
        )->0 <= hs[k]->Val_0 by {
            if k < hs.len() - 1 {
                assert(hs.drop_last()[k] == hs[k]);
            }
        }
    }
}

proof fn lemma_min_val_held(hs: Seq<Crd>)
    ensures
        min_val(hs) is Some ==> exists|k: int| 0 <= k < hs.len() && hs[k] == Token::<u32, u32>::Val(min_val(hs)->0),
    decreases hs.len(),
{
    if hs.len() > 0 {
        lemma_min_val_held(hs.drop_last());
        if min_val(hs.drop_last()) is Some {
            let k = choose|k: int|
                0 <= k < hs.drop_last().len() && hs.drop_last()[k] == Token::<u32, u32>::Val(
                    min_val(hs.drop_last())->0,
                );
            assert(hs[k] == hs.drop_last()[k]);
        }
        assert(hs[hs.len() - 1] == hs.last());
    }
}

fn compute_first_stop(hs: &Vec<Crd>) -> (r: Option<u32>)
    ensures
        r == first_stop(hs@),
{
    let mut k: usize = 0;
    assert(hs@.skip(0) =~= hs@);
    while k < hs.len()
        invariant
            k <= hs.len(),
            first_stop(hs@) == first_stop(hs@.skip(k as int)),
        decreases hs.len() - k,
    {
        assert(hs@.skip(k as int).drop_first() =~= hs@.skip(k as int + 1));
        if let Token::Stop(s) = hs[k] {
            return Some(s);
        }
        k = k + 1;
    }
    None
}

fn compute_first_done(hs: &Vec<Crd>) -> (r: Option<usize>)
    ensures
        match r {
            Some(k) => first_done(hs@) == Some(k as nat),
            None => first_done(hs@) is None,
        },
{
    let mut k: usize = 0;
    assert(hs@.skip(0) =~= hs@);
    while k < hs.len()
        invariant
            k <= hs.len(),
            forall|m: int| 0 <= m < k ==> !(hs@[m] is Done),
            first_done(hs@) == match first_done(hs@.skip(k as int)) {
                Some(d) => Some((d + k) as nat),
                None => None,
            },
        decreases hs.len() - k,
    {
        assert(hs@.skip(k as int).drop_first() =~= hs@.skip(k as int + 1));
        if let Token::Done = hs[k] {
            return Some(k);
        }
        k = k + 1;
    }
    None
}

fn compute_min_val(hs: &Vec<Crd>) -> (r: Option<u32>)
    ensures
        r == min_val(hs@),
{
    let mut m: Option<u32> = None;
    let mut k: usize = 0;
    while k < hs.len()
        invariant
            k <= hs.len(),
            m == min_val(hs@.take(k as int)),
        decreases hs.len() - k,
    {
        assert(hs@.take(k as int + 1).drop_last() =~= hs@.take(k as int));
        if let Token::Val(v) = hs[k] {
            m = match m {
                Some(x) => Some(if v < x { v } else { x }),
                None => Some(v),
            };
        }
        k = k + 1;
    }
    assert(hs@.take(hs@.len() as int) =~= hs@);
    m
}

fn compute_has_val(hs: &Vec<Crd>) -> (r: bool)
    ensures
        r == has_val(hs@),
{
    let mut k: usize = 0;
    while k < hs.len()
        invariant
            k <= hs.len(),
            forall|m: int| 0 <= m < k ==> !(#[trigger] hs@[m] is Val),
        decreases hs.len() - k,
    {
        if let Token::Val(_) = hs[k] {
            return true;
        }
        k = k + 1;
    }
    false
}

fn compute_all_equal(hs: &Vec<Crd>) -> (r: bool)
    ensures
        r == all_vals_equal(hs@),
{
    if hs.len() == 0 {
        return false;
    }
    let first = match hs[0] {
        Token::Val(v) => v,
        _ => {
            return false;
        },
    };
    let mut k: usize = 1;
    while k < hs.len()
        invariant
            1 <= k <= hs.len(),
            hs@[0] == Token::<u32, u32>::Val(first),
            forall|m: int| 0 <= m < k ==> (#[trigger] hs@[m]) is Val && hs@[m]->Val_0 == first,
        decreases hs.len() - k,
    {
        match hs[k] {
            Token::Val(v) => {
                if v != first {
                    return false;
                }
            },
            _ => {
                return false;
            },
        }
        k = k + 1;
    }
    true
}

/// Decides what an N-way intersection does for the given heads.
pub fn nway_decide<R: Copy>(hs: &Vec<Crd>, rs: &Vec<Token<R, u32>>) -> (r: NJoinStep<R>)
    requires
        hs.len() == rs.len(),
    ensures
        r.adv@.len() == hs@.len(),
        forall|k: int| 0 <= k < hs@.len() ==> r.adv@[k] == nway_adv(hs@, k),
        match r.out {
            Some((c, v)) => nway_out(hs@, rs@) == Some((c, v@)),
            None => nway_out(hs@, rs@) is None,
        },
        r.finish == nway_finish(hs@),
{
    let n = hs.len();
    let all_eq = compute_all_equal(hs);
    let stop = compute_first_stop(hs);
    let hv = compute_has_val(hs);
    let mut adv: Vec<bool> = Vec::new();
    if !all_eq && stop.is_some() && hv {
        let mut k: usize = 0;
        while k < n
            invariant
                k <= n,
                n == hs@.len(),
                !all_vals_equal(hs@),
                first_stop(hs@) is Some,
                has_val(hs@),
                adv@.len() == k,
                forall|m: int| 0 <= m < k ==> adv@[m] == nway_adv(hs@, m),
            decreases n - k,
        {
            adv.push(match hs[k] {
                Token::Val(_) => true,
                _ => false,
            });
            k = k + 1;
        }
        return NJoinStep { adv, out: None, finish: false };
    }
    if all_eq || stop.is_some() {
        let mut k: usize = 0;
        while k < n
            invariant
                k <= n,
                n == hs@.len(),
                all_eq == all_vals_equal(hs@),
                stop == first_stop(hs@),
                hv == has_val(hs@),
                all_eq || (stop is Some && !hv),
                adv@.len() == k,
                forall|m: int| 0 <= m < k ==> adv@[m] == nway_adv(hs@, m),
            decreases n - k,
        {
            adv.push(true);
            k = k + 1;
        }
        if all_eq {
            let mut refs: Vec<Token<R, u32>> = Vec::new();
            let mut k: usize = 0;
            while k < n
                invariant
                    k <= n,
                    n == rs@.len(),
                    refs@ == rs@.take(k as int),
                decreases n - k,
            {
                refs.push(rs[k]);
                k = k + 1;
                assert(refs@ =~= rs@.take(k as int));
            }
            assert(refs@ =~= rs@);
            return NJoinStep { adv, out: Some((hs[0], refs)), finish: false };
        } else {
            let s = stop.unwrap();
            let mut refs: Vec<Token<R, u32>> = Vec::new();
            let mut k: usize = 0;
            while k < n
                invariant
                    k <= n,
                    n == rs@.len(),
                    refs@ == rs@.take(k as int),
                decreases n - k,
            {
                refs.push(rs[k]);
                k = k + 1;
                assert(refs@ =~= rs@.take(k as int));
            }
            assert(refs@ =~= rs@);
            return NJoinStep { adv, out: Some((Token::Stop(s), refs)), finish: false };
        }
    }
    let mn = compute_min_val(hs);
    let done = compute_first_done(hs);
    let mut k: usize = 0;
    while k < n
        invariant
            k <= n,
            n == hs@.len(),
            !all_vals_equal(hs@),
            first_stop(hs@) is None,
            mn == min_val(hs@),
            match done {
                Some(d) => first_done(hs@) == Some(d as nat),
                None => first_done(hs@) is None,
            },
            adv@.len() == k,
            forall|m: int| 0 <= m < k ==> adv@[m] == nway_adv(hs@, m),
        decreases n - k,
    {
        let a = match hs[k] {
            Token::Val(v) => mn == Some(v) && match done {
                Some(d) => k < d,
                None => true,
            },
            _ => false,
        };
        adv.push(a);
        k = k + 1;
    }
    match done {
        Some(_) => {
            let mut dones: Vec<Token<R, u32>> = Vec::new();
            let mut k: usize = 0;
            while k < n
                invariant
                    k <= n,
                    dones@ == Seq::new(k as nat, |m: int| Token::<R, u32>::Done),
                decreases n - k,
            {
                dones.push(Token::Done);
                k = k + 1;
                assert(dones@ =~= Seq::new(k as nat, |m: int| Token::<R, u32>::Done));
            }
            NJoinStep { adv, out: Some((Token::Done, dones)), finish: true }
        },
        None => NJoinStep { adv, out: None, finish: false },
    }
}

} // verus!

verus! {

/// Tokens left to read on the streams, from positions `pos`.
pub open spec fn remaining(lens: Seq<nat>, pos: Seq<nat>) -> nat
    decreases lens.len(),
{
    if lens.len() == 0 || pos.len() == 0 {
        0
    } else {
        remaining(lens.drop_last(), pos.drop_last()) + (if pos.last() < lens.last() {
            (lens.last() - pos.last()) as nat
        } else {
            0
        })
    }
}

pub open spec fn advanced(pos: Seq<nat>, adv: Seq<bool>) -> Seq<nat> {
    Seq::new(pos.len(), |k: int| if adv[k] { pos[k] + 1 } else { pos[k] })
}

/// Advancing some inputs never adds to the tokens left to read, and
/// advancing at least one takes some away.
pub proof fn lemma_remaining_decreases(lens: Seq<nat>, pos: Seq<nat>, adv: Seq<bool>)
    requires
        lens.len() == pos.len(),
        adv.len() == pos.len(),
        forall|k: int| 0 <= k < pos.len() ==> pos[k] < lens[k],
    ensures
        remaining(lens, advanced(pos, adv)) <= remaining(lens, pos),
        (exists|k: int| 0 <= k < adv.len() && adv[k]) ==> remaining(lens, advanced(pos, adv)) < remaining(lens, pos),
    decreases lens.len(),
{
    if lens.len() > 0 {
        let n = lens.len() - 1;
        assert(advanced(pos, adv).drop_last() =~= advanced(pos.drop_last(), adv.drop_last()));
        lemma_remaining_decreases(lens.drop_last(), pos.drop_last(), adv.drop_last());
        if exists|k: int| 0 <= k < adv.len() && adv[k] {
            let k = choose|k: int| 0 <= k < adv.len() && adv[k];
            if k < n {
                assert(adv.drop_last()[k]);
            }
        }
    }
}

pub open spec fn stream_lens<T>(s: Seq<Seq<T>>) -> Seq<nat> {
    Seq::new(s.len(), |k: int| s[k].len())
}

pub open spec fn nheads_ready<R>(crds: Seq<Seq<Crd>>, refs: Seq<Seq<Token<R, u32>>>, pos: Seq<nat>) -> bool {
    forall|k: int| 0 <= k < pos.len() ==> pos[k] < crds[k].len() && pos[k] < refs[k].len()
}

pub open spec fn nheads<T>(s: Seq<Seq<T>>, pos: Seq<nat>) -> Seq<T> {
    Seq::new(pos.len(), |k: int| s[k][pos[k] as int])
}

/// The N-way intersection on whole streams from positions `pos`: the rows
/// it emits (a coordinate and one reference per input) and how it ends.
pub open spec fn nway_run<R>(crds: Seq<Seq<Crd>>, refs: Seq<Seq<Token<R, u32>>>, pos: Seq<nat>) -> (
    Seq<(Crd, Seq<Token<R, u32>>)>,
    JoinStatus,
)
    decreases remaining(stream_lens(crds), pos),
{
    if !nheads_ready(crds, refs, pos) || crds.len() != pos.len() {
        (seq![], JoinStatus::Exhausted)
    } else {
        let hs = nheads(crds, pos);
        let rs = nheads(refs, pos);
        let adv = Seq::new(pos.len(), |k: int| nway_adv(hs, k));
        let row = match nway_out(hs, rs) {
            Some(o) => seq![o],
            None => seq![],
        };
        if nway_finish(hs) {
            (row, JoinStatus::Finished)
        } else if !(exists|k: int| 0 <= k < adv.len() && adv[k]) {
            (row, JoinStatus::Stalled)
        } else {
            proof {
                lemma_remaining_decreases(stream_lens(crds), pos, adv);
            }
            let (rest, st) = nway_run(crds, refs, advanced(pos, adv));
            (row + rest, st)
        }
    }
}

/// Intersects any number of coordinate streams.
pub struct NIntersect;

impl NIntersect {
    pub fn new() -> Self {
        NIntersect
    }

    /// Runs the intersection over whole streams (`in_refs[k]` aligned with
    /// `in_crds[k]`); returns the emitted coordinates, the emitted
    /// references of each input, and how the run ended.
    pub fn run<R: Copy>(&self, in_crds: &Vec<Vec<Crd>>, in_refs: &Vec<Vec<Token<R, u32>>>) -> (r: (
        Vec<Crd>,
        Vec<Vec<Token<R, u32>>>,
        JoinStatus,
    ))
        requires
            in_crds.len() == in_refs.len(),
            in_crds.len() >= 1,
        ensures
            ({
                let crds = Seq::new(in_crds@.len(), |k: int| in_crds@[k]@);
                let refs = Seq::new(in_refs@.len(), |k: int| in_refs@[k]@);
                let (rows, st) = nway_run(crds, refs, Seq::new(in_crds@.len(), |k: int| 0nat));
                &&& r.2 == st
                &&& nway_rows_found(rows, crds, refs)
                &&& nway_complete(crds, refs, rows, st)
                &&& nway_streams_aligned(crds, refs) ==> st is Finished
                &&& r.0@ == rows.map_values(|row: (Crd, Seq<Token<R, u32>>)| row.0)
                &&& r.1@.len() == in_crds@.len()
                &&& forall|k: int|
                    0 <= k < r.1@.len() ==> (#[trigger] r.1@[k])@ == rows.map_values(
                        |row: (Crd, Seq<Token<R, u32>>)| row.1[k],
                    )
            }),
    {
        let n = in_crds.len();
        proof {
            lemma_nway_rows_found(
                Seq::new(in_crds@.len(), |k: int| in_crds@[k]@),
                Seq::new(in_refs@.len(), |k: int| in_refs@[k]@),
                Seq::new(in_crds@.len(), |k: int| 0nat),
            );
            let crds = Seq::new(in_crds@.len(), |k: int| in_crds@[k]@);
            let refs = Seq::new(in_refs@.len(), |k: int| in_refs@[k]@);
            let start = Seq::new(in_crds@.len(), |k: int| 0nat);
            let (rows, st) = nway_run(crds, refs, start);
            if st is Finished && (forall|k: int| 0 <= k < crds.len() ==> fibers_sorted(#[trigger] crds[k])) {
                assert forall|p: Seq<nat>, x: u32, f: nat| #[trigger] common_payload(crds, p, x, f) implies exists|
                    m: int,
                | #[trigger] row_emitted_in_fiber(rows, m, Token::Val(x), refs_at(refs, p), f) by {
                    assert forall|k: int| 0 <= k < crds.len() implies #[trigger] payload_ahead(
                        crds[k],
                        start[k],
                        p[k],
                        x,
                        f,
                    ) by {
                        assert(payload_ahead(crds[k], 0, p[k], x, f));
                    }
                    lemma_nway_complete(crds, refs, start, p, x, f);
                }
            }
            assert(nway_complete(crds, refs, rows, st));
            if nway_streams_aligned(crds, refs) {
                let f = stops_between(crds[0], 0, crds[0].len() as int);
                assert forall|k: int| 0 <= k < crds.len() implies #[trigger] stream_left(
                    crds[k],
                    refs[k].len(),
                    start[k],
                    f,
                ) by {
                    assert(stream_left(crds[k], refs[k].len(), 0, f));
                }
                lemma_nway_finishes(crds, refs, start, f);
            }
        }
        let ghost crds = Seq::new(in_crds@.len(), |k: int| in_crds@[k]@);
        let ghost refs = Seq::new(in_refs@.len(), |k: int| in_refs@[k]@);
        let ghost total = nway_run(crds, refs, Seq::new(n as nat, |k: int| 0nat));
        let mut pos: Vec<usize> = Vec::new();
        let mut out_crd: Vec<Crd> = Vec::new();
        let mut out_refs: Vec<Vec<Token<R, u32>>> = Vec::new();
        let mut k: usize = 0;
        while k < n
            invariant
                k <= n,
                pos@.len() == k,
                out_refs@.len() == k,
                forall|m: int| 0 <= m < k ==> pos@[m] == 0,
                forall|m: int| 0 <= m < k ==> (#[trigger] out_refs@[m])@.len() == 0,
            decreases n - k,
        {
            pos.push(0);
            out_refs.push(Vec::new());
            k = k + 1;
        }
        let ghost mut rows: Seq<(Crd, Seq<Token<R, u32>>)> = seq![];
        assert(Seq::new(pos@.len(), |m: int| pos@[m] as nat) =~= Seq::new(n as nat, |m: int| 0nat));
        loop
            invariant
                n == in_crds@.len(),
                n == in_refs@.len(),
                n >= 1,
                pos@.len() == n,
                out_refs@.len() == n,
                crds == Seq::new(in_crds@.len(), |k: int| in_crds@[k]@),
                refs == Seq::new(in_refs@.len(), |k: int| in_refs@[k]@),
                total == nway_run(crds, refs, Seq::new(n as nat, |k: int| 0nat)),
                nway_rows_found(total.0, crds, refs),
                nway_complete(crds, refs, total.0, total.1),
                nway_streams_aligned(crds, refs) ==> total.1 is Finished,
                ({
                    let (rest, st) = nway_run(crds, refs, Seq::new(n as nat, |m: int| pos@[m] as nat));
                    total.0 == rows + rest && total.1 == st
                }),
                out_crd@ == rows.map_values(|row: (Crd, Seq<Token<R, u32>>)| row.0),
                forall|m: int|
                    0 <= m < n ==> (#[trigger] out_refs@[m])@ == rows.map_values(
                        |row: (Crd, Seq<Token<R, u32>>)| row.1[m],
                    ),
            decreases remaining(stream_lens(crds), Seq::new(n as nat, |m: int| pos@[m] as nat)),
        {
            let ghost p = Seq::new(n as nat, |m: int| pos@[m] as nat);
            let mut ready = true;
            let mut k: usize = 0;
            while k < n
                invariant
                    k <= n,
                    n == in_crds@.len(),
                    n == in_refs@.len(),
                    pos@.len() == n,
                    p == Seq::new(n as nat, |m: int| pos@[m] as nat),
                    crds == Seq::new(in_crds@.len(), |k: int| in_crds@[k]@),
                    refs == Seq::new(in_refs@.len(), |k: int| in_refs@[k]@),
                    ready == (forall|m: int| 0 <= m < k ==> p[m] < crds[m].len() && p[m] < refs[m].len()),
                decreases n - k,
            {
                assert(crds[k as int] == in_crds@[k as int]@);
                assert(refs[k as int] == in_refs@[k as int]@);
                assert(p[k as int] == pos@[k as int] as nat);
                if !(pos[k] < in_crds[k].len() && pos[k] < in_refs[k].len()) {
                    ready = false;
                }
                k = k + 1;
            }
            if !ready {
                assert(!nheads_ready(crds, refs, p));
                assert(total.0 =~= rows);
                return (out_crd, out_refs, JoinStatus::Exhausted);
            }
            assert(nheads_ready(crds, refs, p));
            let mut hs: Vec<Crd> = Vec::new();
            let mut rs: Vec<Token<R, u32>> = Vec::new();
            let mut k: usize = 0;
            while k < n
                invariant
                    k <= n,
                    n == in_crds@.len(),
                    n == in_refs@.len(),
                    pos@.len() == n,
                    p == Seq::new(n as nat, |m: int| pos@[m] as nat),
                    crds == Seq::new(in_crds@.len(), |k: int| in_crds@[k]@),
                    refs == Seq::new(in_refs@.len(), |k: int| in_refs@[k]@),
                    nheads_ready(crds, refs, p),
                    hs@ == nheads(crds, p).take(k as int),
                    rs@ == nheads(refs, p).take(k as int),
                decreases n - k,
            {
                assert(crds[k as int] == in_crds@[k as int]@);
                assert(refs[k as int] == in_refs@[k as int]@);
                assert(p[k as int] == pos@[k as int] as nat);
                assert(p[k as int] < crds[k as int].len() && p[k as int] < refs[k as int].len());
                hs.push(in_crds[k][pos[k]]);
                rs.push(in_refs[k][pos[k]]);
                k = k + 1;
                assert(hs@ =~= nheads(crds, p).take(k as int));
                assert(rs@ =~= nheads(refs, p).take(k as int));
            }
            assert(hs@ =~= nheads(crds, p));
            assert(rs@ =~= nheads(refs, p));
            let st = nway_decide(&hs, &rs);
            let ghost adv = Seq::new(p.len(), |k: int| nway_adv(hs@, k));
            assert(st.adv@ =~= adv);
            let ghost row = match nway_out(hs@, rs@) {
                Some(o) => seq![o],
                None => seq![],
            };
            let ghost old_rows = rows;
            match st.out {
                Some((c, v)) => {
                    assert(v@.len() == n);
                    out_crd.push(c);
                    let mut k: usize = 0;
                    while k < n
                        invariant
                            k <= n,
                            out_refs@.len() == n,
                            v@.len() == n,
                            forall|m: int|
                                0 <= m < k ==> (#[trigger] out_refs@[m])@ == old_rows.map_values(
                                    |row: (Crd, Seq<Token<R, u32>>)| row.1[m],
                                ).push(v@[m]),
                            forall|m: int|
                                k <= m < n ==> (#[trigger] out_refs@[m])@ == old_rows.map_values(
                                    |row: (Crd, Seq<Token<R, u32>>)| row.1[m],
                                ),
                        decreases n - k,
                    {
                        let mut col = out_refs.remove(k);
                        col.push(v[k]);
                        out_refs.insert(k, col);
                        k = k + 1;
                    }
                    proof {
                        rows = rows.push((c, v@));
                        assert(out_crd@ =~= rows.map_values(|row: (Crd, Seq<Token<R, u32>>)| row.0));
                        assert forall|m: int| 0 <= m < n implies (#[trigger] out_refs@[m])@ == rows.map_values(
                            |row: (Crd, Seq<Token<R, u32>>)| row.1[m],
                        ) by {
                            assert(rows.map_values(|row: (Crd, Seq<Token<R, u32>>)| row.1[m]) =~= old_rows.map_values(
                                |row: (Crd, Seq<Token<R, u32>>)| row.1[m],
                            ).push(v@[m]));
                        }
                        assert(rows =~= old_rows + row);
                    }
                },
                None => {
                    assert(rows =~= old_rows + row);
                },
            }
            if st.finish {
                assert(total.0 =~= rows);
                return (out_crd, out_refs, JoinStatus::Finished);
            }
            let mut any = false;
            let mut k: usize = 0;
            while k < n
                invariant
                    k <= n,
                    st.adv@.len() == n,
                    any == (exists|m: int| 0 <= m < k && st.adv@[m]),
                decreases n - k,
            {
                if st.adv[k] {
                    any = true;
                }
                k = k + 1;
            }
            if !any {
                assert(!(exists|m: int| 0 <= m < adv.len() && adv[m]));
                assert(total.0 =~= rows);
                return (out_crd, out_refs, JoinStatus::Stalled);
            }
            let mut k: usize = 0;
            while k < n
                invariant
                    k <= n,
                    pos@.len() == n,
                    st.adv@.len() == n,
                    n == in_crds@.len(),
                    crds == Seq::new(in_crds@.len(), |k: int| in_crds@[k]@),
                    nheads_ready(crds, refs, p),
                    p.len() == n,
                    forall|m: int| 0 <= m < k ==> pos@[m] as nat == advanced(p, st.adv@)[m],
                    forall|m: int| k <= m < n ==> pos@[m] as nat == p[m],
                decreases n - k,
            {
                if st.adv[k] {
                    let x = pos[k];
                    assert(crds[k as int] == in_crds@[k as int]@);
                    assert(p[k as int] < crds[k as int].len());
                    let l = in_crds[k].len();
                    assert(x < l);
                    pos.set(k, x + 1);
                }
                k = k + 1;
            }
            proof {
                let np = Seq::new(n as nat, |m: int| pos@[m] as nat);
                assert(np =~= advanced(p, adv));
                lemma_remaining_decreases(stream_lens(crds), p, adv);
                let (rest, s2) = nway_run(crds, refs, np);
                assert(old_rows + (row + rest) =~= rows + rest);
            }
        }
    }
}

/// Every row whose coordinate is a payload shows that coordinate in every
/// input, at the position of the reference the row carries for that input.
pub open spec fn nway_rows_found<R>(
    rows: Seq<(Crd, Seq<Token<R, u32>>)>,
    crds: Seq<Seq<Crd>>,
    refs: Seq<Seq<Token<R, u32>>>,
) -> bool {
    forall|m: int, k: int|
        0 <= m < rows.len() && (#[trigger] rows[m]).0 is Val && 0 <= k < crds.len() ==> #[trigger] found_in(
            crds[k],
            refs[k],
            rows[m].0,
            rows[m].1[k],
        )
}

/// Law: every coordinate an N-way intersection emits stands in every input,
/// at the position of the reference emitted for that input.
pub proof fn lemma_nway_rows_found<R>(crds: Seq<Seq<Crd>>, refs: Seq<Seq<Token<R, u32>>>, pos: Seq<nat>)
    ensures
        nway_rows_found(nway_run(crds, refs, pos).0, crds, refs),
    decreases remaining(stream_lens(crds), pos),
{
    if nheads_ready(crds, refs, pos) && crds.len() == pos.len() {
        let hs = nheads(crds, pos);
        let rs = nheads(refs, pos);
        let adv = Seq::new(pos.len(), |k: int| nway_adv(hs, k));
        let row: Seq<(Crd, Seq<Token<R, u32>>)> = match nway_out(hs, rs) {
            Some(o) => seq![o],
            None => seq![],
        };
        assert(nway_rows_found(row, crds, refs)) by {
            assert forall|m: int, k: int|
                0 <= m < row.len() && (#[trigger] row[m]).0 is Val && 0 <= k < crds.len() implies #[trigger] found_in(
                crds[k],
                refs[k],
                row[m].0,
                row[m].1[k],
            ) by {
                assert(m == 0);
                if all_vals_equal(hs) {
                    assert(row[0] == (hs[0], rs));
                    assert(hs[k] is Val && hs[k]->Val_0 == hs[0]->Val_0);
                    assert(crds[k][pos[k] as int] == hs[0]);
                    assert(refs[k][pos[k] as int] == rs[k]);
                } else if first_stop(hs) is Some {
                    assert(row[0].0 is Stop);
                } else {
                    assert(row[0].0 is Done);
                }
            }
        }
        if !nway_finish(hs) && (exists|k: int| 0 <= k < adv.len() && adv[k]) {
            lemma_remaining_decreases(stream_lens(crds), pos, adv);
            lemma_nway_rows_found(crds, refs, advanced(pos, adv));
            let (rest, st) = nway_run(crds, refs, advanced(pos, adv));
            let all = row + rest;
            assert forall|m: int, k: int|
                0 <= m < all.len() && (#[trigger] all[m]).0 is Val && 0 <= k < crds.len() implies #[trigger] found_in(
                crds[k],
                refs[k],
                all[m].0,
                all[m].1[k],
            ) by {
                if m < row.len() {
                    assert(all[m] == row[m]);
                } else {
                    assert(all[m] == rest[m - row.len()]);
                }
            }
        }
    }
}

/// The coordinates of an N-way intersection's rows.
pub open spec fn row_crds<R>(rows: Seq<(Crd, Seq<Token<R, u32>>)>) -> Seq<Crd> {
    rows.map_values(|row: (Crd, Seq<Token<R, u32>>)| row.0)
}

/// Row `m` holds coordinate `c` with the references `rs`, in the fiber `f`
/// of the emitted coordinates.
pub open spec fn row_emitted_in_fiber<R>(
    rows: Seq<(Crd, Seq<Token<R, u32>>)>,
    m: int,
    c: Crd,
    rs: Seq<Token<R, u32>>,
    f: nat,
) -> bool {
    &&& 0 <= m < rows.len()
    &&& rows[m].0 == c && rows[m].1 == rs
    &&& stops_between(row_crds(rows), 0, m) == f
}

/// The references of the streams `refs` at positions `p`.
pub open spec fn refs_at<R>(refs: Seq<Seq<Token<R, u32>>>, p: Seq<nat>) -> Seq<Token<R, u32>> {
    Seq::new(p.len(), |k: int| refs[k][p[k] as int])
}

/// Position `at` of `s`, at or after `from`, holds payload `x`, with `f`
/// stops and neither an empty marker nor a done token from `from` on.
pub open spec fn payload_ahead(s: Seq<Crd>, from: nat, at: nat, x: u32, f: nat) -> bool {
    &&& from <= at < s.len()
    &&& s[at as int] == Token::<u32, u32>::Val(x)
    &&& stops_between(s, from as int, at as int) == f
    &&& forall|m: int| from <= m < at ==> !(#[trigger] s[m] is Done) && !(s[m] is Empty)
}

/// Law: an N-way intersection of fibers with sorted coordinates loses
/// nothing that every input holds.  Where each input `k` holds payload `x`
/// at position `p[k]`, all in the same fiber (`f` stops before each,
/// counted from where the run starts) with no empty marker or done token
/// ahead of it, the run emits `x` with the references found at those
/// positions, in that fiber of the output, whenever it finishes.
pub proof fn lemma_nway_complete<R>(
    crds: Seq<Seq<Crd>>,
    refs: Seq<Seq<Token<R, u32>>>,
    pos: Seq<nat>,
    p: Seq<nat>,
    x: u32,
    f: nat,
)
    requires
        crds.len() >= 1,
        refs.len() == crds.len(),
        pos.len() == crds.len(),
        p.len() == crds.len(),
        forall|k: int| 0 <= k < crds.len() ==> fibers_sorted(#[trigger] crds[k]),
        forall|k: int| 0 <= k < crds.len() ==> #[trigger] payload_ahead(crds[k], pos[k], p[k], x, f),
        nway_run(crds, refs, pos).1 is Finished,
    ensures
        exists|m: int| #[trigger]
            row_emitted_in_fiber(
                nway_run(crds, refs, pos).0,
                m,
                Token::Val(x),
                refs_at(refs, p),
                f,
            ),
    decreases remaining(stream_lens(crds), pos),
{
    let n = crds.len();
    let run = nway_run(crds, refs, pos);
    let target = refs_at(refs, p);
    assert(nheads_ready(crds, refs, pos));
    let hs = nheads(crds, pos);
    let rs = nheads(refs, pos);
    let adv = Seq::new(pos.len(), |k: int| nway_adv(hs, k));
    let row: Seq<(Crd, Seq<Token<R, u32>>)> = match nway_out(hs, rs) {
        Some(o) => seq![o],
        None => seq![],
    };
    lemma_first_stop_some(hs);
    lemma_first_done_some(hs);
    lemma_min_val_bound(hs);
    // A head that is not the payload sought lies strictly ahead of it, so it
    // is neither an empty marker nor a done token.
    assert forall|k: int| 0 <= k < n && hs[k] != Token::<u32, u32>::Val(x) implies pos[k] < p[k] && !(
    #[trigger] hs[k] is Done) && !(hs[k] is Empty) by {
        assert(payload_ahead(crds[k], pos[k], p[k], x, f));
        assert(hs[k] == crds[k][pos[k] as int]);
    }
    assert(first_done(hs) is None) by {
        if first_done(hs) is Some {
            let d = first_done(hs)->0 as int;
            assert(hs[d] is Done);
        }
    }
    assert(!nway_finish(hs));
    if forall|k: int| 0 <= k < n ==> pos[k] == p[k] {
        assert forall|k: int| 0 <= k < n implies #[trigger] hs[k] == Token::<u32, u32>::Val(x) by {
            assert(payload_ahead(crds[k], pos[k], p[k], x, f));
        }
        assert(all_vals_equal(hs));
        assert(f == 0) by {
            assert(payload_ahead(crds[0], pos[0], p[0], x, f));
        }
        assert(rs =~= target);
        assert(adv[0]);
        let (rest, st) = nway_run(crds, refs, advanced(pos, adv));
        assert(run.0 == row + rest);
        assert(row_crds(run.0).len() == run.0.len());
        assert(row_emitted_in_fiber(run.0, 0, Token::Val(x), target, f));
    } else {
        let k0 = choose|k: int| 0 <= k < n && pos[k] != p[k];
        assert(payload_ahead(crds[k0], pos[k0], p[k0], x, f));
        let case_c = first_stop(hs) is Some && !has_val(hs) && !all_vals_equal(hs);
        if case_c {
            let ks = choose|k: int| 0 <= k < hs.len() && hs[k] is Stop;
            assert(payload_ahead(crds[ks], pos[ks], p[ks], x, f));
            assert(f >= 1);
        }
        let f2: nat = if case_c { (f - 1) as nat } else { f };
        let np = advanced(pos, adv);
        assert forall|k: int| 0 <= k < n implies #[trigger] payload_ahead(crds[k], np[k], p[k], x, f2) by {
            assert(payload_ahead(crds[k], pos[k], p[k], x, f));
            assert(hs[k] == crds[k][pos[k] as int]);
            if adv[k] {
                if pos[k] == p[k] {
                    assert(f == 0);
                    if all_vals_equal(hs) {
                        assert(hs[k0] is Val && hs[k0]->Val_0 == hs[0]->Val_0);
                        assert(crds[k0][pos[k0] as int] == crds[k0][p[k0] as int]);
                        assert(fibers_sorted(crds[k0]));
                    } else if first_stop(hs) is Some {
                        let ks = choose|k: int| 0 <= k < hs.len() && hs[k] is Stop;
                        assert(payload_ahead(crds[ks], pos[ks], p[ks], x, f));
                        assert(stops_between(crds[ks], pos[ks] as int, p[ks] as int) >= 1);
                    } else {
                        assert forall|j: int| 0 <= j < n implies #[trigger] hs[j] is Val by {
                            if !(hs[j] is Val) {
                                assert(!(hs[j] is Stop));
                            }
                        }
                        let kd = choose|j: int| 0 <= j < hs.len() && !((#[trigger] hs[j]) is Val && hs[j]->Val_0 == hs[0]->Val_0);
                        let k1 = if hs[0]->Val_0 != x { 0 } else { kd };
                        assert(hs[k1] is Val && hs[k1]->Val_0 != x);
                        assert(hs[k1]->Val_0 >= x);
                        assert(payload_ahead(crds[k1], pos[k1], p[k1], x, f));
                        assert(crds[k1][pos[k1] as int] == hs[k1]);
                        assert(fibers_sorted(crds[k1]));
                    }
                }
                assert(pos[k] < p[k]);
                assert(stops_between(crds[k], pos[k] as int, p[k] as int) == (if hs[k] is Stop { 1nat } else { 0nat })
                    + stops_between(crds[k], pos[k] as int + 1, p[k] as int));
                if case_c {
                    assert(hs[k] is Stop);
                } else {
                    assert(!(hs[k] is Stop));
                }
            } else {
                assert(!case_c);
            }
        }
        assert(adv.len() == pos.len());
        lemma_remaining_decreases(stream_lens(crds), pos, adv);
        assert(exists|k: int| 0 <= k < adv.len() && adv[k]);
        lemma_nway_complete(crds, refs, np, p, x, f2);
        let (rest, st) = nway_run(crds, refs, np);
        assert(run.0 == row + rest);
        let m2 = choose|m: int| #[trigger] row_emitted_in_fiber(rest, m, Token::Val(x), target, f2);
        assert(row_emitted_in_fiber(rest, m2, Token::Val(x), target, f2));
        let m = row.len() + m2;
        assert(row_crds(row + rest) =~= row_crds(row) + row_crds(rest));
        lemma_stops_after_prefix(row_crds(row), row_crds(rest), m2);
        assert((row + rest)[m] == rest[m2]);
        if row.len() == 1 {
            let rc = row_crds(row);
            assert(stops_between(rc, 0, 1) == (if rc[0] is Stop { 1nat } else { 0nat }) + stops_between(rc, 1, 1));
            if case_c {
                assert(rc[0] is Stop);
            } else {
                assert(all_vals_equal(hs));
                assert(!(rc[0] is Stop));
            }
        }
        assert(row_emitted_in_fiber(run.0, m, Token::Val(x), target, f));
    }
}

/// Stream `s` ends with its done token (holding no other) and holds no
/// empty marker; its reference stream has `rlen` tokens, as many as `s`;
/// position `from` lies within it, with `f` stop tokens from there on.
pub open spec fn stream_left(s: Seq<Crd>, rlen: nat, from: nat, f: nat) -> bool {
    &&& ends_with_done(s)
    &&& no_empty_between(s, 0, s.len() as int)
    &&& rlen == s.len()
    &&& from < s.len()
    &&& stops_between(s, from as int, s.len() as int) == f
}

/// Law: an N-way intersection finishes on any streams that each end with
/// their done token (holding no other) and hold no empty marker, with
/// aligned reference streams and as many stop tokens left in each.
pub proof fn lemma_nway_finishes<R>(crds: Seq<Seq<Crd>>, refs: Seq<Seq<Token<R, u32>>>, pos: Seq<nat>, f: nat)
    requires
        crds.len() >= 1,
        refs.len() == crds.len(),
        pos.len() == crds.len(),
        forall|k: int| 0 <= k < crds.len() ==> #[trigger] stream_left(crds[k], refs[k].len(), pos[k], f),
    ensures
        nway_run(crds, refs, pos).1 is Finished,
    decreases remaining(stream_lens(crds), pos),
{
    let n = crds.len();
    let hs = nheads(crds, pos);
    let adv = Seq::new(pos.len(), |k: int| nway_adv(hs, k));
    assert forall|k: int| 0 <= k < n implies pos[k] < crds[k].len() && pos[k] < refs[k].len() && !(
    #[trigger] hs[k] is Empty) && (hs[k] is Done <==> pos[k] == crds[k].len() - 1) && stops_between(
        crds[k],
        pos[k] as int,
        crds[k].len() as int,
    ) == (if hs[k] is Stop { 1nat } else { 0nat }) + stops_between(crds[k], pos[k] as int + 1, crds[k].len() as int) by {
        assert(stream_left(crds[k], refs[k].len(), pos[k], f));
        assert(hs[k] == crds[k][pos[k] as int]);
        if pos[k] < crds[k].len() - 1 {
            assert(!(crds[k][pos[k] as int] is Done));
        }
    }
    assert(nheads_ready(crds, refs, pos)) by {
        assert forall|k: int| 0 <= k < pos.len() implies pos[k] < crds[k].len() && pos[k] < refs[k].len() by {
            assert(stream_left(crds[k], refs[k].len(), pos[k], f));
        }
    }
    lemma_first_stop_some(hs);
    lemma_first_done_some(hs);
    lemma_min_val_held(hs);
    lemma_min_val_bound(hs);
    if first_stop(hs) is Some {
        let ks = choose|k: int| 0 <= k < hs.len() && hs[k] is Stop;
        assert(stream_left(crds[ks], refs[ks].len(), pos[ks], f));
        assert(f >= 1);
        assert forall|k: int| 0 <= k < n implies !(#[trigger] hs[k] is Done) by {
            assert(stream_left(crds[k], refs[k].len(), pos[k], f));
            if hs[k] is Done {
                assert(stops_between(crds[k], crds[k].len() as int, crds[k].len() as int) == 0);
            }
        }
    }
    if !nway_finish(hs) {
        let case_c = first_stop(hs) is Some && !has_val(hs) && !all_vals_equal(hs);
        if all_vals_equal(hs) {
            assert(adv[0]);
        } else if first_stop(hs) is Some && has_val(hs) {
            let kv = choose|k: int| 0 <= k < hs.len() && (#[trigger] hs[k]) is Val;
            assert(adv[kv]);
        } else if first_stop(hs) is Some {
            assert(adv[0]);
        } else {
            assert(first_done(hs) is None);
            assert forall|k: int| 0 <= k < n implies #[trigger] hs[k] is Val by {
                if !(hs[k] is Val) {
                    assert(!(hs[k] is Stop));
                }
            }
            assert(min_val(hs) is Some) by {
                assert(hs[0] is Val);
            }
            let km = choose|k: int| 0 <= k < hs.len() && hs[k] == Token::<u32, u32>::Val(min_val(hs)->0);
            assert(adv[km]);
        }
        assert(exists|k: int| 0 <= k < adv.len() && adv[k]);
        let f2: nat = if case_c { (f - 1) as nat } else { f };
        let np = advanced(pos, adv);
        assert forall|k: int| 0 <= k < n implies #[trigger] stream_left(crds[k], refs[k].len(), np[k], f2) by {
            assert(stream_left(crds[k], refs[k].len(), pos[k], f));
            if case_c {
                assert(hs[k] is Stop);
            }
            if adv[k] {
                assert(!(hs[k] is Done));
                if !case_c {
                    assert(!(hs[k] is Stop));
                }
            }
        }
        lemma_remaining_decreases(stream_lens(crds), pos, adv);
        lemma_nway_finishes(crds, refs, np, f2);
    }
}

/// Each stream ends with its done token (holding no other) and holds no
/// empty marker, its reference stream is as long, and all hold as many stop
/// tokens as the first.
pub open spec fn nway_streams_aligned<R>(crds: Seq<Seq<Crd>>, refs: Seq<Seq<Token<R, u32>>>) -> bool {
    forall|k: int|
        0 <= k < crds.len() ==> #[trigger] stream_left(
            crds[k],
            refs[k].len(),
            0,
            stops_between(crds[0], 0, crds[0].len() as int),
        )
}

/// Every input `k` holds payload `x` at position `p[k]`, in fiber `f`, with
/// no empty marker or done token ahead of it.
pub open spec fn common_payload(crds: Seq<Seq<Crd>>, p: Seq<nat>, x: u32, f: nat) -> bool {
    &&& p.len() == crds.len()
    &&& forall|k: int| 0 <= k < crds.len() ==> #[trigger] payload_ahead(crds[k], 0, p[k], x, f)
}

/// A finished N-way intersection of sorted fibers emits every payload that
/// all inputs hold in the same fiber, with the references at those
/// positions and in that fiber.
pub open spec fn nway_complete<R>(
    crds: Seq<Seq<Crd>>,
    refs: Seq<Seq<Token<R, u32>>>,
    rows: Seq<(Crd, Seq<Token<R, u32>>)>,
    st: JoinStatus,
) -> bool {
    st is Finished && (forall|k: int| 0 <= k < crds.len() ==> fibers_sorted(#[trigger] crds[k])) ==> forall|
        p: Seq<nat>,
        x: u32,
        f: nat,
    | #[trigger] common_payload(crds, p, x, f) ==> exists|m: int| #[trigger]
        row_emitted_in_fiber(rows, m, Token::Val(x), refs_at(refs, p), f)
}

} // verus!
