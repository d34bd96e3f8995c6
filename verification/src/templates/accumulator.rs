use vstd::prelude::*;

use super::primitive::Token;
use super::stkn_dropper::DropStatus;
use super::sorted_acc::{
    acc2_entries_view, acc_view, add_into, keys_increasing, lemma_upsert_increasing, lemma_upsert_values, push_payload, upsert,
    PayloadAcc, PayloadAcc2,
};

verus! {

/// A reduced value: the sum of the payloads at input positions `lo .. hi`.
pub type Group = (usize, usize);

/// A stop token that ends a reduction for reduction depth `depth`.
pub open spec fn closes<V>(t: Token<V, u32>, depth: u32) -> bool {
    t is Stop && t->Stop_0 >= depth
}

/// The reducer from position `i`, the current group having started at
/// `lo`: payloads and empty markers are gathered, stop tokens below the
/// reduction depth are absorbed, a stop token at or above it emits the
/// group and (unless of level 0) the stop token one level lower; the done
/// token is passed on and ends the stream.
pub open spec fn reduce_run<V>(input: Seq<Token<V, u32>>, depth: u32, i: nat, lo: nat) -> (Seq<Token<Group, u32>>, DropStatus)
    decreases input.len() - i,
{
    if i >= input.len() {
        (seq![], DropStatus::Exhausted)
    } else {
        match input[i as int] {
            Token::Stop(s) => if s < depth {
                reduce_run(input, depth, i + 1, lo)
            } else {
                let (rest, st) = reduce_run(input, depth, i + 1, i + 1);
                let grp = seq![Token::Val((lo as usize, i as usize))];
                let stop = if s != 0 { seq![Token::Stop((s - 1) as u32)] } else { seq![] };
                (grp + stop + rest, st)
            },
            Token::Done => (seq![Token::Done], DropStatus::Finished),
            _ => reduce_run(input, depth, i + 1, lo),
        }
    }
}

/// Sums each fiber of a value stream (collapsing the levels below the
/// reduction depth); the sums are handed out as the ranges of input
/// positions whose payloads they add up.
pub struct Reduce {
    pub reduction_depth: u32,
}

impl Reduce {
    pub fn new(reduction_depth: u32) -> (r: Self)
        ensures
            r.reduction_depth == reduction_depth,
    {
        Reduce { reduction_depth }
    }

    pub fn run<V: Copy>(&self, in_val: &Vec<Token<V, u32>>) -> (r: (Vec<Token<Group, u32>>, DropStatus))
        ensures
            (r.0@, r.1) == reduce_run(in_val@, self.reduction_depth, 0, 0),
    {
        let depth = self.reduction_depth;
        let mut out: Vec<Token<Group, u32>> = Vec::new();
        let ghost total = reduce_run(in_val@, depth, 0, 0);
        let mut lo: usize = 0;
        let mut i: usize = 0;
        while i < in_val.len()
            invariant
                i <= in_val.len(),
                lo <= i,
                depth == self.reduction_depth,
                total == reduce_run(in_val@, depth, 0, 0),
                ({
                    let (rest, st) = reduce_run(in_val@, depth, i as nat, lo as nat);
                    total.0 == out@ + rest && total.1 == st
                }),
            decreases in_val.len() - i,
        {
            let ghost o0 = out@;
            match in_val[i] {
                Token::Stop(s) => {
                    if s >= depth {
                        let ghost lo0 = lo;
                        out.push(Token::Val((lo, i)));
                        if s != 0 {
                            out.push(Token::Stop(s - 1));
                        }
                        lo = i + 1;
                        proof {
                            let (rest, st) = reduce_run(in_val@, depth, (i + 1) as nat, (i + 1) as nat);
                            let grp = seq![Token::<Group, u32>::Val((lo0, i))];
                            let stop = if s != 0 { seq![Token::<Group, u32>::Stop((s - 1) as u32)] } else { seq![] };
                            assert(out@ =~= o0 + grp + stop);
                            assert(o0 + (grp + stop + rest) =~= out@ + rest);
                        }
                    }
                },
                Token::Done => {
                    out.push(Token::Done);
                    assert(total.0 =~= out@);
                    return (out, DropStatus::Finished);
                },
                _ => {},
            }
            i = i + 1;
        }
        assert(total.0 =~= out@);
        (out, DropStatus::Exhausted)
    }
}


/// The sum of the integer payloads at input positions `lo .. hi`.
pub open spec fn payload_sum(input: Seq<Token<u32, u32>>, lo: int, hi: int) -> int
    decreases hi - lo,
{
    if hi <= lo {
        0
    } else {
        payload_sum(input, lo, hi - 1) + (if input[hi - 1] is Val { input[hi - 1]->Val_0 as int } else { 0 })
    }
}

proof fn lemma_payload_sum_mono(input: Seq<Token<u32, u32>>, lo: int, k: int, hi: int)
    requires
        lo <= k <= hi,
    ensures
        0 <= payload_sum(input, lo, k) <= payload_sum(input, lo, hi),
    decreases hi - k,
{
    if k < hi {
        lemma_payload_sum_mono(input, lo, k, hi - 1);
    } else {
        lemma_payload_sum_nonneg(input, lo, k);
    }
}

proof fn lemma_payload_sum_nonneg(input: Seq<Token<u32, u32>>, lo: int, hi: int)
    ensures
        0 <= payload_sum(input, lo, hi),
    decreases hi - lo,
{
    if hi > lo {
        lemma_payload_sum_nonneg(input, lo, hi - 1);
    }
}

/// The reduced stream of integer payloads: each group becomes the sum of
/// its payloads; stop and done tokens pass.
pub open spec fn group_sums(groups: Seq<Token<Group, u32>>, input: Seq<Token<u32, u32>>) -> Seq<Token<u32, u32>> {
    groups.map_values(
        |g: Token<Group, u32>|
            match g {
                Token::Val(r) => Token::Val(payload_sum(input, r.0 as int, r.1 as int) as u32),
                Token::Stop(x) => Token::Stop(x),
                Token::Empty => Token::Empty,
                Token::Done => Token::Done,
            },
    )
}

/// Every sum the reducer emits for `input` fits in a `u32`.
pub open spec fn sums_fit(input: Seq<Token<u32, u32>>, depth: u32) -> bool {
    let groups = reduce_run(input, depth, 0, 0).0;
    forall|k: int|
        0 <= k < groups.len() && (#[trigger] groups[k]) is Val ==> payload_sum(input, groups[k]->Val_0.0 as int, groups[k]->Val_0.1 as int)
            <= u32::MAX
}

impl Reduce {
    /// Runs the reducer on integer payloads and adds up each group.
    pub fn run_sums(&self, in_val: &Vec<Token<u32, u32>>) -> (r: (Vec<Token<u32, u32>>, DropStatus))
        requires
            sums_fit(in_val@, self.reduction_depth),
        ensures
            r.0@ == group_sums(reduce_run(in_val@, self.reduction_depth, 0, 0).0, in_val@),
            r.1 == reduce_run(in_val@, self.reduction_depth, 0, 0).1,
    {
        let (groups, st) = self.run(in_val);
        proof {
            assert(in_val@.len() == in_val.len());
            lemma_reduce_groups_are_fibers(in_val@, self.reduction_depth, 0, 0);
        }
        let ghost gs = groups@;
        let mut out: Vec<Token<u32, u32>> = Vec::new();
        let mut j: usize = 0;
        while j < groups.len()
            invariant
                j <= gs.len(),
                gs == groups@,
                gs == reduce_run(in_val@, self.reduction_depth, 0, 0).0,
                sums_fit(in_val@, self.reduction_depth),
                forall|k: int| 0 <= k < gs.len() && (#[trigger] gs[k]) is Val ==> whole_fiber(in_val@, self.reduction_depth, gs[k]->Val_0),
                out@ == group_sums(gs.take(j as int), in_val@),
            decreases gs.len() - j,
        {
            let t = match groups[j] {
                Token::Val(g) => {
                    assert(gs[j as int] is Val);
                    assert(whole_fiber(in_val@, self.reduction_depth, g));
                    let (lo, hi) = g;
                    let mut acc: u32 = 0;
                    let mut k: usize = lo;
                    while k < hi
                        invariant
                            lo <= k <= hi,
                            hi < in_val@.len(),
                            payload_sum(in_val@, lo as int, hi as int) <= u32::MAX,
                            acc == payload_sum(in_val@, lo as int, k as int),
                        decreases hi - k,
                    {
                        proof {
                            lemma_payload_sum_mono(in_val@, lo as int, k as int + 1, hi as int);
                        }
                        match in_val[k] {
                            Token::Val(v) => {
                                acc = acc + v;
                            },
                            _ => {},
                        }
                        k = k + 1;
                    }
                    Token::Val(acc)
                },
                Token::Stop(x) => Token::Stop(x),
                Token::Empty => Token::Empty,
                Token::Done => Token::Done,
            };
            out.push(t);
            j = j + 1;
            assert(gs.take(j as int).drop_last() =~= gs.take(j as int - 1));
            assert(out@ =~= group_sums(gs.take(j as int), in_val@));
        }
        assert(gs.take(gs.len() as int) =~= gs);
        (out, st)
    }
}

/// A group of a max-reduction: the input positions `lo .. hi` whose
/// payloads it takes the maximum of, and whether the maximum starts from
/// the reducer's minimum value (the first group) or from the value type's
/// default (every later group).
pub type MaxGroup = (usize, usize, bool);

/// The max-reducer from position `i`, the current group having started at
/// `lo` (`first`: no group was emitted yet): every stop token emits the
/// group and (unless of level 0) the stop token one level lower; empty
/// markers are skipped; the done token is passed on and ends the stream.
pub open spec fn max_reduce_run<V>(input: Seq<Token<V, u32>>, i: nat, lo: nat, first: bool) -> (Seq<Token<MaxGroup, u32>>, DropStatus)
    decreases input.len() - i,
{
    if i >= input.len() {
        (seq![], DropStatus::Exhausted)
    } else {
        match input[i as int] {
            Token::Stop(s) => {
                let (rest, st) = max_reduce_run(input, i + 1, i + 1, false);
                let grp = seq![Token::Val((lo as usize, i as usize, first))];
                let stop = if s != 0 { seq![Token::Stop((s - 1) as u32)] } else { seq![] };
                (grp + stop + rest, st)
            },
            Token::Done => (seq![Token::Done], DropStatus::Finished),
            _ => max_reduce_run(input, i + 1, lo, first),
        }
    }
}

/// Takes the maximum of each fiber of a value stream; the maxima are handed
/// out as the groups of input positions they are taken over.
pub struct MaxReduce;

impl MaxReduce {
    pub fn new() -> Self {
        MaxReduce
    }

    pub fn run<V: Copy>(&self, in_val: &Vec<Token<V, u32>>) -> (r: (Vec<Token<MaxGroup, u32>>, DropStatus))
        ensures
            (r.0@, r.1) == max_reduce_run(in_val@, 0, 0, true),
    {
        let mut out: Vec<Token<MaxGroup, u32>> = Vec::new();
        let ghost total = max_reduce_run(in_val@, 0, 0, true);
        let mut lo: usize = 0;
        let mut first = true;
        let mut i: usize = 0;
        while i < in_val.len()
            invariant
                i <= in_val.len(),
                lo <= i,
                total == max_reduce_run(in_val@, 0, 0, true),
                ({
                    let (rest, st) = max_reduce_run(in_val@, i as nat, lo as nat, first);
                    total.0 == out@ + rest && total.1 == st
                }),
            decreases in_val.len() - i,
        {
            let ghost o0 = out@;
            match in_val[i] {
                Token::Stop(s) => {
                    let ghost lo0 = lo;
                    let ghost f0 = first;
                    out.push(Token::Val((lo, i, first)));
                    if s != 0 {
                        out.push(Token::Stop(s - 1));
                    }
                    lo = i + 1;
                    first = false;
                    proof {
                        let (rest, st) = max_reduce_run(in_val@, (i + 1) as nat, (i + 1) as nat, false);
                        let grp = seq![Token::<MaxGroup, u32>::Val((lo0, i, f0))];
                        let stop = if s != 0 { seq![Token::<MaxGroup, u32>::Stop((s - 1) as u32)] } else { seq![] };
                        assert(out@ =~= o0 + grp + stop);
                        assert(o0 + (grp + stop + rest) =~= out@ + rest);
                    }
                },
                Token::Done => {
                    out.push(Token::Done);
                    assert(total.0 =~= out@);
                    return (out, DropStatus::Finished);
                },
                _ => {},
            }
            i = i + 1;
        }
        assert(total.0 =~= out@);
        (out, DropStatus::Exhausted)
    }
}

/// `g` is a whole reduction fiber: it ends at a closing stop token, holds no
/// closing stop token, and starts at the stream's start or right after a
/// closing stop token.
pub open spec fn whole_fiber<V>(input: Seq<Token<V, u32>>, depth: u32, g: Group) -> bool {
    &&& g.0 <= g.1 < input.len()
    &&& closes(input[g.1 as int], depth)
    &&& forall|k: int| g.0 <= k < g.1 ==> !closes(#[trigger] input[k], depth)
    &&& g.0 == 0 || closes(input[g.0 - 1], depth)
}

/// Law: every sum a reducer emits covers exactly one whole reduction
/// fiber of its input.
pub proof fn lemma_reduce_groups_are_fibers<V>(input: Seq<Token<V, u32>>, depth: u32, i: nat, lo: nat)
    requires
        input.len() <= usize::MAX,
        lo <= i <= input.len(),
        forall|k: int| lo <= k < i ==> !closes(#[trigger] input[k], depth),
        lo == 0 || closes(input[lo - 1], depth),
    ensures
        forall|k: int|
            0 <= k < reduce_run(input, depth, i, lo).0.len() && (#[trigger] reduce_run(input, depth, i, lo).0[k]) is Val
                ==> whole_fiber(input, depth, reduce_run(input, depth, i, lo).0[k]->Val_0),
    decreases input.len() - i,
{
    if i < input.len() {
        match input[i as int] {
            Token::Stop(s) => {
                if s < depth {
                    lemma_reduce_groups_are_fibers(input, depth, i + 1, lo);
                } else {
                    lemma_reduce_groups_are_fibers(input, depth, i + 1, i + 1);
                    let (rest, st) = reduce_run(input, depth, i + 1, i + 1);
                    let grp = seq![Token::<Group, u32>::Val((lo as usize, i as usize))];
                    let stop = if s != 0 { seq![Token::<Group, u32>::Stop((s - 1) as u32)] } else { seq![] };
                    let o = grp + stop + rest;
                    assert(whole_fiber(input, depth, (lo as usize, i as usize)));
                    assert forall|k: int| 0 <= k < o.len() && (#[trigger] o[k]) is Val implies whole_fiber(input, depth, o[k]->Val_0) by {
                        if k >= grp.len() + stop.len() {
                            assert(o[k] == rest[k - grp.len() - stop.len()]);
                        } else if k == 0 {
                            assert(o[k] == grp[0]);
                        } else {
                            assert(o[k] == stop[k - 1]);
                        }
                    }
                }
            },
            Token::Done => {},
            _ => {
                lemma_reduce_groups_are_fibers(input, depth, i + 1, lo);
            },
        }
    }
}
} // verus!

verus! {

/// The coordinate stream type of the sparse accumulators.
pub type Crd = Token<u32, u32>;

/// A stream token whose payload is a list of values, as seen by the
/// specifications.
pub open spec fn list_tok_view<V>(t: Token<Vec<V>, u32>) -> Token<Seq<V>, u32> {
    match t {
        Token::Val(v) => Token::Val(v@),
        Token::Stop(s) => Token::Stop(s),
        Token::Empty => Token::Empty,
        Token::Done => Token::Done,
    }
}

pub open spec fn list_stream_view<V>(s: Seq<Token<Vec<V>, u32>>) -> Seq<Token<Seq<V>, u32>> {
    s.map_values(|t: Token<Vec<V>, u32>| list_tok_view(t))
}

proof fn lemma_list_view_push<V>(s: Seq<Token<Vec<V>, u32>>, t: Token<Vec<V>, u32>)
    ensures
        list_stream_view(s.push(t)) == list_stream_view(s).push(list_tok_view(t)),
{
    assert(list_stream_view(s.push(t)) =~= list_stream_view(s).push(list_tok_view(t)));
}

/// Two heads of the same kind (both payloads, both stops, both empty or
/// both done).
pub open spec fn same_kind<A, B>(a: Token<A, u32>, b: Token<B, u32>) -> bool {
    (a is Val && b is Val) || (a is Stop && b is Stop) || (a is Empty && b is Empty) || (a is Done && b is Done)
}

/// The coordinates of an accumulator, in its order.
pub open spec fn flush_crds<T>(acc: Seq<(u32, T)>) -> Seq<Crd> {
    Seq::new(acc.len(), |i: int| Token::Val(acc[i].0))
}

/// The payload lists of an accumulator, in its order.
pub open spec fn flush_vals<V>(acc: Seq<(u32, Seq<V>)>) -> Seq<Token<Seq<V>, u32>> {
    Seq::new(acc.len(), |i: int| Token::Val(acc[i].1))
}

/// The one-level sparse accumulator on an outer coordinate stream `oc`, an
/// inner coordinate stream `ic` and a value stream `vs`, from positions
/// `io`, `ii`, `iv` with accumulator `acc`.  Under an outer coordinate each
/// inner coordinate collects its value; an inner stop closes the outer
/// coordinate.  An outer stop at or above the reduction depth emits every
/// accumulated coordinate in increasing order with its collected values,
/// then the stop itself, and empties the accumulator; a stop below the
/// depth is only consumed.  The inner stop that closed the last fiber is
/// consumed with it when the next outer token is the stop one level lower.
/// The outer done token drains the inner streams up to their done tokens.
pub open spec fn spacc1_run<V>(
    oc: Seq<Crd>,
    ic: Seq<Crd>,
    vs: Seq<Token<V, u32>>,
    depth: u32,
    io: nat,
    ii: nat,
    iv: nat,
    acc: Seq<(u32, Seq<V>)>,
) -> (Seq<Crd>, Seq<Token<Seq<V>, u32>>, DropStatus)
    decreases (oc.len() - io) + (ic.len() - ii) + (vs.len() - iv),
{
    if !(io < oc.len() && ii < ic.len() && iv < vs.len()) {
        (seq![], seq![], DropStatus::Exhausted)
    } else {
        let o = oc[io as int];
        let c = ic[ii as int];
        let v = vs[iv as int];
        if !same_kind(c, v) {
            (seq![], seq![], DropStatus::Fault)
        } else {
            match o {
                Token::Val(_) => match v {
                    Token::Val(x) => spacc1_run(
                        oc,
                        ic,
                        vs,
                        depth,
                        io,
                        ii + 1,
                        iv + 1,
                        upsert(acc, c->Val_0, seq![x], push_payload(x)),
                    ),
                    Token::Stop(s) => if c->Stop_0 == s {
                        spacc1_run(oc, ic, vs, depth, io + 1, ii + 1, iv + 1, acc)
                    } else {
                        (seq![], seq![], DropStatus::Fault)
                    },
                    _ => (seq![], seq![], DropStatus::Fault),
                },
                Token::Stop(s) => if s < depth {
                    spacc1_run(oc, ic, vs, depth, io + 1, ii, iv, acc)
                } else {
                    let fc = flush_crds(acc).push(Token::Stop(s));
                    let fv = flush_vals(acc).push(Token::Stop(s));
                    let (rc, rv, st) = if c is Stop {
                        if io + 1 < oc.len() {
                            match oc[io + 1 as int] {
                                Token::Stop(os) => if c->Stop_0 == os + 1 {
                                    spacc1_run(oc, ic, vs, depth, io + 1, ii + 1, iv + 1, seq![])
                                } else {
                                    spacc1_run(oc, ic, vs, depth, io + 1, ii, iv, seq![])
                                },
                                _ => if c->Stop_0 == 0 {
                                    spacc1_run(oc, ic, vs, depth, io + 1, ii, iv, seq![])
                                } else {
                                    (seq![], seq![], DropStatus::Fault)
                                },
                            }
                        } else {
                            (seq![], seq![], DropStatus::Exhausted)
                        }
                    } else {
                        spacc1_run(oc, ic, vs, depth, io + 1, ii, iv, seq![])
                    };
                    (fc + rc, fv + rv, st)
                },
                Token::Done => if c is Done {
                    (seq![Token::Done], seq![Token::Done], DropStatus::Finished)
                } else {
                    spacc1_run(oc, ic, vs, depth, io, ii + 1, iv + 1, acc)
                },
                Token::Empty => (seq![], seq![], DropStatus::Fault),
            }
        }
    }
}

/// Emits every entry of the accumulator (coordinates and collected values)
/// and leaves it empty.
fn flush_acc<V>(acc: &mut Vec<(u32, Vec<V>)>, out_crd: &mut Vec<Crd>, out_val: &mut Vec<Token<Vec<V>, u32>>)
    ensures
        final(acc)@.len() == 0,
        final(out_crd)@ == old(out_crd)@ + flush_crds(acc_view(old(acc)@)),
        list_stream_view(final(out_val)@) == list_stream_view(old(out_val)@) + flush_vals(acc_view(old(acc)@)),
{
    let ghost a0 = acc_view(acc@);
    let ghost c0 = out_crd@;
    let ghost v0 = list_stream_view(out_val@);
    while acc.len() > 0
        invariant
            acc_view(acc@) == a0.skip(a0.len() - acc@.len()),
            acc@.len() <= a0.len(),
            out_crd@ == c0 + flush_crds(a0).take(a0.len() - acc@.len()),
            list_stream_view(out_val@) == v0 + flush_vals(a0).take(a0.len() - acc@.len()),
        decreases acc@.len(),
    {
        let ghost m = a0.len() - acc@.len();
        let ghost before = acc@;
        let (k, vals) = acc.remove(0);
        proof {
            assert(acc_view(before)[0] == a0[m]);
        }
        out_crd.push(Token::Val(k));
        let ghost ov = out_val@;
        out_val.push(Token::Val(vals));
        proof {
            lemma_list_view_push(ov, Token::Val(vals));
            assert(acc_view(acc@) =~= a0.skip(m + 1)) by {
                assert forall|i: int| 0 <= i < acc@.len() implies acc_view(acc@)[i] == a0.skip(m + 1)[i] by {
                    assert(acc@[i] == before[i + 1]);
                    assert(acc_view(before)[i + 1] == a0.skip(m)[i + 1]);
                }
            }
            assert(out_crd@ =~= c0 + flush_crds(a0).take(m + 1));
            assert(list_stream_view(out_val@) =~= v0 + flush_vals(a0).take(m + 1));
        }
    }
    assert(flush_crds(a0).take(a0.len() as int) =~= flush_crds(a0));
    assert(flush_vals(a0).take(a0.len() as int) =~= flush_vals(a0));
}

/// Sparse accumulator of one level: sums the values of each inner
/// coordinate across the fibers of an outer level and emits the sums in
/// coordinate order.  Each sum is handed out as the list of values it adds
/// up, in input order.
pub struct Spacc1 {
    pub reduction_depth: u32,
}

impl Spacc1 {
    pub fn new(reduction_depth: u32) -> (r: Self)
        ensures
            r.reduction_depth == reduction_depth,
    {
        Spacc1 { reduction_depth }
    }

    pub fn run<V: Copy>(&self, in_crd_outer: &Vec<Crd>, in_crd_inner: &Vec<Crd>, in_val: &Vec<Token<V, u32>>) -> (r: (
        Vec<Crd>,
        Vec<Token<Vec<V>, u32>>,
        DropStatus,
    ))
        ensures
            (r.0@, list_stream_view(r.1@), r.2) == spacc1_run(
                in_crd_outer@,
                in_crd_inner@,
                in_val@,
                self.reduction_depth,
                0,
                0,
                0,
                seq![],
            ),
            fibers_increasing(r.0@),
    {
        proof {
            lemma_spacc1_fibers_increasing(in_crd_outer@, in_crd_inner@, in_val@, self.reduction_depth, 0, 0, 0, seq![]);
        }
        let depth = self.reduction_depth;
        let ghost oc = in_crd_outer@;
        let ghost ic = in_crd_inner@;
        let ghost vs = in_val@;
        let ghost total = spacc1_run(oc, ic, vs, depth, 0, 0, 0, seq![]);
        let mut out_crd: Vec<Crd> = Vec::new();
        let mut out_val: Vec<Token<Vec<V>, u32>> = Vec::new();
        let mut acc: PayloadAcc<V> = PayloadAcc::new();
        let mut io: usize = 0;
        let mut ii: usize = 0;
        let mut iv: usize = 0;
        loop
            invariant
                io <= oc.len(),
                ii <= ic.len(),
                iv <= vs.len(),
                oc == in_crd_outer@,
                ic == in_crd_inner@,
                vs == in_val@,
                depth == self.reduction_depth,
                total == spacc1_run(oc, ic, vs, depth, 0, 0, 0, seq![]),
                fibers_increasing(total.0),
                acc.wf(),
                ({
                    let (rc, rv, st) = spacc1_run(oc, ic, vs, depth, io as nat, ii as nat, iv as nat, acc@);
                    total.0 == out_crd@ + rc && total.1 == list_stream_view(out_val@) + rv && total.2 == st
                }),
            decreases (oc.len() - io) + (ic.len() - ii) + (vs.len() - iv),
        {
            let ghost c0 = out_crd@;
            let ghost v0 = list_stream_view(out_val@);
            if !(io < in_crd_outer.len() && ii < in_crd_inner.len() && iv < in_val.len()) {
                assert(total.0 =~= out_crd@);
                assert(total.1 =~= list_stream_view(out_val@));
                return (out_crd, out_val, DropStatus::Exhausted);
            }
            let o = in_crd_outer[io];
            let c = in_crd_inner[ii];
            let v = in_val[iv];
            let kinds_match = match (c, v) {
                (Token::Val(_), Token::Val(_)) => true,
                (Token::Stop(_), Token::Stop(_)) => true,
                (Token::Empty, Token::Empty) => true,
                (Token::Done, Token::Done) => true,
                _ => false,
            };
            if !kinds_match {
                assert(total.0 =~= out_crd@);
                assert(total.1 =~= list_stream_view(out_val@));
                return (out_crd, out_val, DropStatus::Fault);
            }
            match o {
                Token::Val(_) => {
                    match v {
                        Token::Val(x) => {
                            let k = match c {
                                Token::Val(k) => k,
                                _ => 0,
                            };
                            acc.add(k, x);
                            ii = ii + 1;
                            iv = iv + 1;
                        },
                        Token::Stop(s) => {
                            let cs = match c {
                                Token::Stop(cs) => cs,
                                _ => 0,
                            };
                            if cs != s {
                                assert(total.0 =~= out_crd@);
                                assert(total.1 =~= list_stream_view(out_val@));
                                return (out_crd, out_val, DropStatus::Fault);
                            }
                            io = io + 1;
                            ii = ii + 1;
                            iv = iv + 1;
                        },
                        _ => {
                            assert(total.0 =~= out_crd@);
                            assert(total.1 =~= list_stream_view(out_val@));
                            return (out_crd, out_val, DropStatus::Fault);
                        },
                    }
                    assert(out_crd@ =~= c0);
                    assert(list_stream_view(out_val@) =~= v0);
                },
                Token::Stop(s) => {
                    if s < depth {
                        io = io + 1;
                        assert(out_crd@ =~= c0);
                        assert(list_stream_view(out_val@) =~= v0);
                    } else {
                        let ghost a0 = acc@;
                        let mut entries = acc.drain();
                        flush_acc(&mut entries, &mut out_crd, &mut out_val);
                        out_crd.push(Token::Stop(s));
                        let ghost ov = out_val@;
                        out_val.push(Token::Stop(s));
                        proof {
                            lemma_list_view_push(ov, Token::Stop(s));
                        }
                        let ghost fc = flush_crds(a0).push(Token::Stop(s));
                        let ghost fv = flush_vals(a0).push(Token::Stop(s));
                        assert(out_crd@ =~= c0 + fc);
                        assert(list_stream_view(out_val@) =~= v0 + fv);
                        assert(acc@ =~= seq![]);
                        let mut fault = false;
                        let mut exhausted = false;
                        match c {
                            Token::Stop(inner) => {
                                if io + 1 < in_crd_outer.len() {
                                    match in_crd_outer[io + 1] {
                                        Token::Stop(os) => {
                                            if inner > 0 && inner - 1 == os {
                                                ii = ii + 1;
                                                iv = iv + 1;
                                            }
                                        },
                                        _ => {
                                            if inner != 0 {
                                                fault = true;
                                            }
                                        },
                                    }
                                } else {
                                    exhausted = true;
                                }
                            },
                            _ => {},
                        }
                        io = io + 1;
                        if fault {
                            assert(total.0 =~= out_crd@);
                            assert(total.1 =~= list_stream_view(out_val@));
                            return (out_crd, out_val, DropStatus::Fault);
                        }
                        if exhausted {
                            assert(total.0 =~= out_crd@);
                            assert(total.1 =~= list_stream_view(out_val@));
                            return (out_crd, out_val, DropStatus::Exhausted);
                        }
                        proof {
                            let (rc, rv, st) = spacc1_run(oc, ic, vs, depth, io as nat, ii as nat, iv as nat, seq![]);
                            assert(c0 + (fc + rc) =~= out_crd@ + rc);
                            assert(v0 + (fv + rv) =~= list_stream_view(out_val@) + rv);
                        }
                    }
                },
                Token::Done => {
                    match c {
                        Token::Done => {
                            out_crd.push(Token::Done);
                            let ghost ov = out_val@;
                            out_val.push(Token::Done);
                            proof {
                                lemma_list_view_push(ov, Token::Done);
                            }
                            assert(total.0 =~= out_crd@);
                            assert(total.1 =~= list_stream_view(out_val@));
                            return (out_crd, out_val, DropStatus::Finished);
                        },
                        _ => {
                            ii = ii + 1;
                            iv = iv + 1;
                            assert(out_crd@ =~= c0);
                            assert(list_stream_view(out_val@) =~= v0);
                        },
                    }
                },
                Token::Empty => {
                    assert(total.0 =~= out_crd@);
                    assert(total.1 =~= list_stream_view(out_val@));
                    return (out_crd, out_val, DropStatus::Fault);
                },
            }
        }
    }
}

/// Within each fiber of a coordinate stream, the coordinates strictly
/// increase.
pub open spec fn fibers_increasing(out: Seq<Crd>) -> bool {
    forall|i: int|
        0 <= i < out.len() - 1 && (#[trigger] out[i]) is Val && out[i + 1] is Val ==> out[i]->Val_0 < out[i + 1]->Val_0
}

proof fn lemma_fibers_concat(a: Seq<Crd>, b: Seq<Crd>)
    requires
        fibers_increasing(a),
        fibers_increasing(b),
        a.len() == 0 || !(a.last() is Val),
    ensures
        fibers_increasing(a + b),
{
    let ab = a + b;
    assert forall|i: int| 0 <= i < ab.len() - 1 && (#[trigger] ab[i]) is Val && ab[i + 1] is Val implies ab[i]->Val_0 < ab[i + 1]->Val_0 by {
        if i + 1 < a.len() {
            assert(ab[i] == a[i] && ab[i + 1] == a[i + 1]);
        } else if i >= a.len() {
            assert(ab[i] == b[i - a.len()] && ab[i + 1] == b[i + 1 - a.len()]);
        } else {
            assert(ab[i] == a.last());
        }
    }
}

proof fn lemma_flush_increasing<T>(acc: Seq<(u32, T)>, s: u32)
    requires
        keys_increasing(acc),
    ensures
        fibers_increasing(flush_crds(acc).push(Token::Stop(s))),
{
    let f = flush_crds(acc).push(Token::Stop(s));
    assert forall|i: int| 0 <= i < f.len() - 1 && (#[trigger] f[i]) is Val && f[i + 1] is Val implies f[i]->Val_0 < f[i + 1]->Val_0 by {
        assert(f[i] == Token::<u32, u32>::Val(acc[i].0));
        assert(f[i + 1] == Token::<u32, u32>::Val(acc[i + 1].0));
    }
}

/// Law: the one-level sparse accumulator emits the coordinates of each
/// output fiber in strictly increasing order (each coordinate once).
#[verifier::spinoff_prover]
pub proof fn lemma_spacc1_fibers_increasing<V>(
    oc: Seq<Crd>,
    ic: Seq<Crd>,
    vs: Seq<Token<V, u32>>,
    depth: u32,
    io: nat,
    ii: nat,
    iv: nat,
    acc: Seq<(u32, Seq<V>)>,
)
    requires
        keys_increasing(acc),
    ensures
        fibers_increasing(spacc1_run(oc, ic, vs, depth, io, ii, iv, acc).0),
    decreases (oc.len() - io) + (ic.len() - ii) + (vs.len() - iv),
{
    let empty: Seq<(u32, Seq<V>)> = seq![];
    if io < oc.len() && ii < ic.len() && iv < vs.len() && same_kind(ic[ii as int], vs[iv as int]) {
        let c = ic[ii as int];
        match oc[io as int] {
            Token::Val(_) => match vs[iv as int] {
                Token::Val(x) => {
                    lemma_upsert_increasing(acc, c->Val_0, seq![x], push_payload(x));
                    lemma_spacc1_fibers_increasing(oc, ic, vs, depth, io, ii + 1, iv + 1, upsert(acc, c->Val_0, seq![x], push_payload(x)));
                },
                Token::Stop(s) => {
                    if c->Stop_0 == s {
                        lemma_spacc1_fibers_increasing(oc, ic, vs, depth, io + 1, ii + 1, iv + 1, acc);
                    }
                },
                _ => {},
            },
            Token::Stop(s) => {
                if s < depth {
                    lemma_spacc1_fibers_increasing(oc, ic, vs, depth, io + 1, ii, iv, acc);
                } else {
                    lemma_flush_increasing(acc, s);
                    lemma_spacc1_fibers_increasing(oc, ic, vs, depth, io + 1, ii, iv, empty);
                    lemma_spacc1_fibers_increasing(oc, ic, vs, depth, io + 1, ii + 1, iv + 1, empty);
                    let fc = flush_crds(acc).push(Token::Stop(s));
                    let rc = spacc1_run(oc, ic, vs, depth, io, ii, iv, acc).0.skip(fc.len() as int);
                    assert(spacc1_run(oc, ic, vs, depth, io, ii, iv, acc).0 =~= fc + rc);
                    assert(fibers_increasing(rc)) by {
                        let e: Seq<Crd> = seq![];
                        assert(fibers_increasing(e));
                    }
                    lemma_fibers_concat(fc, rc);
                }
            },
            Token::Done => {
                if !(c is Done) {
                    lemma_spacc1_fibers_increasing(oc, ic, vs, depth, io, ii + 1, iv + 1, acc);
                }
            },
            _ => {},
        }
    }
}

/// The stop token that closes the inner fiber of entry `i` of a two-level
/// flush: level 0, but one level above the outer stop `s` for the last
/// entry.
pub open spec fn inner_close<T>(acc: Seq<T>, i: int, s: u32) -> Crd {
    if i == acc.len() - 1 { Token::Stop((s + 1) as u32) } else { Token::Stop(0) }
}

/// The inner coordinate stream of a two-level flush: for each outer entry
/// its inner coordinates, closed by a stop token.
pub open spec fn flush2_crd0<V>(acc: Seq<(u32, Seq<(u32, Seq<V>)>)>, s: u32) -> Seq<Crd>
    decreases acc.len(),
{
    if acc.len() == 0 {
        seq![]
    } else {
        flush_crds(acc[0].1).push(inner_close(acc, 0, s)) + flush2_crd0(acc.drop_first(), s)
    }
}

/// The value stream of a two-level flush, shaped like `flush2_crd0`.
pub open spec fn flush2_val<V>(acc: Seq<(u32, Seq<(u32, Seq<V>)>)>, s: u32) -> Seq<Token<Seq<V>, u32>>
    decreases acc.len(),
{
    if acc.len() == 0 {
        seq![]
    } else {
        flush_vals(acc[0].1).push(match inner_close(acc, 0, s) {
            Token::Stop(l) => Token::Stop(l),
            _ => Token::Empty,
        }) + flush2_val(acc.drop_first(), s)
    }
}

/// The two-level sparse accumulator on coordinate streams `c2` (outermost),
/// `c1`, `c0` (innermost) and value stream `vs`, from positions `i2`, `i1`,
/// `i0`, `iv` with accumulator `acc`: returns the inner coordinate stream,
/// the outer coordinate stream, the value stream and the status.  Under a
/// coordinate of `c2` and one of `c1`, each coordinate of `c0` collects its
/// value under the pair; stops of `c0` close the `c1` coordinate, stops of
/// `c1` close the `c2` coordinate.  A stop of `c2` emits the accumulator in
/// coordinate order (outer coordinates on one stream, inner coordinates and
/// their values on the others, each inner fiber closed by a stop) and
/// empties it.
pub open spec fn spacc2_run<V>(
    c2: Seq<Crd>,
    c1: Seq<Crd>,
    c0: Seq<Crd>,
    vs: Seq<Token<V, u32>>,
    i2: nat,
    i1: nat,
    i0: nat,
    iv: nat,
    acc: Seq<(u32, Seq<(u32, Seq<V>)>)>,
) -> (Seq<Crd>, Seq<Crd>, Seq<Token<Seq<V>, u32>>, DropStatus)
    decreases (c2.len() - i2) + (c1.len() - i1) + (c0.len() - i0) + (vs.len() - iv),
{
    if !(i2 < c2.len() && i1 < c1.len() && i0 < c0.len() && iv < vs.len()) {
        (seq![], seq![], seq![], DropStatus::Exhausted)
    } else {
        let b = c1[i1 as int];
        let c = c0[i0 as int];
        let v = vs[iv as int];
        if !same_kind(c, v) {
            (seq![], seq![], seq![], DropStatus::Fault)
        } else {
            match c2[i2 as int] {
                Token::Val(_) => match b {
                    Token::Val(k1) => match v {
                        Token::Val(x) => spacc2_run(
                            c2,
                            c1,
                            c0,
                            vs,
                            i2,
                            i1,
                            i0 + 1,
                            iv + 1,
                            upsert(acc, k1, seq![(c->Val_0, seq![x])], add_into(c->Val_0, x)),
                        ),
                        Token::Stop(_) => spacc2_run(c2, c1, c0, vs, i2, i1 + 1, i0 + 1, iv + 1, acc),
                        _ => (seq![], seq![], seq![], DropStatus::Fault),
                    },
                    Token::Stop(_) => spacc2_run(c2, c1, c0, vs, i2 + 1, i1 + 1, i0, iv, acc),
                    _ => (seq![], seq![], seq![], DropStatus::Fault),
                },
                Token::Stop(s) => if acc.len() > 0 && s == u32::MAX {
                    (seq![], seq![], seq![], DropStatus::Fault)
                } else {
                    let (r0, r1, rv, st) = spacc2_run(c2, c1, c0, vs, i2 + 1, i1, i0, iv, seq![]);
                    (
                        flush2_crd0(acc, s) + r0,
                        flush_crds(acc).push(Token::Stop(s)) + r1,
                        flush2_val(acc, s) + rv,
                        st,
                    )
                },
                Token::Done => match b {
                    Token::Stop(_) => spacc2_run(c2, c1, c0, vs, i2, i1 + 1, i0, iv, acc),
                    Token::Done => if c is Done {
                        (seq![Token::Done], seq![Token::Done], seq![Token::Done], DropStatus::Finished)
                    } else {
                        (seq![], seq![], seq![], DropStatus::Fault)
                    },
                    _ => (seq![], seq![], seq![], DropStatus::Fault),
                },
                Token::Empty => (seq![], seq![], seq![], DropStatus::Fault),
            }
        }
    }
}

/// Emits every entry of a two-level accumulator and leaves it empty.
fn flush_acc2<V>(
    acc: &mut Vec<(u32, PayloadAcc<V>)>,
    s: u32,
    out_crd0: &mut Vec<Crd>,
    out_crd1: &mut Vec<Crd>,
    out_val: &mut Vec<Token<Vec<V>, u32>>,
)
    requires
        old(acc)@.len() > 0 ==> s < u32::MAX,
        forall|i: int| 0 <= i < old(acc)@.len() ==> (#[trigger] old(acc)@[i]).1.wf(),
    ensures
        final(acc)@.len() == 0,
        final(out_crd0)@ == old(out_crd0)@ + flush2_crd0(acc2_entries_view(old(acc)@), s),
        final(out_crd1)@ == old(out_crd1)@ + flush_crds(acc2_entries_view(old(acc)@)),
        list_stream_view(final(out_val)@) == list_stream_view(old(out_val)@) + flush2_val(acc2_entries_view(old(acc)@), s),
{
    let ghost a0 = acc2_entries_view(acc@);
    let ghost d0 = out_crd0@;
    let ghost d1 = out_crd1@;
    let ghost v0 = list_stream_view(out_val@);
    while acc.len() > 0
        invariant
            acc2_entries_view(acc@) == a0.skip(a0.len() - acc@.len()),
            acc@.len() <= a0.len(),
            a0.len() > 0 ==> s < u32::MAX,
            forall|i: int| 0 <= i < acc@.len() ==> (#[trigger] acc@[i]).1.wf(),
            out_crd1@ == d1 + flush_crds(a0).take(a0.len() - acc@.len()),
            d0 + flush2_crd0(a0, s) == out_crd0@ + flush2_crd0(acc2_entries_view(acc@), s),
            v0 + flush2_val(a0, s) == list_stream_view(out_val@) + flush2_val(acc2_entries_view(acc@), s),
        decreases acc@.len(),
    {
        let ghost m = a0.len() - acc@.len();
        let ghost before = acc@;
        let ghost cur = acc2_entries_view(before);
        let ghost oc0 = out_crd0@;
        let ghost ov0 = list_stream_view(out_val@);
        let (k1, mut inner) = acc.remove(0);
        proof {
            assert(cur[0] == a0[m]);
            assert(cur[0] == (k1, inner@));
            assert(acc2_entries_view(acc@) =~= cur.drop_first());
            assert(acc2_entries_view(acc@) =~= a0.skip(m + 1));
        }
        out_crd1.push(Token::Val(k1));
        let mut inner_entries = inner.drain();
        flush_acc(&mut inner_entries, out_crd0, out_val);
        let last = acc.len() == 0;
        let close: Crd = if last { Token::Stop(s + 1) } else { Token::Stop(0) };
        out_crd0.push(close);
        let ghost ov = out_val@;
        let vclose: Token<Vec<V>, u32> = if last { Token::Stop(s + 1) } else { Token::Stop(0) };
        out_val.push(vclose);
        proof {
            lemma_list_view_push(ov, vclose);
            assert(close == inner_close(cur, 0, s));
            assert(out_crd0@ =~= oc0 + flush_crds(cur[0].1).push(inner_close(cur, 0, s)));
            assert(list_stream_view(out_val@) =~= ov0 + flush_vals(cur[0].1).push(match inner_close(cur, 0, s) {
                Token::Stop(l) => Token::Stop(l),
                _ => Token::Empty,
            }));
            assert(out_crd1@ =~= d1 + flush_crds(a0).take(m + 1));
        }
    }
    assert(flush_crds(a0).take(a0.len() as int) =~= flush_crds(a0));
    assert(flush2_crd0(acc2_entries_view(acc@), s) =~= seq![]);
    assert(flush2_val(acc2_entries_view(acc@), s) =~= seq![]);
    assert(out_crd0@ =~= d0 + flush2_crd0(a0, s));
    assert(list_stream_view(out_val@) =~= v0 + flush2_val(a0, s));
}

/// Sparse accumulator of two levels: sums the values of each pair of
/// coordinates (outer, inner) across the fibers of the outermost level and
/// emits the sums in coordinate order.  Each sum is handed out as the list
/// of values it adds up, in input order.
pub struct Spacc2 {
    pub reduction_depth: u32,
}

impl Spacc2 {
    pub fn new(reduction_depth: u32) -> (r: Self)
        ensures
            r.reduction_depth == reduction_depth,
    {
        Spacc2 { reduction_depth }
    }

    /// Returns the inner coordinate stream, the outer coordinate stream, the
    /// value stream and the status.
    pub fn run<V: Copy>(
        &self,
        in_crd2: &Vec<Crd>,
        in_crd1: &Vec<Crd>,
        in_crd0: &Vec<Crd>,
        in_val: &Vec<Token<V, u32>>,
    ) -> (r: (Vec<Crd>, Vec<Crd>, Vec<Token<Vec<V>, u32>>, DropStatus))
        ensures
            (r.0@, r.1@, list_stream_view(r.2@), r.3) == spacc2_run(
                in_crd2@,
                in_crd1@,
                in_crd0@,
                in_val@,
                0,
                0,
                0,
                0,
                seq![],
            ),
            fibers_increasing(r.0@),
            fibers_increasing(r.1@),
    {
        proof {
            lemma_spacc2_fibers_increasing(in_crd2@, in_crd1@, in_crd0@, in_val@, 0, 0, 0, 0, seq![]);
        }
        let ghost c2 = in_crd2@;
        let ghost c1 = in_crd1@;
        let ghost c0 = in_crd0@;
        let ghost vs = in_val@;
        let ghost total = spacc2_run(c2, c1, c0, vs, 0, 0, 0, 0, seq![]);
        let mut out0: Vec<Crd> = Vec::new();
        let mut out1: Vec<Crd> = Vec::new();
        let mut outv: Vec<Token<Vec<V>, u32>> = Vec::new();
        let mut acc: PayloadAcc2<V> = PayloadAcc2::new();
        let mut i2: usize = 0;
        let mut i1: usize = 0;
        let mut i0: usize = 0;
        let mut iv: usize = 0;
        loop
            invariant
                acc.wf(),
                i2 <= c2.len(),
                i1 <= c1.len(),
                i0 <= c0.len(),
                iv <= vs.len(),
                c2 == in_crd2@,
                c1 == in_crd1@,
                c0 == in_crd0@,
                vs == in_val@,
                total == spacc2_run(c2, c1, c0, vs, 0, 0, 0, 0, seq![]),
                fibers_increasing(total.0),
                fibers_increasing(total.1),
                ({
                    let (r0, r1, rv, st) = spacc2_run(c2, c1, c0, vs, i2 as nat, i1 as nat, i0 as nat, iv as nat, acc@);
                    total.0 == out0@ + r0 && total.1 == out1@ + r1 && total.2 == list_stream_view(outv@) + rv && total.3 == st
                }),
            decreases (c2.len() - i2) + (c1.len() - i1) + (c0.len() - i0) + (vs.len() - iv),
        {
            let ghost o0 = out0@;
            let ghost o1 = out1@;
            let ghost ov = list_stream_view(outv@);
            if !(i2 < in_crd2.len() && i1 < in_crd1.len() && i0 < in_crd0.len() && iv < in_val.len()) {
                assert(total.0 =~= out0@ && total.1 =~= out1@ && total.2 =~= list_stream_view(outv@));
                return (out0, out1, outv, DropStatus::Exhausted);
            }
            let b = in_crd1[i1];
            let c = in_crd0[i0];
            let v = in_val[iv];
            let kinds_match = match (c, v) {
                (Token::Val(_), Token::Val(_)) => true,
                (Token::Stop(_), Token::Stop(_)) => true,
                (Token::Empty, Token::Empty) => true,
                (Token::Done, Token::Done) => true,
                _ => false,
            };
            if !kinds_match {
                assert(total.0 =~= out0@ && total.1 =~= out1@ && total.2 =~= list_stream_view(outv@));
                return (out0, out1, outv, DropStatus::Fault);
            }
            let mut fault = false;
            match in_crd2[i2] {
                Token::Val(_) => {
                    match b {
                        Token::Val(k1) => {
                            match v {
                                Token::Val(x) => {
                                    let k0 = match c {
                                        Token::Val(k0) => k0,
                                        _ => 0,
                                    };
                                    acc.add(k1, k0, x);
                                    i0 = i0 + 1;
                                    iv = iv + 1;
                                },
                                Token::Stop(_) => {
                                    i1 = i1 + 1;
                                    i0 = i0 + 1;
                                    iv = iv + 1;
                                },
                                _ => {
                                    fault = true;
                                },
                            }
                        },
                        Token::Stop(_) => {
                            i2 = i2 + 1;
                            i1 = i1 + 1;
                        },
                        _ => {
                            fault = true;
                        },
                    }
                },
                Token::Stop(s) => {
                    if !acc.is_empty() && s == u32::MAX {
                        fault = true;
                    } else {
                        let ghost a0 = acc@;
                        let mut entries = acc.drain();
                        flush_acc2(&mut entries, s, &mut out0, &mut out1, &mut outv);
                        out1.push(Token::Stop(s));
                        i2 = i2 + 1;
                        proof {
                                                let (r0, r1, rv, st) = spacc2_run(c2, c1, c0, vs, i2 as nat, i1 as nat, i0 as nat, iv as nat, seq![]);
                            assert(o0 + (flush2_crd0(a0, s) + r0) =~= out0@ + r0);
                            assert(o1 + (flush_crds(a0).push(Token::Stop(s)) + r1) =~= out1@ + r1);
                            assert(ov + (flush2_val(a0, s) + rv) =~= list_stream_view(outv@) + rv);
                        }
                    }
                },
                Token::Done => {
                    match b {
                        Token::Stop(_) => {
                            i1 = i1 + 1;
                        },
                        Token::Done => {
                            match c {
                                Token::Done => {
                                    out0.push(Token::Done);
                                    out1.push(Token::Done);
                                    let ghost pv = outv@;
                                    outv.push(Token::Done);
                                    proof {
                                        lemma_list_view_push(pv, Token::Done);
                                    }
                                    assert(total.0 =~= out0@ && total.1 =~= out1@ && total.2 =~= list_stream_view(outv@));
                                    return (out0, out1, outv, DropStatus::Finished);
                                },
                                _ => {
                                    fault = true;
                                },
                            }
                        },
                        _ => {
                            fault = true;
                        },
                    }
                },
                Token::Empty => {
                    fault = true;
                },
            }
            if fault {
                assert(total.0 =~= out0@ && total.1 =~= out1@ && total.2 =~= list_stream_view(outv@));
                return (out0, out1, outv, DropStatus::Fault);
            }
        }
    }
}

/// A two-level accumulator in coordinate order at both levels.
pub open spec fn acc2_ordered<V>(acc: Seq<(u32, Seq<(u32, Seq<V>)>)>) -> bool {
    &&& keys_increasing(acc)
    &&& forall|i: int| 0 <= i < acc.len() ==> keys_increasing(#[trigger] acc[i].1)
}

proof fn lemma_acc2_add_ordered<V>(acc: Seq<(u32, Seq<(u32, Seq<V>)>)>, k1: u32, k0: u32, x: V)
    requires
        acc2_ordered(acc),
    ensures
        acc2_ordered(upsert(acc, k1, seq![(k0, seq![x])], add_into(k0, x))),
{
    let init = seq![(k0, seq![x])];
    lemma_upsert_increasing(acc, k1, init, add_into(k0, x));
    let p = |t: Seq<(u32, Seq<V>)>| keys_increasing(t);
    assert forall|t: Seq<(u32, Seq<V>)>| p(t) implies #[trigger] p(add_into(k0, x)(t)) by {
        lemma_upsert_increasing(t, k0, seq![x], push_payload(x));
    }
    assert forall|i: int| 0 <= i < acc.len() implies p((#[trigger] acc[i]).1) by {
        assert(keys_increasing(acc[i].1));
    }
    lemma_upsert_values(acc, k1, init, add_into(k0, x), p);
    let u = upsert(acc, k1, init, add_into(k0, x));
    assert forall|i: int| 0 <= i < u.len() implies keys_increasing(#[trigger] u[i].1) by {
        assert(p(u[i].1));
    }
}

proof fn lemma_flush2_increasing<V>(acc: Seq<(u32, Seq<(u32, Seq<V>)>)>, s: u32)
    requires
        acc2_ordered(acc),
    ensures
        fibers_increasing(flush2_crd0(acc, s)),
    decreases acc.len(),
{
    if acc.len() > 0 {
        let rest = acc.drop_first();
        assert(acc2_ordered(rest)) by {
            assert forall|i: int, j: int| 0 <= i < j < rest.len() implies rest[i].0 < rest[j].0 by {
                assert(rest[i] == acc[i + 1] && rest[j] == acc[j + 1]);
            }
            assert forall|i: int| 0 <= i < rest.len() implies keys_increasing(#[trigger] rest[i].1) by {
                assert(rest[i] == acc[i + 1]);
            }
        }
        lemma_flush2_increasing(rest, s);
        assert(keys_increasing(acc[0].1));
        match inner_close(acc, 0, s) {
            Token::Stop(l) => lemma_flush_increasing(acc[0].1, l),
            _ => {},
        }
        lemma_fibers_concat(flush_crds(acc[0].1).push(inner_close(acc, 0, s)), flush2_crd0(rest, s));
    }
}

/// Law: the two-level sparse accumulator emits, within each output fiber,
/// the outer coordinates in strictly increasing order and the inner
/// coordinates of each outer coordinate in strictly increasing order.
pub proof fn lemma_spacc2_fibers_increasing<V>(
    c2: Seq<Crd>,
    c1: Seq<Crd>,
    c0: Seq<Crd>,
    vs: Seq<Token<V, u32>>,
    i2: nat,
    i1: nat,
    i0: nat,
    iv: nat,
    acc: Seq<(u32, Seq<(u32, Seq<V>)>)>,
)
    requires
        acc2_ordered(acc),
    ensures
        fibers_increasing(spacc2_run(c2, c1, c0, vs, i2, i1, i0, iv, acc).0),
        fibers_increasing(spacc2_run(c2, c1, c0, vs, i2, i1, i0, iv, acc).1),
    decreases (c2.len() - i2) + (c1.len() - i1) + (c0.len() - i0) + (vs.len() - iv),
{
    let empty: Seq<(u32, Seq<(u32, Seq<V>)>)> = seq![];
    let e: Seq<Crd> = seq![];
    assert(fibers_increasing(e));
    if i2 < c2.len() && i1 < c1.len() && i0 < c0.len() && iv < vs.len() && same_kind(c0[i0 as int], vs[iv as int]) {
        let b = c1[i1 as int];
        let c = c0[i0 as int];
        match c2[i2 as int] {
            Token::Val(_) => match b {
                Token::Val(k1) => match vs[iv as int] {
                    Token::Val(x) => {
                        lemma_acc2_add_ordered(acc, k1, c->Val_0, x);
                        lemma_spacc2_fibers_increasing(
                            c2,
                            c1,
                            c0,
                            vs,
                            i2,
                            i1,
                            i0 + 1,
                            iv + 1,
                            upsert(acc, k1, seq![(c->Val_0, seq![x])], add_into(c->Val_0, x)),
                        );
                    },
                    Token::Stop(_) => lemma_spacc2_fibers_increasing(c2, c1, c0, vs, i2, i1 + 1, i0 + 1, iv + 1, acc),
                    _ => {},
                },
                Token::Stop(_) => lemma_spacc2_fibers_increasing(c2, c1, c0, vs, i2 + 1, i1 + 1, i0, iv, acc),
                _ => {},
            },
            Token::Stop(s) => {
                if !(acc.len() > 0 && s == u32::MAX) {
                    lemma_spacc2_fibers_increasing(c2, c1, c0, vs, i2 + 1, i1, i0, iv, empty);
                    let (r0, r1, rv, st) = spacc2_run(c2, c1, c0, vs, i2 + 1, i1, i0, iv, empty);
                    lemma_flush2_increasing(acc, s);
                    if acc.len() > 0 {
                        assert(flush2_crd0(acc, s).last() == inner_close(acc, acc.len() - 1, s)) by {
                            lemma_flush2_last(acc, s);
                        }
                    }
                    lemma_fibers_concat(flush2_crd0(acc, s), r0);
                    lemma_flush_increasing(acc, s);
                    lemma_fibers_concat(flush_crds(acc).push(Token::Stop(s)), r1);
                }
            },
            Token::Done => match b {
                Token::Stop(_) => lemma_spacc2_fibers_increasing(c2, c1, c0, vs, i2, i1 + 1, i0, iv, acc),
                _ => {},
            },
            _ => {},
        }
    }
}

proof fn lemma_flush2_last<V>(acc: Seq<(u32, Seq<(u32, Seq<V>)>)>, s: u32)
    requires
        acc.len() > 0,
    ensures
        flush2_crd0(acc, s).len() > 0,
        flush2_crd0(acc, s).last() == inner_close(acc, acc.len() - 1, s),
    decreases acc.len(),
{
    let rest = acc.drop_first();
    let a = flush_crds(acc[0].1).push(inner_close(acc, 0, s));
    let b = flush2_crd0(rest, s);
    assert(flush2_crd0(acc, s) == a + b);
    if rest.len() > 0 {
        lemma_flush2_last(rest, s);
        assert(inner_close(rest, rest.len() - 1, s) == inner_close(acc, acc.len() - 1, s));
        assert((a + b).last() == b.last());
    } else {
        assert(b =~= seq![]);
        assert((a + b) =~= a);
    }
}

/// A query row of the streaming softmax accumulator: each score with the
/// value elements it weighs.
pub open spec fn row_view<S, V>(row: Vec<(S, Vec<V>)>) -> Seq<(S, Seq<V>)> {
    row@.map_values(|e: (S, Vec<V>)| (e.0, e.1@))
}

pub open spec fn row_tok_view<S, V>(t: Token<Vec<(S, Vec<V>)>, u32>) -> Token<Seq<(S, Seq<V>)>, u32> {
    match t {
        Token::Val(r) => Token::Val(row_view(r)),
        Token::Stop(s) => Token::Stop(s),
        Token::Empty => Token::Empty,
        Token::Done => Token::Done,
    }
}

pub open spec fn row_stream_view<S, V>(s: Seq<Token<Vec<(S, Vec<V>)>, u32>>) -> Seq<Token<Seq<(S, Seq<V>)>, u32>> {
    s.map_values(|t: Token<Vec<(S, Vec<V>)>, u32>| row_tok_view(t))
}

/// All of `vals[j .. j + hd]` are payloads.
pub open spec fn vals_ready<V>(vals: Seq<Token<V, u32>>, j: nat, hd: nat) -> bool {
    forall|d: int| j <= d < j + hd ==> (#[trigger] vals[d]) is Val
}

/// The payloads of `vals[j .. j + hd]`.
pub open spec fn val_payloads<V>(vals: Seq<Token<V, u32>>, j: nat, hd: nat) -> Seq<V> {
    Seq::new(hd, |d: int| vals[j + d]->Val_0)
}

/// Where the value stream goes on after the `hd` elements of a score at
/// `j`: past an inner level-0 stop token when there are several elements
/// per score.
pub open spec fn after_elems<V>(vals: Seq<Token<V, u32>>, j: nat, hd: nat) -> nat {
    let j2 = j + hd;
    if hd > 1 && j2 < vals.len() && vals[j2 as int] == Token::<V, u32>::Stop(0) { j2 + 1 } else { j2 }
}

/// The streaming softmax accumulator on score stream `scores` and value
/// stream `vals` (`hd` value elements per score), from positions `i` and
/// `j` with the current row `row`: each score takes its `hd` elements; a
/// score stop closes the row (matched by a value stop), which is emitted if
/// it holds a score, followed by the stop one level lower unless of level
/// 0; empty markers are skipped; the done token ends the stream.
pub open spec fn flash_run<S, V>(
    scores: Seq<Token<S, u32>>,
    vals: Seq<Token<V, u32>>,
    hd: nat,
    i: nat,
    j: nat,
    row: Seq<(S, Seq<V>)>,
) -> (Seq<Token<Seq<(S, Seq<V>)>, u32>>, DropStatus)
    decreases scores.len() - i,
{
    if i >= scores.len() {
        (seq![], DropStatus::Exhausted)
    } else {
        match scores[i as int] {
            Token::Val(sc) => if j + hd > vals.len() {
                (seq![], DropStatus::Exhausted)
            } else if !vals_ready(vals, j, hd) {
                (seq![], DropStatus::Fault)
            } else {
                flash_run(scores, vals, hd, i + 1, after_elems(vals, j, hd), row.push((sc, val_payloads(vals, j, hd))))
            },
            Token::Stop(s) => if j >= vals.len() {
                (seq![], DropStatus::Exhausted)
            } else if !(vals[j as int] is Stop) {
                (seq![], DropStatus::Fault)
            } else {
                let emitted: Seq<Token<Seq<(S, Seq<V>)>, u32>> = if row.len() > 0 { seq![Token::Val(row)] } else { seq![] };
                let stop: Seq<Token<Seq<(S, Seq<V>)>, u32>> = if s != 0 { seq![Token::Stop((s - 1) as u32)] } else { seq![] };
                let (rest, st) = flash_run(scores, vals, hd, i + 1, j + 1, seq![]);
                (emitted + stop + rest, st)
            },
            Token::Done => (seq![Token::Done], DropStatus::Finished),
            Token::Empty => flash_run(scores, vals, hd, i + 1, j, row),
        }
    }
}

/// Every row handed out pairs each of its scores with exactly `hd` value
/// elements.
pub open spec fn rows_have_width<S, V>(out: Seq<Token<Seq<(S, Seq<V>)>, u32>>, hd: nat) -> bool {
    forall|i: int, j: int|
        #![trigger out[i]->Val_0[j]]
        0 <= i < out.len() && out[i] is Val && 0 <= j < out[i]->Val_0.len() ==> out[i]->Val_0[j].1.len() == hd
}

/// Each score of the streaming softmax accumulator weighs exactly `hd`
/// value elements: every row it emits has that width.
pub proof fn lemma_flash_rows_have_width<S, V>(
    scores: Seq<Token<S, u32>>,
    vals: Seq<Token<V, u32>>,
    hd: nat,
    i: nat,
    j: nat,
    row: Seq<(S, Seq<V>)>,
)
    requires
        forall|k: int| 0 <= k < row.len() ==> (#[trigger] row[k]).1.len() == hd,
    ensures
        rows_have_width(flash_run(scores, vals, hd, i, j, row).0, hd),
    decreases scores.len() - i,
{
    if i < scores.len() {
        match scores[i as int] {
            Token::Val(sc) => {
                if j + hd <= vals.len() && vals_ready(vals, j, hd) {
                    let row2 = row.push((sc, val_payloads(vals, j, hd)));
                    assert forall|k: int| 0 <= k < row2.len() implies (#[trigger] row2[k]).1.len() == hd by {
                        if k < row.len() {
                            assert(row2[k] == row[k]);
                        }
                    }
                    lemma_flash_rows_have_width(scores, vals, hd, i + 1, after_elems(vals, j, hd), row2);
                }
            },
            Token::Stop(s) => {
                if j < vals.len() && vals[j as int] is Stop {
                    lemma_flash_rows_have_width(scores, vals, hd, i + 1, j + 1, seq![]);
                    let emitted: Seq<Token<Seq<(S, Seq<V>)>, u32>> = if row.len() > 0 { seq![Token::Val(row)] } else { seq![] };
                    let stop: Seq<Token<Seq<(S, Seq<V>)>, u32>> = if s != 0 { seq![Token::Stop((s - 1) as u32)] } else { seq![] };
                    let (rest, st) = flash_run(scores, vals, hd, i + 1, j + 1, seq![]);
                    let out = emitted + stop + rest;
                    assert forall|a: int, b: int|
                        0 <= a < out.len() && out[a] is Val && 0 <= b < out[a]->Val_0.len() implies #[trigger] out[a]->Val_0[b].1.len() == hd by {
                        if a >= emitted.len() + stop.len() {
                            assert(out[a] == rest[a - emitted.len() - stop.len()]);
                        } else if a < emitted.len() {
                            assert(out[a] == Token::<Seq<(S, Seq<V>)>, u32>::Val(row));
                        }
                    }
                }
            },
            Token::Done => {},
            Token::Empty => {
                lemma_flash_rows_have_width(scores, vals, hd, i + 1, j, row);
            },
        }
    }
}

/// Streaming softmax-weighted accumulation (one pass of flash attention):
/// for each query row, the scores and the value elements they weigh.  Each
/// row is handed out as its list of (score, value elements); the caller
/// computes the softmax-weighted sum.
pub struct FlashSoftmaxAccum {
    /// Value elements per score (at least 1).
    pub head_dim: usize,
}

impl FlashSoftmaxAccum {
    pub fn new() -> (r: Self)
        ensures
            r.head_dim == 1,
    {
        Self::with_head_dim(1)
    }

    pub fn with_head_dim(head_dim: usize) -> (r: Self)
        ensures
            r.head_dim == if head_dim >= 1 { head_dim } else { 1 },
    {
        FlashSoftmaxAccum { head_dim: if head_dim >= 1 { head_dim } else { 1 } }
    }

    pub fn run<S: Copy, V: Copy>(&self, in_score: &Vec<Token<S, u32>>, in_val: &Vec<Token<V, u32>>) -> (r: (
        Vec<Token<Vec<(S, Vec<V>)>, u32>>,
        DropStatus,
    ))
        requires
            self.head_dim >= 1,
        ensures
            (row_stream_view(r.0@), r.1) == flash_run(in_score@, in_val@, self.head_dim as nat, 0, 0, seq![]),
            rows_have_width(row_stream_view(r.0@), self.head_dim as nat),
    {
        let hd = self.head_dim;
        let ghost scores = in_score@;
        let ghost vals = in_val@;
        let ghost total = flash_run(scores, vals, hd as nat, 0, 0, seq![]);
        proof {
            lemma_flash_rows_have_width(scores, vals, hd as nat, 0, 0, seq![]);
        }
        let mut out: Vec<Token<Vec<(S, Vec<V>)>, u32>> = Vec::new();
        let mut row: Vec<(S, Vec<V>)> = Vec::new();
        let mut i: usize = 0;
        let mut j: usize = 0;
        assert(row_view(row) =~= seq![]);
        while i < in_score.len()
            invariant
                i <= scores.len(),
                j <= vals.len(),
                scores == in_score@,
                vals == in_val@,
                hd == self.head_dim,
                hd >= 1,
                total == flash_run(scores, vals, hd as nat, 0, 0, seq![]),
                rows_have_width(total.0, hd as nat),
                ({
                    let (rest, st) = flash_run(scores, vals, hd as nat, i as nat, j as nat, row_view(row));
                    total.0 == row_stream_view(out@) + rest && total.1 == st
                }),
            decreases scores.len() - i,
        {
            let ghost o0 = row_stream_view(out@);
            match in_score[i] {
                Token::Val(sc) => {
                    if hd > in_val.len() - j {
                        assert(total.0 =~= row_stream_view(out@));
                        return (out, DropStatus::Exhausted);
                    }
                    let mut elems: Vec<V> = Vec::new();
                    let mut d: usize = 0;
                    let mut ready = true;
                    while ready && d < hd
                        invariant
                            d <= hd,
                            j + hd <= in_val.len(),
                            vals == in_val@,
                            ready ==> elems@.len() == d,
                            ready ==> vals_ready(vals, j as nat, d as nat),
                            ready ==> forall|e: int| 0 <= e < d ==> elems@[e] == vals[j + e]->Val_0,
                            !ready ==> !vals_ready(vals, j as nat, hd as nat),
                        decreases hd - d + if ready { 1int } else { 0int },
                    {
                        match in_val[j + d] {
                            Token::Val(v) => {
                                elems.push(v);
                                d = d + 1;
                            },
                            _ => {
                                assert(!(vals[j + d] is Val));
                                ready = false;
                            },
                        }
                    }
                    if !ready {
                        assert(total.0 =~= row_stream_view(out@));
                        return (out, DropStatus::Fault);
                    }
                    assert(elems@ =~= val_payloads(vals, j as nat, hd as nat));
                    let ghost r0 = row_view(row);
                    row.push((sc, elems));
                    assert(row_view(row) =~= r0.push((sc, val_payloads(vals, j as nat, hd as nat))));
                    let j2 = j + hd;
                    j = if hd > 1 && j2 < in_val.len() && matches!(in_val[j2], Token::Stop(0)) { j2 + 1 } else { j2 };
                    proof {
                        if hd > 1 && j2 < vals.len() {
                            assert((vals[j2 as int] == Token::<V, u32>::Stop(0)) == (vals[j2 as int] matches Token::Stop(0)));
                        }
                    }
                },
                Token::Stop(s) => {
                    if j >= in_val.len() {
                        assert(total.0 =~= row_stream_view(out@));
                        return (out, DropStatus::Exhausted);
                    }
                    match in_val[j] {
                        Token::Stop(_) => {},
                        _ => {
                            assert(total.0 =~= row_stream_view(out@));
                            return (out, DropStatus::Fault);
                        },
                    }
                    let ghost rv = row_view(row);
                    if row.len() > 0 {
                        let mut done_row: Vec<(S, Vec<V>)> = Vec::new();
                        std::mem::swap(&mut done_row, &mut row);
                        let ghost before = out@;
                        out.push(Token::Val(done_row));
                        assert(row_stream_view(out@) =~= row_stream_view(before).push(Token::Val(rv)));
                    }
                    if s != 0 {
                        let ghost before = out@;
                        out.push(Token::Stop(s - 1));
                        assert(row_stream_view(out@) =~= row_stream_view(before).push(Token::Stop((s - 1) as u32)));
                    }
                    row = Vec::new();
                    j = j + 1;
                    proof {
                        let emitted: Seq<Token<Seq<(S, Seq<V>)>, u32>> = if rv.len() > 0 { seq![Token::Val(rv)] } else { seq![] };
                        let stop: Seq<Token<Seq<(S, Seq<V>)>, u32>> = if s != 0 { seq![Token::Stop((s - 1) as u32)] } else { seq![] };
                        assert(row_stream_view(out@) =~= o0 + emitted + stop);
                        assert(row_view(row) =~= seq![]);
                        let (rest, st) = flash_run(scores, vals, hd as nat, (i + 1) as nat, j as nat, seq![]);
                        assert(o0 + (emitted + stop + rest) =~= row_stream_view(out@) + rest);
                    }
                },
                Token::Done => {
                    let ghost before = out@;
                    out.push(Token::Done);
                    assert(row_stream_view(out@) =~= row_stream_view(before).push(Token::Done));
                    assert(total.0 =~= row_stream_view(out@));
                    return (out, DropStatus::Finished);
                },
                Token::Empty => {},
            }
            i = i + 1;
        }
        assert(total.0 =~= row_stream_view(out@));
        (out, DropStatus::Exhausted)
    }
}

} // verus!
