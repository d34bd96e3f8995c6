use vstd::prelude::*;

use super::array::batches_view;
use super::primitive::Token;
use super::ramulator::hbm_context::ParAddrs;

verus! {

/// The memory addresses of the elements `first .. first + count` of an
/// array placed at `base` with `stride` bytes per element.
pub open spec fn element_addrs(base: u64, stride: u64, first: nat, count: nat) -> Seq<u64> {
    Seq::new(count, |k: int| (base + (first + k) * stride) as u64)
}

/// An array writer that either writes each element at once or, when
/// memory timing is modelled, collects elements into batches whose
/// addresses are requested together before the batch is committed.
pub struct BatchedWriter<V> {
    pub committed: Vec<V>,
    pub pending: Vec<V>,
    pub hbm: bool,
    pub batch: usize,
    pub base: u64,
    pub stride: u64,
}

impl<V: Copy> BatchedWriter<V> {
    /// Everything written so far, committed or still waiting in a batch.
    pub open spec fn contents(&self) -> Seq<V> {
        self.committed@ + self.pending@
    }

    pub open spec fn wf(&self) -> bool {
        &&& self.batch >= 1
        &&& self.stride >= 1
        &&& !self.hbm ==> self.pending@.len() == 0
        &&& self.hbm ==> self.pending@.len() < self.batch
    }

    /// With memory timing on, the addresses of up to `extra` more elements
    /// can be computed without overflow (without it no address is computed).
    pub open spec fn has_room(&self, extra: nat) -> bool {
        self.hbm ==> self.base + (self.committed@.len() + self.pending@.len() + extra) * self.stride <= u64::MAX
    }

    proof fn lemma_room_mono(&self, a: nat, b: nat)
        requires
            self.has_room(a),
            b <= a,
        ensures
            self.has_room(b),
    {
        let n = self.committed@.len() + self.pending@.len();
        assert((n + b) * self.stride <= (n + a) * self.stride) by (nonlinear_arith)
            requires
                b <= a,
        ;
    }

    pub fn new(committed: Vec<V>, batch: usize, stride: u64) -> (r: Self)
        requires
            batch >= 1,
            stride >= 1,
        ensures
            r.wf(),
            r.committed@ == committed@,
            r.pending@.len() == 0,
            !r.hbm,
            r.batch == batch,
            r.stride == stride,
            r.base == 0,
    {
        BatchedWriter { committed, pending: Vec::new(), hbm: false, batch, base: 0, stride }
    }

    /// Requests the addresses of the pending batch and commits it.
    fn flush_pending(&mut self) -> (addrs: Vec<u64>)
        requires
            old(self).hbm,
            old(self).has_room(0),
            old(self).stride >= 1,
        ensures
            final(self).committed@ == old(self).contents(),
            final(self).pending@.len() == 0,
            final(self).hbm == old(self).hbm,
            final(self).batch == old(self).batch,
            final(self).base == old(self).base,
            final(self).stride == old(self).stride,
            addrs@ == element_addrs(
                old(self).base,
                old(self).stride,
                old(self).committed@.len(),
                old(self).pending@.len(),
            ),
    {
        let first = self.committed.len();
        let n = self.pending.len();
        let mut addrs: Vec<u64> = Vec::new();
        let mut k: usize = 0;
        while k < n
            invariant
                k <= n,
                n == self.pending@.len(),
                first == self.committed@.len(),
                self.hbm,
                self.has_room(0),
                self.stride >= 1,
                addrs@ == element_addrs(self.base, self.stride, first as nat, k as nat),
            decreases n - k,
        {
            assert((first + k) * self.stride <= (first + n) * self.stride) by (nonlinear_arith)
                requires
                    k < n,
                    self.stride >= 1,
            ;
            assert(first + k <= (first + k) * self.stride) by (nonlinear_arith)
                requires
                    self.stride >= 1,
            ;
            let idx = first as u64 + k as u64;
            let a = self.base + idx * self.stride;
            addrs.push(a);
            k = k + 1;
            assert(addrs@ =~= element_addrs(self.base, self.stride, first as nat, k as nat));
        }
        let mut p = Vec::new();
        std::mem::swap(&mut p, &mut self.pending);
        self.committed.append(&mut p);
        addrs
    }

    /// Writes one element; when a batch fills up, returns the addresses the
    /// batch asks for (the batch is then committed).
    pub fn write(&mut self, v: V) -> (r: Option<Vec<u64>>)
        requires
            old(self).wf(),
            old(self).has_room(1),
        ensures
            final(self).wf(),
            final(self).contents() == old(self).contents().push(v),
            final(self).hbm == old(self).hbm,
            final(self).batch == old(self).batch,
            final(self).base == old(self).base,
            final(self).stride == old(self).stride,
            !old(self).hbm ==> r is None,
            old(self).hbm ==> final(self).pending@.len() == (old(self).pending@.len() + 1) % (old(self).batch as nat),
            old(self).hbm && old(self).pending@.len() + 1 < old(self).batch ==> r is None
                && final(self).committed@ == old(self).committed@,
            old(self).hbm && old(self).pending@.len() + 1 >= old(self).batch ==> r is Some
                && final(self).pending@.len() == 0 && r->0@ == element_addrs(
                old(self).base,
                old(self).stride,
                old(self).committed@.len(),
                old(self).pending@.len() + 1,
            ),
    {
        if self.hbm {
            self.pending.push(v);
            if self.pending.len() >= self.batch {
                proof {
                    vstd::arithmetic::div_mod::lemma_mod_self_0(self.batch as int);
                }
                let addrs = self.flush_pending();
                assert(final(self).committed@ =~= old(self).contents().push(v)) by {
                    assert(old(self).contents().push(v) =~= old(self).committed@ + old(self).pending@.push(v));
                };
                return Some(addrs);
            }
            assert(self.contents() =~= old(self).contents().push(v));
            proof {
                vstd::arithmetic::div_mod::lemma_small_mod(self.pending@.len(), self.batch as nat);
            }
            None
        } else {
            self.committed.push(v);
            assert(self.contents() =~= old(self).contents().push(v));
            None
        }
    }

    /// Commits a partly filled batch, returning the addresses it asks for;
    /// nothing happens without memory timing or with nothing pending.
    pub fn flush(&mut self) -> (r: Option<Vec<u64>>)
        requires
            old(self).wf(),
            old(self).has_room(0),
        ensures
            final(self).wf(),
            final(self).contents() == old(self).contents(),
            final(self).pending@.len() == 0,
            final(self).hbm == old(self).hbm,
            final(self).batch == old(self).batch,
            final(self).base == old(self).base,
            final(self).stride == old(self).stride,
            (old(self).hbm && old(self).pending@.len() > 0) <==> r is Some,
            r is Some ==> r->0@ == element_addrs(
                old(self).base,
                old(self).stride,
                old(self).committed@.len(),
                old(self).pending@.len(),
            ),
            r is None ==> final(self).committed@ == old(self).committed@,
    {
        if self.hbm && self.pending.len() > 0 {
            let addrs = self.flush_pending();
            Some(addrs)
        } else {
            None
        }
    }

    /// Turns on memory timing: elements are batched and their addresses are
    /// `base + index * stride` (a zero stride counts as one).
    pub fn enable_hbm(&mut self, base: u64, stride: u64)
        requires
            old(self).wf(),
            old(self).pending@.len() == 0,
        ensures
            final(self).wf(),
            final(self).hbm,
            final(self).committed == old(self).committed,
            final(self).pending@.len() == 0,
            final(self).batch == old(self).batch,
            final(self).base == base,
            final(self).stride == if stride >= 1 { stride } else { 1 },
    {
        self.hbm = true;
        self.base = base;
        self.stride = if stride >= 1 { stride } else { 1 };
    }

    /// Sets the batch size (a zero size counts as one).
    pub fn set_batch(&mut self, batch: usize)
        requires
            old(self).wf(),
            old(self).pending@.len() == 0,
        ensures
            final(self).wf(),
            final(self).batch == if batch >= 1 { batch } else { 1 },
            final(self).committed == old(self).committed,
            final(self).pending@.len() == 0,
            final(self).hbm == old(self).hbm,
            final(self).base == old(self).base,
            final(self).stride == old(self).stride,
    {
        self.batch = if batch >= 1 { batch } else { 1 };
    }
}

} // verus!

verus! {

/// The payloads of a stream, in order, up to its done token.
pub open spec fn payloads<V>(input: Seq<Token<V, u32>>) -> Seq<V>
    decreases input.len(),
{
    if input.len() == 0 {
        seq![]
    } else {
        match input[0] {
            Token::Val(v) => seq![v] + payloads(input.drop_first()),
            Token::Done => seq![],
            _ => payloads(input.drop_first()),
        }
    }
}

/// The stream holds a done token.
pub open spec fn has_done<V>(input: Seq<Token<V, u32>>) -> bool {
    exists|i: int| 0 <= i < input.len() && input[i] is Done
}

/// How many written elements wait in an unfinished batch after the stream
/// `s`, with `p` waiting before it and batches of `batch`: a payload joins
/// the batch, which is committed once full; any other token commits it; the
/// done token ends the stream.
pub open spec fn vals_pending<V>(s: Seq<Token<V, u32>>, p: nat, batch: nat) -> nat
    decreases s.len(),
{
    if s.len() == 0 {
        p
    } else {
        match s[0] {
            Token::Val(_) => vals_pending(s.drop_first(), (p + 1) % batch, batch),
            Token::Done => 0,
            _ => vals_pending(s.drop_first(), 0, batch),
        }
    }
}

/// The address batches a batching writer requests for the stream `s`,
/// with `p` elements waiting and `n` committed before it: a payload joins
/// the batch, whose addresses are requested (and the batch committed) once
/// it holds `batch` elements; any other token requests the partial batch,
/// if any; the done token ends the stream.
pub open spec fn vals_batches<V>(s: Seq<Token<V, u32>>, p: nat, n: nat, batch: nat, base: u64, stride: u64) -> Seq<
    Seq<u64>,
>
    decreases s.len(),
{
    if s.len() == 0 {
        seq![]
    } else {
        let partial: Seq<Seq<u64>> = if p > 0 { seq![element_addrs(base, stride, n, p)] } else { seq![] };
        match s[0] {
            Token::Val(_) => if p + 1 >= batch {
                seq![element_addrs(base, stride, n, p + 1)] + vals_batches(s.drop_first(), 0, n + p + 1, batch, base, stride)
            } else {
                vals_batches(s.drop_first(), p + 1, n, batch, base, stride)
            },
            Token::Done => partial,
            _ => partial + vals_batches(s.drop_first(), 0, n + p, batch, base, stride),
        }
    }
}

/// Writes a value stream into a value array.
pub struct ValsWrScan<V> {
    pub out_val: BatchedWriter<V>,
    pub write_count: u64,
    pub finished: bool,
}

impl<V: Copy> ValsWrScan<V> {
    pub open spec fn wf(&self) -> bool {
        self.out_val.wf()
    }

    pub fn new() -> (r: Self)
        ensures
            r.wf(),
            r.out_val.contents() == Seq::<V>::empty(),
            !r.out_val.hbm,
            r.out_val.batch == 1,
            r.out_val.stride == 4,
            r.out_val.base == 0,
            r.write_count == 0,
            !r.finished,
    {
        let w = BatchedWriter::new(Vec::new(), 1, 4);
        assert(w.contents() =~= Seq::<V>::empty());
        ValsWrScan { out_val: w, write_count: 0, finished: false }
    }

    /// Models memory timing for the writes: values are placed at
    /// `base + index * stride`.
    pub fn enable_hbm_writes(&mut self, base: u64, stride: u64)
        requires
            old(self).wf(),
            old(self).out_val.pending@.len() == 0,
        ensures
            final(self).wf(),
            final(self).out_val.hbm,
            final(self).out_val.base == base,
            final(self).out_val.stride == if stride >= 1 { stride } else { 1 },
            final(self).out_val.committed == old(self).out_val.committed,
            final(self).out_val.pending@.len() == 0,
            final(self).out_val.batch == old(self).out_val.batch,
            final(self).write_count == old(self).write_count,
            final(self).finished == old(self).finished,
    {
        self.out_val.enable_hbm(base, stride);
    }

    pub fn set_hbm_batch_size(&mut self, batch: usize)
        requires
            old(self).wf(),
            old(self).out_val.pending@.len() == 0,
        ensures
            final(self).wf(),
            final(self).out_val.batch == if batch >= 1 { batch } else { 1 },
            final(self).out_val.committed == old(self).out_val.committed,
            final(self).out_val.pending@.len() == 0,
            final(self).out_val.hbm == old(self).out_val.hbm,
            final(self).out_val.base == old(self).out_val.base,
            final(self).out_val.stride == old(self).out_val.stride,
            final(self).write_count == old(self).write_count,
            final(self).finished == old(self).finished,
    {
        self.out_val.set_batch(batch);
    }

    /// Handles one input token; returns the addresses of a batch that must
    /// be written to memory before the writer goes on, if one is due.
    pub fn step(&mut self, t: Token<V, u32>) -> (r: Option<Vec<u64>>)
        requires
            old(self).wf(),
            !old(self).finished,
            old(self).out_val.has_room(1),
            old(self).write_count < u64::MAX,
        ensures
            final(self).wf(),
            final(self).out_val.hbm == old(self).out_val.hbm,
            final(self).out_val.base == old(self).out_val.base,
            final(self).out_val.stride == old(self).out_val.stride,
            final(self).out_val.batch == old(self).out_val.batch,
            final(self).finished == (t is Done),
            old(self).out_val.hbm && t is Val ==> final(self).out_val.pending@.len() == (old(self).out_val.pending@.len() + 1)
                % (old(self).out_val.batch as nat),
            match t {
                Token::Val(v) => final(self).out_val.contents() == old(self).out_val.contents().push(v)
                    && final(self).write_count == old(self).write_count + 1,
                _ => final(self).out_val.contents() == old(self).out_val.contents()
                    && final(self).out_val.pending@.len() == 0
                    && final(self).write_count == old(self).write_count,
            },
            !old(self).out_val.hbm ==> r is None,
            old(self).out_val.hbm && t is Val ==> (r is Some <==> old(self).out_val.pending@.len() + 1 >= old(self).out_val.batch),
            old(self).out_val.hbm && !(t is Val) ==> (r is Some <==> old(self).out_val.pending@.len() > 0),
            r is Some ==> final(self).out_val.pending@.len() == 0,
            old(self).out_val.hbm && r is None ==> final(self).out_val.committed@ == old(self).out_val.committed@,
            r is Some ==> final(self).out_val.committed@.len() >= old(self).out_val.committed@.len() && r->0@
                == element_addrs(
                old(self).out_val.base,
                old(self).out_val.stride,
                old(self).out_val.committed@.len(),
                (final(self).out_val.committed@.len() - old(self).out_val.committed@.len()) as nat,
            ),
    {
        proof {
            self.out_val.lemma_room_mono(1, 0);
        }
        match t {
            Token::Val(v) => {
                let r = self.out_val.write(v);
                self.write_count = self.write_count + 1;
                r
            },
            Token::Done => {
                let r = self.out_val.flush();
                self.finished = true;
                r
            },
            _ => self.out_val.flush(),
        }
    }
}


impl<V: Copy> ValsWrScan<V> {
    /// Writes a whole value stream, up to its done token; returns the
    /// address batches requested from memory, in order (each batch is
    /// committed once its addresses are requested).
    pub fn run(&mut self, input: &Vec<Token<V, u32>>) -> (requested: Vec<ParAddrs>)
        requires
            old(self).wf(),
            !old(self).finished,
            old(self).out_val.has_room(input@.len()),
            old(self).write_count + input@.len() <= u64::MAX,
        ensures
            final(self).wf(),
            final(self).out_val.contents() == old(self).out_val.contents() + payloads(input@),
            has_done(input@) ==> final(self).finished && final(self).out_val.pending@.len() == 0,
            has_done(input@) ==> final(self).out_val.committed@ == old(self).out_val.contents() + payloads(input@),
            old(self).out_val.hbm ==> final(self).out_val.pending@.len() == vals_pending(
                input@,
                old(self).out_val.pending@.len(),
                old(self).out_val.batch as nat,
            ),
            final(self).out_val.committed@.len() >= old(self).out_val.committed@.len(),
            final(self).out_val.hbm == old(self).out_val.hbm,
            old(self).out_val.hbm ==> batches_view(requested@) == vals_batches(
                input@,
                old(self).out_val.pending@.len(),
                old(self).out_val.committed@.len(),
                old(self).out_val.batch as nat,
                old(self).out_val.base,
                old(self).out_val.stride,
            ),
            !old(self).out_val.hbm ==> requested@.len() == 0,
    {
        let mut requested: Vec<ParAddrs> = Vec::new();
        let ghost c0 = self.out_val.contents();
        let ghost l0 = self.out_val.committed@.len();
        let ghost base = self.out_val.base;
        let ghost stride = self.out_val.stride;
        let ghost hbm = self.out_val.hbm;
        let ghost batch = self.out_val.batch as nat;
        let ghost p0 = self.out_val.pending@.len();
        let ghost total_b = vals_batches(input@, p0, l0, batch, base, stride);
        let mut i: usize = 0;
        assert(input@.skip(0) =~= input@);
        while i < input.len() && !self.finished
            invariant
                i <= input.len(),
                self.wf(),
                self.out_val.hbm == hbm,
                self.out_val.batch == batch,
                hbm && !self.finished ==> vals_pending(input@, p0, batch) == vals_pending(
                    input@.skip(i as int),
                    self.out_val.pending@.len(),
                    batch,
                ),
                hbm && self.finished ==> vals_pending(input@, p0, batch) == 0,
                self.out_val.base == base,
                self.out_val.stride == stride,
                self.out_val.has_room((input@.len() - i) as nat),
                self.write_count + (input@.len() - i) <= u64::MAX,
                self.out_val.committed@.len() >= l0,
                !self.finished ==> c0 + payloads(input@) == self.out_val.contents() + payloads(input@.skip(i as int)),
                !self.finished ==> forall|j: int| 0 <= j < i ==> !(input@[j] is Done),
                self.finished ==> c0 + payloads(input@) == self.out_val.contents(),
                self.finished ==> self.out_val.pending@.len() == 0,
                hbm && !self.finished ==> batches_view(requested@) + vals_batches(
                    input@.skip(i as int),
                    self.out_val.pending@.len(),
                    self.out_val.committed@.len(),
                    batch,
                    base,
                    stride,
                ) == total_b,
                hbm && self.finished ==> batches_view(requested@) == total_b,
                !hbm ==> requested@.len() == 0,
            decreases input.len() - i,
        {
            let t = input[i];
            let ghost s = input@.skip(i as int);
            let ghost before = self.out_val.contents();
            let ghost lb = self.out_val.committed@.len();
            let ghost pb = self.out_val.pending@.len();
            let ghost rq = batches_view(requested@);
            assert(s[0] == t);
            assert(s.drop_first() =~= input@.skip(i as int + 1));
            proof {
                self.out_val.lemma_room_mono((input@.len() - i) as nat, 1);
            }
            let r = self.step(t);
            match r {
                Some(addrs) => {
                    requested.push(ParAddrs::new(addrs));
                    assert(batches_view(requested@) =~= rq.push(addrs@));
                },
                None => {
                    assert(batches_view(requested@) =~= rq);
                },
            }
            proof {
                if hbm {
                    let rest = vals_batches(s.drop_first(), self.out_val.pending@.len(), self.out_val.committed@.len(), batch, base, stride);
                    if t is Val {
                        if r is None {
                            vstd::arithmetic::div_mod::lemma_small_mod(pb + 1, batch);
                        }
                    }
                    if !(t is Done) {
                        assert(rq + vals_batches(s, pb, lb, batch, base, stride) == batches_view(requested@) + rest) by {
                            if r is Some {
                                assert(rq + (seq![r->0@] + rest) =~= rq.push(r->0@) + rest);
                            }
                        }
                    } else {
                        if r is Some {
                            assert(rq + seq![r->0@] =~= rq.push(r->0@));
                        } else {
                            assert(rq + Seq::<Seq<u64>>::empty() =~= rq);
                        }
                    }
                }
            }
            proof {
                if t is Val {
                    assert(before.push(t->Val_0) + payloads(s.drop_first()) =~= before + payloads(s));
                } else if t is Done {
                    assert(before + payloads(s) =~= before);
                } else {
                    assert(before + payloads(s) == before + payloads(s.drop_first()));
                }
                let n = self.out_val.contents().len();
                let k = (input@.len() - i - 1) as nat;
                assert(n <= before.len() + 1);
                assert(base + (n + k) * stride <= base + (before.len() + 1 + k) * stride) by (nonlinear_arith)
                    requires
                        n <= before.len() + 1,
                ;
            }
            i = i + 1;
        }
        proof {
            if !self.finished {
                assert(input@.skip(i as int).len() == 0);
                assert(c0 + payloads(input@) =~= self.out_val.contents());
                if has_done(input@) {
                    let j = choose|j: int| 0 <= j < input@.len() && input@[j] is Done;
                    assert(false);
                }
            }
        }
        proof {
            if hbm && !self.finished {
                assert(input@.skip(i as int) =~= Seq::<Token<V, u32>>::empty());
                assert(batches_view(requested@) + Seq::<Seq<u64>>::empty() =~= batches_view(requested@));
            }
        }
        requested
    }
}

/// How many coordinates wait in an unfinished batch after the stream `s`,
/// with `p` waiting before it, `e` telling whether the last fiber was
/// closed, and batches of `batch`: a coordinate joins the batch, which is
/// committed once full; a stop that closes no fiber, or an empty marker,
/// commits it; the done token ends the stream.
pub open spec fn crd_batch_pending(s: Seq<Token<u32, u32>>, p: nat, e: bool, batch: nat) -> nat
    decreases s.len(),
{
    if s.len() == 0 {
        p
    } else {
        match s[0] {
            Token::Val(_) => crd_batch_pending(s.drop_first(), (p + 1) % batch, false, batch),
            Token::Stop(_) => if !e {
                crd_batch_pending(s.drop_first(), p, true, batch)
            } else {
                crd_batch_pending(s.drop_first(), 0, true, batch)
            },
            Token::Empty => crd_batch_pending(s.drop_first(), 0, e, batch),
            Token::Done => 0,
        }
    }
}

/// How many segment entries wait in an unfinished batch after the stream
/// `s`, likewise: the first stop after a coordinate adds an entry to the
/// batch, which is committed once full; a later stop, or an empty marker,
/// commits it; the done token ends the stream.
pub open spec fn seg_batch_pending(s: Seq<Token<u32, u32>>, p: nat, e: bool, batch: nat) -> nat
    decreases s.len(),
{
    if s.len() == 0 {
        p
    } else {
        match s[0] {
            Token::Val(_) => seg_batch_pending(s.drop_first(), p, false, batch),
            Token::Stop(_) => if !e {
                seg_batch_pending(s.drop_first(), (p + 1) % batch, true, batch)
            } else {
                seg_batch_pending(s.drop_first(), 0, true, batch)
            },
            Token::Empty => seg_batch_pending(s.drop_first(), 0, e, batch),
            Token::Done => 0,
        }
    }
}

/// The coordinate address batches requested for the stream `s`, with `p`
/// coordinates waiting and `n` committed before it, and `e` telling whether
/// the last fiber was closed: batches as in `vals_batches`, except that the
/// stop closing a fiber leaves the partial batch waiting.
pub open spec fn crd_batches(s: Seq<Token<u32, u32>>, p: nat, n: nat, e: bool, batch: nat, base: u64, stride: u64) -> Seq<
    Seq<u64>,
>
    decreases s.len(),
{
    if s.len() == 0 {
        seq![]
    } else {
        let partial: Seq<Seq<u64>> = if p > 0 { seq![element_addrs(base, stride, n, p)] } else { seq![] };
        match s[0] {
            Token::Val(_) => if p + 1 >= batch {
                seq![element_addrs(base, stride, n, p + 1)] + crd_batches(s.drop_first(), 0, n + p + 1, false, batch, base, stride)
            } else {
                crd_batches(s.drop_first(), p + 1, n, false, batch, base, stride)
            },
            Token::Stop(_) => if !e {
                crd_batches(s.drop_first(), p, n, true, batch, base, stride)
            } else {
                partial + crd_batches(s.drop_first(), 0, n + p, true, batch, base, stride)
            },
            Token::Empty => partial + crd_batches(s.drop_first(), 0, n + p, e, batch, base, stride),
            Token::Done => partial,
        }
    }
}

/// The segment address batches requested for the stream `s`, likewise: the
/// stop closing a fiber adds a segment entry to the batch, requested once
/// full; a later stop, an empty marker or the done token requests the
/// partial batch.
pub open spec fn seg_batches(s: Seq<Token<u32, u32>>, p: nat, n: nat, e: bool, batch: nat, base: u64, stride: u64) -> Seq<
    Seq<u64>,
>
    decreases s.len(),
{
    if s.len() == 0 {
        seq![]
    } else {
        let partial: Seq<Seq<u64>> = if p > 0 { seq![element_addrs(base, stride, n, p)] } else { seq![] };
        match s[0] {
            Token::Val(_) => seg_batches(s.drop_first(), p, n, false, batch, base, stride),
            Token::Stop(_) => if !e {
                if p + 1 >= batch {
                    seq![element_addrs(base, stride, n, p + 1)] + seg_batches(s.drop_first(), 0, n + p + 1, true, batch, base, stride)
                } else {
                    seg_batches(s.drop_first(), p + 1, n, true, batch, base, stride)
                }
            } else {
                partial + seg_batches(s.drop_first(), 0, n + p, true, batch, base, stride)
            },
            Token::Empty => partial + seg_batches(s.drop_first(), 0, n + p, e, batch, base, stride),
            Token::Done => partial,
        }
    }
}

/// The segment entries a coordinate writer appends for a stream, starting
/// with `cnt` coordinates written and `end_fiber` telling whether the last
/// fiber was already closed: each first stop after a coordinate records the
/// running coordinate count.  Also returns the final count and flag.
pub open spec fn seg_scan(input: Seq<Token<u32, u32>>, cnt: nat, end_fiber: bool) -> (Seq<u32>, nat, bool)
    decreases input.len(),
{
    if input.len() == 0 {
        (seq![], cnt, end_fiber)
    } else {
        match input[0] {
            Token::Val(_) => seg_scan(input.drop_first(), cnt + 1, false),
            Token::Stop(_) => if !end_fiber {
                let (s, c, e) = seg_scan(input.drop_first(), cnt, true);
                (seq![cnt as u32] + s, c, e)
            } else {
                seg_scan(input.drop_first(), cnt, end_fiber)
            },
            Token::Empty => seg_scan(input.drop_first(), cnt, end_fiber),
            Token::Done => (seq![], cnt, end_fiber),
        }
    }
}

/// Writes a coordinate stream as a compressed level: the coordinates in
/// order, and one segment entry per fiber holding the running count.
pub struct CompressedWrScan {
    pub crd_arr: BatchedWriter<u32>,
    pub seg_arr: BatchedWriter<u32>,
    pub curr_crd_cnt: u32,
    pub end_fiber: bool,
    pub crd_write_count: u64,
    pub seg_write_count: u64,
    pub finished: bool,
}

impl CompressedWrScan {
    pub open spec fn wf(&self) -> bool {
        self.crd_arr.wf() && self.seg_arr.wf()
    }

    /// A writer whose segment array starts with the entry 0.
    pub fn new() -> (r: Self)
        ensures
            r.wf(),
            r.crd_arr.contents() == Seq::<u32>::empty(),
            r.seg_arr.contents() == seq![0u32],
            !r.crd_arr.hbm && !r.seg_arr.hbm,
            r.crd_arr.batch == 8 && r.seg_arr.batch == 8,
            r.crd_arr.stride == 4 && r.seg_arr.stride == 4,
            r.crd_arr.base == 0 && r.seg_arr.base == 0,
            r.crd_write_count == 0 && r.seg_write_count == 0,
            r.curr_crd_cnt == 0,
            !r.end_fiber,
            !r.finished,
    {
        let crd = BatchedWriter::new(Vec::new(), 8, 4);
        let mut seg_init: Vec<u32> = Vec::new();
        seg_init.push(0);
        let seg = BatchedWriter::new(seg_init, 8, 4);
        assert(crd.contents() =~= Seq::<u32>::empty());
        assert(seg.contents() =~= seq![0u32]);
        CompressedWrScan {
            crd_arr: crd,
            seg_arr: seg,
            curr_crd_cnt: 0,
            end_fiber: false,
            crd_write_count: 0,
            seg_write_count: 0,
            finished: false,
        }
    }

    /// Models memory timing for the coordinate and the segment writes.
    pub fn enable_hbm_writes(&mut self, crd_base: u64, seg_base: u64, crd_stride: u64, seg_stride: u64)
        requires
            old(self).wf(),
            old(self).crd_arr.pending@.len() == 0,
            old(self).seg_arr.pending@.len() == 0,
        ensures
            final(self).wf(),
            final(self).crd_arr.hbm && final(self).seg_arr.hbm,
            final(self).crd_arr.base == crd_base && final(self).seg_arr.base == seg_base,
            final(self).crd_arr.stride == if crd_stride >= 1 { crd_stride } else { 1 },
            final(self).seg_arr.stride == if seg_stride >= 1 { seg_stride } else { 1 },
            final(self).crd_arr.committed == old(self).crd_arr.committed,
            final(self).seg_arr.committed == old(self).seg_arr.committed,
            final(self).crd_arr.pending@.len() == 0 && final(self).seg_arr.pending@.len() == 0,
            final(self).crd_arr.batch == old(self).crd_arr.batch,
            final(self).seg_arr.batch == old(self).seg_arr.batch,
            final(self).curr_crd_cnt == old(self).curr_crd_cnt,
            final(self).end_fiber == old(self).end_fiber,
            final(self).finished == old(self).finished,
            final(self).crd_write_count == old(self).crd_write_count,
            final(self).seg_write_count == old(self).seg_write_count,
    {
        self.crd_arr.enable_hbm(crd_base, crd_stride);
        self.seg_arr.enable_hbm(seg_base, seg_stride);
    }

    pub fn set_hbm_batch_sizes(&mut self, crd_batch: usize, seg_batch: usize)
        requires
            old(self).wf(),
            old(self).crd_arr.pending@.len() == 0,
            old(self).seg_arr.pending@.len() == 0,
        ensures
            final(self).wf(),
            final(self).crd_arr.batch == if crd_batch >= 1 { crd_batch } else { 1 },
            final(self).seg_arr.batch == if seg_batch >= 1 { seg_batch } else { 1 },
            final(self).crd_arr.committed == old(self).crd_arr.committed,
            final(self).seg_arr.committed == old(self).seg_arr.committed,
            final(self).crd_arr.pending@.len() == 0 && final(self).seg_arr.pending@.len() == 0,
            final(self).crd_arr.hbm == old(self).crd_arr.hbm,
            final(self).seg_arr.hbm == old(self).seg_arr.hbm,
            final(self).crd_arr.base == old(self).crd_arr.base,
            final(self).seg_arr.base == old(self).seg_arr.base,
            final(self).crd_arr.stride == old(self).crd_arr.stride,
            final(self).seg_arr.stride == old(self).seg_arr.stride,
            final(self).curr_crd_cnt == old(self).curr_crd_cnt,
            final(self).end_fiber == old(self).end_fiber,
            final(self).finished == old(self).finished,
            final(self).crd_write_count == old(self).crd_write_count,
            final(self).seg_write_count == old(self).seg_write_count,
    {
        self.crd_arr.set_batch(crd_batch);
        self.seg_arr.set_batch(seg_batch);
    }

    /// Handles one input token; returns the addresses of a coordinate batch
    /// and of a segment batch that must be written before going on.
    pub fn step(&mut self, t: Token<u32, u32>) -> (r: (Option<Vec<u64>>, Option<Vec<u64>>))
        requires
            old(self).wf(),
            !old(self).finished,
            old(self).crd_arr.has_room(1),
            old(self).seg_arr.has_room(1),
            old(self).curr_crd_cnt < u32::MAX,
            old(self).crd_write_count < u64::MAX,
            old(self).seg_write_count < u64::MAX,
        ensures
            final(self).wf(),
            final(self).crd_arr.hbm == old(self).crd_arr.hbm,
            final(self).seg_arr.hbm == old(self).seg_arr.hbm,
            final(self).crd_arr.base == old(self).crd_arr.base,
            final(self).seg_arr.base == old(self).seg_arr.base,
            final(self).crd_arr.stride == old(self).crd_arr.stride,
            final(self).seg_arr.stride == old(self).seg_arr.stride,
            final(self).crd_arr.batch == old(self).crd_arr.batch,
            final(self).seg_arr.batch == old(self).seg_arr.batch,
            final(self).finished == (t is Done),
            ({
                let one = seq![t];
                let (segs, c, e) = seg_scan(one, old(self).curr_crd_cnt as nat, old(self).end_fiber);
                &&& final(self).crd_arr.contents() == old(self).crd_arr.contents() + payloads(one)
                &&& final(self).seg_arr.contents() == old(self).seg_arr.contents() + segs
                &&& final(self).curr_crd_cnt == c
                &&& final(self).end_fiber == e
            }),
            match t {
                Token::Val(_) => final(self).crd_write_count == old(self).crd_write_count + 1
                    && final(self).seg_write_count == old(self).seg_write_count,
                Token::Stop(_) => final(self).crd_write_count == old(self).crd_write_count
                    && final(self).seg_write_count == old(self).seg_write_count + if old(self).end_fiber { 0int } else { 1 },
                _ => final(self).crd_write_count == old(self).crd_write_count
                    && final(self).seg_write_count == old(self).seg_write_count,
            },
            !(t is Val || t is Stop) || (t is Stop && old(self).end_fiber) ==> final(self).crd_arr.pending@.len() == 0
                && final(self).seg_arr.pending@.len() == 0,
            t is Val ==> final(self).seg_arr.pending@ == old(self).seg_arr.pending@,
            t is Val && old(self).crd_arr.hbm ==> final(self).crd_arr.pending@.len() == (old(self).crd_arr.pending@.len()
                + 1) % (old(self).crd_arr.batch as nat),
            t is Stop && !old(self).end_fiber ==> final(self).crd_arr.pending@ == old(self).crd_arr.pending@,
            t is Stop && !old(self).end_fiber && old(self).seg_arr.hbm ==> final(self).seg_arr.pending@.len() == (
            old(self).seg_arr.pending@.len() + 1) % (old(self).seg_arr.batch as nat),
            !old(self).crd_arr.hbm ==> r.0 is None,
            !old(self).seg_arr.hbm ==> r.1 is None,
            r.0 is Some ==> final(self).crd_arr.pending@.len() == 0,
            r.1 is Some ==> final(self).seg_arr.pending@.len() == 0,
            t is Val ==> r.1 is None,
            t is Stop && !old(self).end_fiber ==> r.0 is None,
            old(self).crd_arr.hbm && t is Val ==> (r.0 is Some <==> old(self).crd_arr.pending@.len() + 1 >= old(self).crd_arr.batch),
            old(self).seg_arr.hbm && t is Stop && !old(self).end_fiber ==> (r.1 is Some <==> old(self).seg_arr.pending@.len() + 1
                >= old(self).seg_arr.batch),
            old(self).crd_arr.hbm && (t is Empty || t is Done || (t is Stop && old(self).end_fiber)) ==> (r.0 is Some
                <==> old(self).crd_arr.pending@.len() > 0),
            old(self).seg_arr.hbm && (t is Empty || t is Done || (t is Stop && old(self).end_fiber)) ==> (r.1 is Some
                <==> old(self).seg_arr.pending@.len() > 0),
            old(self).crd_arr.hbm && r.0 is None ==> final(self).crd_arr.committed@ == old(self).crd_arr.committed@,
            old(self).seg_arr.hbm && r.1 is None ==> final(self).seg_arr.committed@ == old(self).seg_arr.committed@,
            r.0 is Some ==> final(self).crd_arr.committed@.len() >= old(self).crd_arr.committed@.len() && r.0->0@
                == element_addrs(
                old(self).crd_arr.base,
                old(self).crd_arr.stride,
                old(self).crd_arr.committed@.len(),
                (final(self).crd_arr.committed@.len() - old(self).crd_arr.committed@.len()) as nat,
            ),
            r.1 is Some ==> final(self).seg_arr.committed@.len() >= old(self).seg_arr.committed@.len() && r.1->0@
                == element_addrs(
                old(self).seg_arr.base,
                old(self).seg_arr.stride,
                old(self).seg_arr.committed@.len(),
                (final(self).seg_arr.committed@.len() - old(self).seg_arr.committed@.len()) as nat,
            ),
    {
        proof {
            self.crd_arr.lemma_room_mono(1, 0);
            self.seg_arr.lemma_room_mono(1, 0);
            let one = seq![t];
            assert(one[0] == t);
            assert(one.drop_first() =~= Seq::<Token<u32, u32>>::empty());
            assert(payloads(one.drop_first()) =~= Seq::<u32>::empty());
            reveal_with_fuel(seg_scan, 2);
            reveal_with_fuel(payloads, 2);
        }
        match t {
            Token::Val(v) => {
                let r = self.crd_arr.write(v);
                self.curr_crd_cnt = self.curr_crd_cnt + 1;
                self.end_fiber = false;
                self.crd_write_count = self.crd_write_count + 1;
                proof {
                    let one = seq![t];
                    assert(one[0] == t);
                    assert(seg_scan(one.drop_first(), old(self).curr_crd_cnt as nat + 1, false) == (
                        Seq::<u32>::empty(),
                        old(self).curr_crd_cnt as nat + 1,
                        false,
                    ));
                    assert(payloads(one) =~= seq![v]);
                    assert(old(self).crd_arr.contents().push(v) =~= old(self).crd_arr.contents() + seq![v]);
                    assert(self.seg_arr.contents() =~= old(self).seg_arr.contents() + Seq::<u32>::empty());
                    assert(seg_scan(one, old(self).curr_crd_cnt as nat, old(self).end_fiber) == (
                        Seq::<u32>::empty(),
                        old(self).curr_crd_cnt as nat + 1,
                        false,
                    ));
                    assert(self.crd_arr.contents() == old(self).crd_arr.contents() + payloads(one));
                    assert(self.curr_crd_cnt == old(self).curr_crd_cnt as nat + 1);
                }
                (r, None)
            },
            Token::Stop(_) => {
                if !self.end_fiber {
                    let cnt = self.curr_crd_cnt;
                    let r = self.seg_arr.write(cnt);
                    self.end_fiber = true;
                    self.seg_write_count = self.seg_write_count + 1;
                    proof {
                        let one = seq![t];
                        assert(one[0] == t);
                        assert(seg_scan(one.drop_first(), cnt as nat, true) == (Seq::<u32>::empty(), cnt as nat, true));
                        assert(seg_scan(one, cnt as nat, false).0 =~= seq![cnt]);
                        assert(old(self).seg_arr.contents().push(cnt) =~= old(self).seg_arr.contents() + seq![cnt]);
                        assert(payloads(one) =~= Seq::<u32>::empty());
                        assert(self.crd_arr.contents() =~= old(self).crd_arr.contents() + Seq::<u32>::empty());
                    }
                    (None, r)
                } else {
                    let a = self.crd_arr.flush();
                    let b = self.seg_arr.flush();
                    proof {
                        assert(self.crd_arr.contents() =~= old(self).crd_arr.contents() + Seq::<u32>::empty());
                        assert(self.seg_arr.contents() =~= old(self).seg_arr.contents() + Seq::<u32>::empty());
                        assert(seg_scan(seq![t], self.curr_crd_cnt as nat, true) == (Seq::<u32>::empty(), self.curr_crd_cnt as nat, true));
                        assert(payloads(seq![t]) =~= Seq::<u32>::empty());
                    }
                    (a, b)
                }
            },
            Token::Empty => {
                let a = self.crd_arr.flush();
                let b = self.seg_arr.flush();
                proof {
                    assert(self.crd_arr.contents() =~= old(self).crd_arr.contents() + Seq::<u32>::empty());
                    assert(self.seg_arr.contents() =~= old(self).seg_arr.contents() + Seq::<u32>::empty());
                    assert(seg_scan(seq![t], self.curr_crd_cnt as nat, self.end_fiber) == (Seq::<u32>::empty(), self.curr_crd_cnt as nat, self.end_fiber));
                    assert(payloads(seq![t]) =~= Seq::<u32>::empty());
                }
                (a, b)
            },
            Token::Done => {
                let a = self.crd_arr.flush();
                let b = self.seg_arr.flush();
                self.finished = true;
                proof {
                    assert(self.crd_arr.contents() =~= old(self).crd_arr.contents() + Seq::<u32>::empty());
                    assert(self.seg_arr.contents() =~= old(self).seg_arr.contents() + Seq::<u32>::empty());
                    assert(seg_scan(seq![t], self.curr_crd_cnt as nat, self.end_fiber) == (Seq::<u32>::empty(), self.curr_crd_cnt as nat, self.end_fiber));
                    assert(payloads(seq![t]) =~= Seq::<u32>::empty());
                }
                (a, b)
            },
        }
    }
}

proof fn lemma_seg_scan_split(s: Seq<Token<u32, u32>>, c: nat, e: bool)
    requires
        s.len() > 0,
        !(s[0] is Done),
    ensures
        ({
            let (a, c1, e1) = seg_scan(seq![s[0]], c, e);
            let (b, c2, e2) = seg_scan(s.drop_first(), c1, e1);
            seg_scan(s, c, e) == (a + b, c2, e2)
        }),
        payloads(s) == payloads(seq![s[0]]) + payloads(s.drop_first()),
{
    reveal_with_fuel(seg_scan, 2);
    reveal_with_fuel(payloads, 2);
    let one = seq![s[0]];
    assert(one[0] == s[0]);
    assert(one.drop_first() =~= Seq::<Token<u32, u32>>::empty());
    let (a, c1, e1) = seg_scan(one, c, e);
    let (b, c2, e2) = seg_scan(s.drop_first(), c1, e1);
    assert(a + b =~= seg_scan(s, c, e).0);
    assert(payloads(s) =~= payloads(seq![s[0]]) + payloads(s.drop_first()));
}

impl CompressedWrScan {
    /// Writes a whole coordinate stream, up to its done token; returns the
    /// coordinate and the segment address batches requested from memory, in
    /// order (each batch is committed once its addresses are requested).
    pub fn run(&mut self, input: &Vec<Token<u32, u32>>) -> (requested: (Vec<ParAddrs>, Vec<ParAddrs>))
        requires
            old(self).wf(),
            !old(self).finished,
            old(self).crd_arr.has_room(input@.len()),
            old(self).seg_arr.has_room(input@.len()),
            old(self).curr_crd_cnt + input@.len() <= u32::MAX,
            old(self).crd_write_count + input@.len() <= u64::MAX,
            old(self).seg_write_count + input@.len() <= u64::MAX,
        ensures
            final(self).wf(),
            ({
                let (segs, c, e) = seg_scan(input@, old(self).curr_crd_cnt as nat, old(self).end_fiber);
                &&& final(self).crd_arr.contents() == old(self).crd_arr.contents() + payloads(input@)
                &&& final(self).seg_arr.contents() == old(self).seg_arr.contents() + segs
                &&& final(self).curr_crd_cnt == c
                &&& final(self).end_fiber == e
            }),
            has_done(input@) ==> final(self).finished && final(self).crd_arr.pending@.len() == 0
                && final(self).seg_arr.pending@.len() == 0,
            has_done(input@) ==> final(self).crd_arr.committed@ == old(self).crd_arr.contents() + payloads(input@)
                && final(self).seg_arr.committed@ == old(self).seg_arr.contents() + seg_scan(
                input@,
                old(self).curr_crd_cnt as nat,
                old(self).end_fiber,
            ).0,
            old(self).crd_arr.hbm ==> final(self).crd_arr.pending@.len() == crd_batch_pending(
                input@,
                old(self).crd_arr.pending@.len(),
                old(self).end_fiber,
                old(self).crd_arr.batch as nat,
            ),
            old(self).seg_arr.hbm ==> final(self).seg_arr.pending@.len() == seg_batch_pending(
                input@,
                old(self).seg_arr.pending@.len(),
                old(self).end_fiber,
                old(self).seg_arr.batch as nat,
            ),
            final(self).crd_arr.committed@.len() >= old(self).crd_arr.committed@.len(),
            final(self).seg_arr.committed@.len() >= old(self).seg_arr.committed@.len(),
            old(self).crd_arr.hbm ==> batches_view(requested.0@) == crd_batches(
                input@,
                old(self).crd_arr.pending@.len(),
                old(self).crd_arr.committed@.len(),
                old(self).end_fiber,
                old(self).crd_arr.batch as nat,
                old(self).crd_arr.base,
                old(self).crd_arr.stride,
            ),
            old(self).seg_arr.hbm ==> batches_view(requested.1@) == seg_batches(
                input@,
                old(self).seg_arr.pending@.len(),
                old(self).seg_arr.committed@.len(),
                old(self).end_fiber,
                old(self).seg_arr.batch as nat,
                old(self).seg_arr.base,
                old(self).seg_arr.stride,
            ),
            !old(self).crd_arr.hbm ==> requested.0@.len() == 0,
            !old(self).seg_arr.hbm ==> requested.1@.len() == 0,
    {
        let mut req_crd: Vec<ParAddrs> = Vec::new();
        let mut req_seg: Vec<ParAddrs> = Vec::new();
        let ghost cc0 = self.crd_arr.contents();
        let ghost sc0 = self.seg_arr.contents();
        let ghost cl0 = self.crd_arr.committed@.len();
        let ghost sl0 = self.seg_arr.committed@.len();
        let ghost total = seg_scan(input@, self.curr_crd_cnt as nat, self.end_fiber);
        let ghost cnt0 = self.curr_crd_cnt as nat;
        let ghost bc = self.crd_arr.batch as nat;
        let ghost bs = self.seg_arr.batch as nat;
        let ghost cpend = crd_batch_pending(input@, self.crd_arr.pending@.len(), self.end_fiber, bc);
        let ghost spend = seg_batch_pending(input@, self.seg_arr.pending@.len(), self.end_fiber, bs);
        let ghost cbat = crd_batches(
            input@,
            self.crd_arr.pending@.len(),
            cl0,
            self.end_fiber,
            bc,
            self.crd_arr.base,
            self.crd_arr.stride,
        );
        let ghost sbat = seg_batches(
            input@,
            self.seg_arr.pending@.len(),
            sl0,
            self.end_fiber,
            bs,
            self.seg_arr.base,
            self.seg_arr.stride,
        );
        let mut i: usize = 0;
        assert(input@.skip(0) =~= input@);
        while i < input.len() && !self.finished
            invariant
                i <= input.len(),
                self.wf(),
                self.crd_arr.batch == bc,
                self.seg_arr.batch == bs,
                !self.finished && self.crd_arr.hbm ==> cpend == crd_batch_pending(
                    input@.skip(i as int),
                    self.crd_arr.pending@.len(),
                    self.end_fiber,
                    bc,
                ),
                !self.finished && self.seg_arr.hbm ==> spend == seg_batch_pending(
                    input@.skip(i as int),
                    self.seg_arr.pending@.len(),
                    self.end_fiber,
                    bs,
                ),
                self.finished && self.crd_arr.hbm ==> cpend == 0,
                self.finished && self.seg_arr.hbm ==> spend == 0,
                self.crd_arr.hbm == old(self).crd_arr.hbm,
                self.seg_arr.hbm == old(self).seg_arr.hbm,
                self.crd_arr.base == old(self).crd_arr.base,
                self.seg_arr.base == old(self).seg_arr.base,
                self.crd_arr.stride == old(self).crd_arr.stride,
                self.seg_arr.stride == old(self).seg_arr.stride,
                self.crd_arr.has_room((input@.len() - i) as nat),
                self.seg_arr.has_room((input@.len() - i) as nat),
                self.curr_crd_cnt + (input@.len() - i) <= u32::MAX,
                self.crd_write_count + (input@.len() - i) <= u64::MAX,
                self.seg_write_count + (input@.len() - i) <= u64::MAX,
                self.crd_arr.committed@.len() >= cl0,
                self.seg_arr.committed@.len() >= sl0,
                !self.finished ==> cc0 + payloads(input@) == self.crd_arr.contents() + payloads(input@.skip(i as int)),
                !self.finished ==> ({
                    let (b, c2, e2) = seg_scan(input@.skip(i as int), self.curr_crd_cnt as nat, self.end_fiber);
                    sc0 + total.0 == self.seg_arr.contents() + b && total.1 == c2 && total.2 == e2
                }),
                !self.finished ==> forall|j: int| 0 <= j < i ==> !(input@[j] is Done),
                self.finished ==> cc0 + payloads(input@) == self.crd_arr.contents(),
                self.finished ==> sc0 + total.0 == self.seg_arr.contents() && total.1 == self.curr_crd_cnt
                    && total.2 == self.end_fiber,
                self.finished ==> self.crd_arr.pending@.len() == 0 && self.seg_arr.pending@.len() == 0,
                old(self).crd_arr.hbm && !self.finished ==> batches_view(req_crd@) + crd_batches(
                    input@.skip(i as int),
                    self.crd_arr.pending@.len(),
                    self.crd_arr.committed@.len(),
                    self.end_fiber,
                    bc,
                    self.crd_arr.base,
                    self.crd_arr.stride,
                ) == cbat,
                old(self).seg_arr.hbm && !self.finished ==> batches_view(req_seg@) + seg_batches(
                    input@.skip(i as int),
                    self.seg_arr.pending@.len(),
                    self.seg_arr.committed@.len(),
                    self.end_fiber,
                    bs,
                    self.seg_arr.base,
                    self.seg_arr.stride,
                ) == sbat,
                old(self).crd_arr.hbm && self.finished ==> batches_view(req_crd@) == cbat,
                old(self).seg_arr.hbm && self.finished ==> batches_view(req_seg@) == sbat,
                !old(self).crd_arr.hbm ==> req_crd@.len() == 0,
                !old(self).seg_arr.hbm ==> req_seg@.len() == 0,
            decreases input.len() - i,
        {
            let t = input[i];
            let ghost s = input@.skip(i as int);
            let ghost cb = self.crd_arr.contents();
            let ghost sb = self.seg_arr.contents();
            let ghost clb = self.crd_arr.committed@.len();
            let ghost slb = self.seg_arr.committed@.len();
            let ghost cntb = self.curr_crd_cnt as nat;
            let ghost endb = self.end_fiber;
            let ghost pcb = self.crd_arr.pending@.len();
            let ghost psb = self.seg_arr.pending@.len();
            let ghost rqc = batches_view(req_crd@);
            let ghost rqs = batches_view(req_seg@);
            assert(s[0] == t);
            assert(s.drop_first() =~= input@.skip(i as int + 1));
            proof {
                self.crd_arr.lemma_room_mono((input@.len() - i) as nat, 1);
                self.seg_arr.lemma_room_mono((input@.len() - i) as nat, 1);
                if !(t is Done) {
                    lemma_seg_scan_split(s, cntb, endb);
                }
            }
            let (a, b) = self.step(t);
            let ghost ra = a;
            let ghost rb = b;
            match a {
                Some(addrs) => {
                    req_crd.push(ParAddrs::new(addrs));
                    assert(batches_view(req_crd@) =~= rqc.push(addrs@));
                },
                None => {
                    assert(batches_view(req_crd@) =~= rqc);
                },
            }
            match b {
                Some(addrs) => {
                    req_seg.push(ParAddrs::new(addrs));
                    assert(batches_view(req_seg@) =~= rqs.push(addrs@));
                },
                None => {
                    assert(batches_view(req_seg@) =~= rqs);
                },
            }
            proof {
                let cbase = self.crd_arr.base;
                let cstr = self.crd_arr.stride;
                let sbase = self.seg_arr.base;
                let sstr = self.seg_arr.stride;
                reveal_with_fuel(seg_scan, 2);
                reveal_with_fuel(payloads, 2);
                assert(seq![t][0] == t);
                assert(seq![t].drop_first() =~= Seq::<Token<u32, u32>>::empty());
                let one_c: nat = if t is Val { 1 } else { 0 };
                let one_s: nat = if t is Stop && !endb { 1 } else { 0 };
                assert(self.crd_arr.contents().len() == cb.len() + one_c);
                assert(self.seg_arr.contents().len() == sb.len() + one_s);
                assert(self.end_fiber == if t is Val { false } else if t is Stop { true } else { endb });
                if old(self).crd_arr.hbm {
                    let rest = crd_batches(s.drop_first(), self.crd_arr.pending@.len(), self.crd_arr.committed@.len(), self.end_fiber, bc, cbase, cstr);
                    if t is Val && ra is None {
                        vstd::arithmetic::div_mod::lemma_small_mod(pcb + 1, bc);
                    }
                    if !(t is Done) {
                        assert(rqc + crd_batches(s, pcb, clb, endb, bc, cbase, cstr) == batches_view(req_crd@) + rest) by {
                            if ra is Some {
                                assert(rqc + (seq![ra->0@] + rest) =~= rqc.push(ra->0@) + rest);
                            }
                        }
                    } else {
                        if ra is Some {
                            assert(rqc + seq![ra->0@] =~= rqc.push(ra->0@));
                        } else {
                            assert(rqc + Seq::<Seq<u64>>::empty() =~= rqc);
                        }
                    }
                }
                if old(self).seg_arr.hbm {
                    let rest = seg_batches(s.drop_first(), self.seg_arr.pending@.len(), self.seg_arr.committed@.len(), self.end_fiber, bs, sbase, sstr);
                    if t is Stop && !endb && rb is None {
                        vstd::arithmetic::div_mod::lemma_small_mod(psb + 1, bs);
                    }
                    if !(t is Done) {
                        assert(rqs + seg_batches(s, psb, slb, endb, bs, sbase, sstr) == batches_view(req_seg@) + rest) by {
                            if rb is Some {
                                assert(rqs + (seq![rb->0@] + rest) =~= rqs.push(rb->0@) + rest);
                            }
                        }
                    } else {
                        if rb is Some {
                            assert(rqs + seq![rb->0@] =~= rqs.push(rb->0@));
                        } else {
                            assert(rqs + Seq::<Seq<u64>>::empty() =~= rqs);
                        }
                    }
                }
            }
            proof {
                let (a1, c1, e1) = seg_scan(seq![t], cntb, endb);
                reveal_with_fuel(seg_scan, 2);
                assert(seq![t][0] == t);
                assert(seq![t].drop_first() =~= Seq::<Token<u32, u32>>::empty());
                assert(a1.len() <= 1 && c1 <= cntb + 1);
                if t is Done {
                    assert(cb + payloads(s) =~= cb);
                    assert(sb + seg_scan(s, cntb, endb).0 =~= sb);
                } else {
                    assert(cb + payloads(s) =~= (cb + payloads(seq![t])) + payloads(s.drop_first()));
                    let (b2, c2, e2) = seg_scan(s.drop_first(), c1, e1);
                    assert(sb + (a1 + b2) =~= (sb + a1) + b2);
                }
                let k = (input@.len() - i - 1) as nat;
                let nc = self.crd_arr.contents().len();
                let ns = self.seg_arr.contents().len();
                assert(nc <= cb.len() + 1);
                assert(ns <= sb.len() + 1);
                let cbase = self.crd_arr.base;
                let cstr = self.crd_arr.stride;
                let sbase = self.seg_arr.base;
                let sstr = self.seg_arr.stride;
                assert(cbase + (nc + k) * cstr <= cbase + (cb.len() + 1 + k) * cstr) by (nonlinear_arith)
                    requires
                        nc <= cb.len() + 1,
                ;
                assert(sbase + (ns + k) * sstr <= sbase + (sb.len() + 1 + k) * sstr) by (nonlinear_arith)
                    requires
                        ns <= sb.len() + 1,
                ;
            }
            i = i + 1;
        }
        proof {
            if !self.finished {
                assert(input@.skip(i as int).len() == 0);
                assert(cc0 + payloads(input@) =~= self.crd_arr.contents());
                assert(sc0 + total.0 =~= self.seg_arr.contents());
                if has_done(input@) {
                    let j = choose|j: int| 0 <= j < input@.len() && input@[j] is Done;
                    assert(false);
                }
            }
            assert(cc0 + payloads(input@) == self.crd_arr.contents());
            assert(self.crd_arr.contents() =~= cc0 + payloads(input@));
            assert(self.seg_arr.contents() =~= sc0 + total.0);
        }
        proof {
            if !self.finished {
                assert(input@.skip(i as int) =~= Seq::<Token<u32, u32>>::empty());
                assert(batches_view(req_crd@) + Seq::<Seq<u64>>::empty() =~= batches_view(req_crd@));
                assert(batches_view(req_seg@) + Seq::<Seq<u64>>::empty() =~= batches_view(req_seg@));
            }
        }
        (req_crd, req_seg)
    }
}

/// Law: the segment entries recorded for a stream are running coordinate
/// counts: they never decrease, they lie between the count before and the
/// count after the stream, and the count after is the count before plus
/// the number of coordinates in the stream.
pub proof fn lemma_seg_entries_are_counts(input: Seq<Token<u32, u32>>, cnt: nat, end_fiber: bool)
    requires
        cnt + input.len() <= u32::MAX,
    ensures
        ({
            let (segs, c, e) = seg_scan(input, cnt, end_fiber);
            &&& c == cnt + payloads(input).len()
            &&& forall|k: int| 0 <= k < segs.len() ==> cnt <= #[trigger] segs[k] <= c
            &&& forall|k: int, l: int| 0 <= k <= l < segs.len() ==> segs[k] <= segs[l]
        }),
    decreases input.len(),
{
    if input.len() > 0 {
        let rest = input.drop_first();
        match input[0] {
            Token::Val(_) => {
                lemma_seg_entries_are_counts(rest, cnt + 1, false);
            },
            Token::Stop(_) => {
                lemma_seg_entries_are_counts(rest, cnt, true);
                if !end_fiber {
                    let (s2, c2, e2) = seg_scan(rest, cnt, true);
                    let segs = seq![cnt as u32] + s2;
                    assert forall|k: int| 0 <= k < segs.len() implies cnt <= #[trigger] segs[k] <= c2 by {
                        if k > 0 {
                            assert(segs[k] == s2[k - 1]);
                        }
                    }
                    assert forall|k: int, l: int| 0 <= k <= l < segs.len() implies segs[k] <= segs[l] by {
                        if k > 0 {
                            assert(segs[k] == s2[k - 1]);
                        }
                        if l > 0 {
                            assert(segs[l] == s2[l - 1]);
                        }
                    }
                }
            },
            Token::Empty => {
                lemma_seg_entries_are_counts(rest, cnt, end_fiber);
            },
            Token::Done => {},
        }
    }
}
} // verus!
