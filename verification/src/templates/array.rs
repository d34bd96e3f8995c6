use vstd::prelude::*;

use super::primitive::Token;
use super::ramulator::hbm_context::ParAddrs;
use super::stkn_dropper::DropStatus;

verus! {

/// A reference stream.
pub type Ref = Token<u32, u32>;

/// The value read for reference token `t`: the array element it names, the
/// fill value for an empty marker; stop and done tokens pass.
pub open spec fn gather_tok<V>(arr: Seq<V>, fill: V, t: Ref) -> Token<V, u32> {
    match t {
        Token::Val(r) => Token::Val(arr[r as int]),
        Token::Stop(s) => Token::Stop(s),
        Token::Empty => Token::Val(fill),
        Token::Done => Token::Done,
    }
}

/// The value stream read for the references from position `i` on: every
/// reference is looked up in `arr` (one outside it is a fault), up to and
/// including the done token.
pub open spec fn gather_run<V>(arr: Seq<V>, fill: V, refs: Seq<Ref>, i: nat) -> (Seq<Token<V, u32>>, DropStatus)
    decreases refs.len() - i,
{
    if i >= refs.len() {
        (seq![], DropStatus::Exhausted)
    } else {
        let t = refs[i as int];
        if t is Val && t->Val_0 >= arr.len() {
            (seq![], DropStatus::Fault)
        } else if t is Done {
            (seq![Token::Done], DropStatus::Finished)
        } else {
            let (rest, st) = gather_run(arr, fill, refs, i + 1);
            (seq![gather_tok(arr, fill, t)] + rest, st)
        }
    }
}

/// The byte address of element `idx` of an array laid out from `base`,
/// `stride` bytes per element.
pub open spec fn elem_addr(base: u64, stride: u64, idx: u32) -> int {
    base + idx * stride
}

/// Every reference of the stream has an address that fits in 64 bits.
pub open spec fn addrs_fit(refs: Seq<Ref>, base: u64, stride: u64) -> bool {
    forall|i: int| 0 <= i < refs.len() && (#[trigger] refs[i]) is Val ==> elem_addr(base, stride, refs[i]->Val_0) <= u64::MAX
}

/// The read requests for the references from position `i` on, with the
/// addresses `pending` not yet sent: the addresses are gathered into
/// batches of `batch`; a control token sends the partial batch first.  Also
/// returns the reference stream as forwarded (up to the done token) and the
/// status.
pub open spec fn issue_run(refs: Seq<Ref>, base: u64, stride: u64, batch: nat, i: nat, pending: Seq<u64>) -> (
    Seq<Seq<u64>>,
    Seq<Ref>,
    DropStatus,
)
    decreases refs.len() - i,
{
    if i >= refs.len() {
        (seq![], seq![], DropStatus::Exhausted)
    } else {
        let t = refs[i as int];
        let partial = if pending.len() > 0 { seq![pending] } else { seq![] };
        match t {
            Token::Val(r) => {
                let p = pending.push(elem_addr(base, stride, r) as u64);
                if p.len() >= batch {
                    let (b, f, st) = issue_run(refs, base, stride, batch, i + 1, seq![]);
                    (seq![p] + b, seq![t] + f, st)
                } else {
                    let (b, f, st) = issue_run(refs, base, stride, batch, i + 1, p);
                    (b, seq![t] + f, st)
                }
            },
            Token::Done => (partial, seq![t], DropStatus::Finished),
            _ => {
                let (b, f, st) = issue_run(refs, base, stride, batch, i + 1, seq![]);
                (partial + b, seq![t] + f, st)
            },
        }
    }
}

/// The addresses of the references from position `i` up to the done token.
pub open spec fn ref_addrs(refs: Seq<Ref>, base: u64, stride: u64, i: nat) -> Seq<u64>
    decreases refs.len() - i,
{
    if i >= refs.len() {
        seq![]
    } else {
        match refs[i as int] {
            Token::Val(r) => seq![elem_addr(base, stride, r) as u64] + ref_addrs(refs, base, stride, i + 1),
            Token::Done => seq![],
            _ => ref_addrs(refs, base, stride, i + 1),
        }
    }
}

pub open spec fn batches_view(b: Seq<ParAddrs>) -> Seq<Seq<u64>> {
    b.map_values(|p: ParAddrs| p.addrs@)
}

/// Reads values out of an array by reference: the value stream follows the
/// reference stream token for token.  With reads through HBM enabled, it
/// also says which address batches it requests.
pub struct Array<V> {
    pub val_arr: Vec<V>,
    /// The value handed out for an empty reference.
    pub fill: V,
    pub block_size: usize,
    pub hbm_enabled: bool,
    pub hbm_rd_base: u64,
    pub hbm_rd_stride: u64,
    pub hbm_rd_batch: usize,
    pub hbm_prefetch_depth: usize,
}

impl<V: Copy> Array<V> {
    pub fn new(val_arr: Vec<V>, fill: V, block_size: usize) -> (r: Self)
        ensures
            r.val_arr@ == val_arr@,
            r.fill == fill,
            r.block_size == block_size,
            !r.hbm_enabled,
            r.hbm_rd_base == 0,
            r.hbm_rd_stride == 4,
            r.hbm_rd_batch == 8,
            r.hbm_prefetch_depth == 1,
    {
        Array {
            val_arr,
            fill,
            block_size,
            hbm_enabled: false,
            hbm_rd_base: 0,
            hbm_rd_stride: 4,
            hbm_rd_batch: 8,
            hbm_prefetch_depth: 1,
        }
    }

    /// Reads through HBM, the array laid out from `base` with `stride`
    /// bytes per element (at least 1).
    pub fn enable_hbm_reads(&mut self, base: u64, stride: u64)
        ensures
            final(self).hbm_enabled,
            final(self).hbm_rd_base == base,
            final(self).hbm_rd_stride == if stride >= 1 { stride } else { 1 },
            final(self).val_arr@ == old(self).val_arr@,
            final(self).fill == old(self).fill,
            final(self).block_size == old(self).block_size,
            final(self).hbm_rd_batch == old(self).hbm_rd_batch,
            final(self).hbm_prefetch_depth == old(self).hbm_prefetch_depth,
    {
        self.hbm_enabled = true;
        self.hbm_rd_base = base;
        self.hbm_rd_stride = if stride >= 1 { stride } else { 1 };
    }

    pub fn set_hbm_batch_size(&mut self, batch: usize)
        ensures
            final(self).hbm_rd_batch == if batch >= 1 { batch } else { 1 },
            final(self).val_arr@ == old(self).val_arr@,
            final(self).fill == old(self).fill,
            final(self).block_size == old(self).block_size,
            final(self).hbm_enabled == old(self).hbm_enabled,
            final(self).hbm_rd_base == old(self).hbm_rd_base,
            final(self).hbm_rd_stride == old(self).hbm_rd_stride,
            final(self).hbm_prefetch_depth == old(self).hbm_prefetch_depth,
    {
        self.hbm_rd_batch = if batch >= 1 { batch } else { 1 };
    }

    pub fn set_prefetch_depth(&mut self, depth: usize)
        ensures
            final(self).hbm_prefetch_depth == if depth >= 1 { depth } else { 1 },
            final(self).val_arr@ == old(self).val_arr@,
            final(self).fill == old(self).fill,
            final(self).block_size == old(self).block_size,
            final(self).hbm_enabled == old(self).hbm_enabled,
            final(self).hbm_rd_base == old(self).hbm_rd_base,
            final(self).hbm_rd_stride == old(self).hbm_rd_stride,
            final(self).hbm_rd_batch == old(self).hbm_rd_batch,
    {
        self.hbm_prefetch_depth = if depth >= 1 { depth } else { 1 };
    }

    /// Returns the value stream, the address batches requested from HBM
    /// (none when HBM reads are off) and the status.  How many batches are
    /// kept in flight only changes timing, not what is read.
    pub fn run(&self, in_ref: &Vec<Ref>) -> (r: (Vec<Token<V, u32>>, Vec<ParAddrs>, DropStatus))
        requires
            self.hbm_enabled ==> addrs_fit(in_ref@, self.hbm_rd_base, self.hbm_rd_stride),
            self.hbm_rd_batch >= 1,
        ensures
            (r.0@, r.2) == gather_run(self.val_arr@, self.fill, in_ref@, 0),
            batches_view(r.1@) == if self.hbm_enabled {
                issue_run(in_ref@, self.hbm_rd_base, self.hbm_rd_stride, self.hbm_rd_batch as nat, 0, seq![]).0
            } else {
                seq![]
            },
    {
        let (vals, st) = gather(&self.val_arr, self.fill, in_ref);
        if self.hbm_enabled {
            let (batches, _fwd, _ist) = issue(in_ref, self.hbm_rd_base, self.hbm_rd_stride, self.hbm_rd_batch);
            (vals, batches, st)
        } else {
            let batches: Vec<ParAddrs> = Vec::new();
            assert(batches_view(batches@) =~= seq![]);
            (vals, batches, st)
        }
    }

    /// Splits the array into an issuer that sends the address batches
    /// (32 addresses each, one per HBM channel) and a consumer that reads
    /// the values in reference order.
    pub fn enable_hbm_pipelined(self, hbm_base: u64, hbm_stride: u64) -> (r: (ArrayIssuer, ArrayConsumer<V>))
        ensures
            r.0.hbm_base == hbm_base,
            r.0.hbm_stride == hbm_stride,
            r.0.batch_size == 32,
            r.1.val_arr@ == self.val_arr@,
            r.1.fill == self.fill,
            r.1.block_size == self.block_size,
    {
        let issuer = ArrayIssuer::new(hbm_base, hbm_stride, 32);
        let consumer = ArrayConsumer::new(self.val_arr, self.fill, self.block_size);
        (issuer, consumer)
    }
}

/// Looks every reference up in `arr`, up to the done token.
fn gather<V: Copy>(arr: &Vec<V>, fill: V, in_ref: &Vec<Ref>) -> (r: (Vec<Token<V, u32>>, DropStatus))
    ensures
        (r.0@, r.1) == gather_run(arr@, fill, in_ref@, 0),
{
    let ghost total = gather_run(arr@, fill, in_ref@, 0);
    let mut out: Vec<Token<V, u32>> = Vec::new();
    let mut i: usize = 0;
    while i < in_ref.len()
        invariant
            i <= in_ref.len(),
            total == gather_run(arr@, fill, in_ref@, 0),
            ({
                let (rest, st) = gather_run(arr@, fill, in_ref@, i as nat);
                total.0 == out@ + rest && total.1 == st
            }),
        decreases in_ref.len() - i,
    {
        let ghost o = out@;
        match in_ref[i] {
            Token::Val(r) => {
                if r as usize >= arr.len() {
                    assert(total.0 =~= out@);
                    return (out, DropStatus::Fault);
                }
                out.push(Token::Val(arr[r as usize]));
            },
            Token::Stop(s) => {
                out.push(Token::Stop(s));
            },
            Token::Empty => {
                out.push(Token::Val(fill));
            },
            Token::Done => {
                out.push(Token::Done);
                assert(total.0 =~= out@);
                return (out, DropStatus::Finished);
            },
        }
        proof {
            let (rest, st) = gather_run(arr@, fill, in_ref@, (i + 1) as nat);
            assert(o + (seq![out@.last()] + rest) =~= out@ + rest);
        }
        i = i + 1;
    }
    assert(total.0 =~= out@);
    (out, DropStatus::Exhausted)
}

/// Gathers the addresses of the references into batches of `batch`,
/// sending partial batches at control tokens; also forwards the references.
fn issue(in_ref: &Vec<Ref>, base: u64, stride: u64, batch: usize) -> (r: (Vec<ParAddrs>, Vec<Ref>, DropStatus))
    requires
        addrs_fit(in_ref@, base, stride),
        batch >= 1,
    ensures
        (batches_view(r.0@), r.1@, r.2) == issue_run(in_ref@, base, stride, batch as nat, 0, seq![]),
{
    let ghost refs = in_ref@;
    let ghost total = issue_run(refs, base, stride, batch as nat, 0, seq![]);
    let mut batches: Vec<ParAddrs> = Vec::new();
    let mut fwd: Vec<Ref> = Vec::new();
    let mut pending: Vec<u64> = Vec::new();
    let mut i: usize = 0;
    while i < in_ref.len()
        invariant
            i <= in_ref.len(),
            refs == in_ref@,
            batch >= 1,
            addrs_fit(refs, base, stride),
            total == issue_run(refs, base, stride, batch as nat, 0, seq![]),
            ({
                let (b, f, st) = issue_run(refs, base, stride, batch as nat, i as nat, pending@);
                total.0 == batches_view(batches@) + b && total.1 == fwd@ + f && total.2 == st
            }),
        decreases in_ref.len() - i,
    {
        let ghost b0 = batches_view(batches@);
        let ghost f0 = fwd@;
        let ghost p0 = pending@;
        let t = in_ref[i];
        fwd.push(t);
        match t {
            Token::Val(r) => {
                assert(refs[i as int] is Val);
                let addr = base + (r as u64) * stride;
                pending.push(addr);
                if pending.len() >= batch {
                    let mut full: Vec<u64> = Vec::new();
                    std::mem::swap(&mut full, &mut pending);
                    batches.push(ParAddrs::new(full));
                    proof {
                        let (b, f, st) = issue_run(refs, base, stride, batch as nat, (i + 1) as nat, seq![]);
                        assert(batches_view(batches@) =~= b0.push(full@));
                        assert(b0 + (seq![full@] + b) =~= batches_view(batches@) + b);
                        assert(f0 + (seq![t] + f) =~= fwd@ + f);
                    }
                } else {
                    proof {
                        let (b, f, st) = issue_run(refs, base, stride, batch as nat, (i + 1) as nat, pending@);
                        assert(f0 + (seq![t] + f) =~= fwd@ + f);
                    }
                }
            },
            Token::Done => {
                if pending.len() > 0 {
                    let mut part: Vec<u64> = Vec::new();
                    std::mem::swap(&mut part, &mut pending);
                    batches.push(ParAddrs::new(part));
                    assert(batches_view(batches@) =~= b0 + seq![p0]);
                } else {
                    assert(batches_view(batches@) =~= b0 + seq![]);
                }
                assert(total.1 =~= fwd@);
                return (batches, fwd, DropStatus::Finished);
            },
            _ => {
                let ghost partial = if p0.len() > 0 { seq![p0] } else { seq![] };
                if pending.len() > 0 {
                    let mut part: Vec<u64> = Vec::new();
                    std::mem::swap(&mut part, &mut pending);
                    batches.push(ParAddrs::new(part));
                    assert(batches_view(batches@) =~= b0 + partial);
                } else {
                    assert(batches_view(batches@) =~= b0 + partial);
                }
                proof {
                    let (b, f, st) = issue_run(refs, base, stride, batch as nat, (i + 1) as nat, seq![]);
                    assert(pending@ =~= seq![]);
                    assert(b0 + (partial + b) =~= batches_view(batches@) + b);
                    assert(f0 + (seq![t] + f) =~= fwd@ + f);
                }
            },
        }
        i = i + 1;
    }
    assert(total.0 =~= batches_view(batches@));
    assert(total.1 =~= fwd@);
    (batches, fwd, DropStatus::Exhausted)
}

/// The issuing half of a pipelined array read: sends address batches and
/// forwards the references to the consumer.
pub struct ArrayIssuer {
    pub hbm_base: u64,
    pub hbm_stride: u64,
    pub batch_size: usize,
}

impl ArrayIssuer {
    pub fn new(hbm_base: u64, hbm_stride: u64, batch_size: usize) -> (r: Self)
        ensures
            r.hbm_base == hbm_base,
            r.hbm_stride == hbm_stride,
            r.batch_size == if batch_size >= 1 { batch_size } else { 1 },
    {
        ArrayIssuer { hbm_base, hbm_stride, batch_size: if batch_size >= 1 { batch_size } else { 1 } }
    }

    /// Returns the address batches, the forwarded references and the status.
    pub fn run(&self, in_ref: &Vec<Ref>) -> (r: (Vec<ParAddrs>, Vec<Ref>, DropStatus))
        requires
            addrs_fit(in_ref@, self.hbm_base, self.hbm_stride),
            self.batch_size >= 1,
        ensures
            (batches_view(r.0@), r.1@, r.2) == issue_run(in_ref@, self.hbm_base, self.hbm_stride, self.batch_size as nat, 0, seq![]),
    {
        issue(in_ref, self.hbm_base, self.hbm_stride, self.batch_size)
    }
}

/// The consuming half of a pipelined array read: reads the values of the
/// forwarded references in order.
pub struct ArrayConsumer<V> {
    pub val_arr: Vec<V>,
    pub fill: V,
    pub block_size: usize,
}

impl<V: Copy> ArrayConsumer<V> {
    pub fn new(val_arr: Vec<V>, fill: V, block_size: usize) -> (r: Self)
        ensures
            r.val_arr@ == val_arr@,
            r.fill == fill,
            r.block_size == block_size,
    {
        ArrayConsumer { val_arr, fill, block_size }
    }

    pub fn run(&self, idx: &Vec<Ref>) -> (r: (Vec<Token<V, u32>>, DropStatus))
        ensures
            (r.0@, r.1) == gather_run(self.val_arr@, self.fill, idx@, 0),
    {
        gather(&self.val_arr, self.fill, idx)
    }
}

/// Law: an issuer that reaches the done token requests every address of
/// its references exactly once, in reference order, whatever the batch
/// size.
pub proof fn lemma_issue_requests_every_ref(refs: Seq<Ref>, base: u64, stride: u64, batch: nat, i: nat, pending: Seq<u64>)
    requires
        issue_run(refs, base, stride, batch, i, pending).2 == DropStatus::Finished,
    ensures
        issue_run(refs, base, stride, batch, i, pending).0.flatten() == pending + ref_addrs(refs, base, stride, i),
    decreases refs.len() - i,
{
    let b = issue_run(refs, base, stride, batch, i, pending).0;
    let e: Seq<u64> = seq![];
    let t = refs[i as int];
    let partial = if pending.len() > 0 { seq![pending] } else { seq![] };
    match t {
        Token::Val(r) => {
            let p = pending.push(elem_addr(base, stride, r) as u64);
            if p.len() >= batch {
                lemma_issue_requests_every_ref(refs, base, stride, batch, i + 1, e);
                let rest = issue_run(refs, base, stride, batch, i + 1, e).0;
                assert((seq![p] + rest).drop_first() =~= rest);
                assert(b.flatten() == p + rest.flatten());
                assert(p + (e + ref_addrs(refs, base, stride, i + 1)) =~= pending + ref_addrs(refs, base, stride, i));
            } else {
                lemma_issue_requests_every_ref(refs, base, stride, batch, i + 1, p);
                assert(p + ref_addrs(refs, base, stride, i + 1) =~= pending + ref_addrs(refs, base, stride, i));
            }
        },
        Token::Done => {
            assert(ref_addrs(refs, base, stride, i) =~= e);
            if pending.len() > 0 {
                assert(b =~= seq![pending]);
                seq![pending].lemma_flatten_one_element();
            } else {
                assert(b =~= Seq::<Seq<u64>>::empty());
            }
            assert(pending + e =~= pending);
        },
        _ => {
            lemma_issue_requests_every_ref(refs, base, stride, batch, i + 1, e);
            let rest = issue_run(refs, base, stride, batch, i + 1, e).0;
            assert(e + ref_addrs(refs, base, stride, i + 1) =~= ref_addrs(refs, base, stride, i + 1));
            if pending.len() > 0 {
                assert(b =~= seq![pending] + rest);
                assert((seq![pending] + rest).drop_first() =~= rest);
            } else {
                assert(b =~= rest);
            }
            assert(pending + ref_addrs(refs, base, stride, i + 1) =~= pending + ref_addrs(refs, base, stride, i));
        },
    }
}

proof fn lemma_gather_shift<V>(arr: Seq<V>, fill: V, t: Ref, s: Seq<Ref>, k: nat)
    ensures
        gather_run(arr, fill, seq![t] + s, k + 1) == gather_run(arr, fill, s, k),
    decreases s.len() - k,
{
    if k < s.len() {
        assert((seq![t] + s)[k + 1 as int] == s[k as int]);
        lemma_gather_shift(arr, fill, t, s, k + 1);
    }
}

/// Law: the values an array reads do not depend on its memory-timing
/// settings: two arrays holding the same values and fill value, whatever
/// their HBM base, stride, batch size and prefetch depth, and whether HBM
/// reads are on, give the same value stream and status for the same
/// references.
pub proof fn lemma_reads_ignore_memory_timing<V>(a1: Array<V>, a2: Array<V>, refs: Seq<Ref>)
    requires
        a1.val_arr@ == a2.val_arr@,
        a1.fill == a2.fill,
    ensures
        gather_run(a1.val_arr@, a1.fill, refs, 0) == gather_run(a2.val_arr@, a2.fill, refs, 0),
{
}

/// Law: reading through the pipelined issuer and consumer gives the same
/// value stream as reading directly, once the issuer has reached the done
/// token.
pub proof fn lemma_pipelined_reads_same_values<V>(
    arr: Seq<V>,
    fill: V,
    refs: Seq<Ref>,
    base: u64,
    stride: u64,
    batch: nat,
    i: nat,
    pending: Seq<u64>,
)
    requires
        issue_run(refs, base, stride, batch, i, pending).2 == DropStatus::Finished,
    ensures
        gather_run(arr, fill, issue_run(refs, base, stride, batch, i, pending).1, 0) == gather_run(arr, fill, refs, i),
    decreases refs.len() - i,
{
    let f = issue_run(refs, base, stride, batch, i, pending).1;
    let t = refs[i as int];
    let e: Seq<u64> = seq![];
    match t {
        Token::Done => {
            assert(f =~= seq![t]);
        },
        _ => {
            let next = match t {
                Token::Val(r) => {
                    let p = pending.push(elem_addr(base, stride, r) as u64);
                    if p.len() >= batch { e } else { p }
                },
                _ => e,
            };
            let rest = issue_run(refs, base, stride, batch, i + 1, next).1;
            assert(f == seq![t] + rest);
            lemma_pipelined_reads_same_values(arr, fill, refs, base, stride, batch, i + 1, next);
            lemma_gather_shift(arr, fill, t, rest, 0);
            assert(f[0] == t);
        },
    }
}

} // verus!
