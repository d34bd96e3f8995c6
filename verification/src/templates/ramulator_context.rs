use std::collections::HashMap;

use vstd::prelude::*;

use super::ramulator::access::{Access, MemoryData, SimpleWrite};
use super::ramulator::address::ByteAddress;
use super::ramulator::request_manager::RequestManager;

verus! {

broadcast use vstd::std_specs::hash::group_hash_axioms;

/// Bytes between consecutive stored elements.
pub const ADDR_OFFSET: u64 = 4;

/// Where a compressed level (segment array then coordinate array) lies.
#[derive(Clone, Copy, Debug, PartialEq, Eq)]
pub struct CoordPayload {
    pub seg_base: u64,
    pub crd_base: u64,
    /// Number of segment entries: the coordinates start this many elements
    /// after the segments.
    pub seg_size: usize,
}

/// What a context stored: a compressed level, or a value array at a base.
#[derive(Clone, Copy, Debug, PartialEq, Eq)]
pub enum Payload {
    Coord(CoordPayload),
    Value(u64),
}

/// `a` is the address of element `(a - base) / 4` of an array of `n`
/// elements stored from `base`.
pub open spec fn in_array(a: u64, base: u64, n: nat) -> bool {
    base <= a && a < base + ADDR_OFFSET * n && (a - base) % (ADDR_OFFSET as int) == 0
}

/// `m` with the `n` first `words` stored from `base`, one element every
/// `ADDR_OFFSET` bytes.
pub open spec fn store_words(m: Map<u64, MemoryData>, base: u64, words: Seq<MemoryData>, n: nat) -> Map<u64, MemoryData> {
    Map::new(
        |a: u64| m.contains_key(a) || in_array(a, base, n),
        |a: u64| if in_array(a, base, n) { words[(a - base) / (ADDR_OFFSET as int)] } else { m[a] },
    )
}

pub open spec fn u32_words(arr: Seq<u32>) -> Seq<MemoryData> {
    arr.map_values(|x: u32| MemoryData::U32(x))
}

pub open spec fn f32_words(arr: Seq<u32>) -> Seq<MemoryData> {
    arr.map_values(|x: u32| MemoryData::F32Bits(x))
}

/// The byte address of segment entry `seg_idx` of a level stored at `base`.
pub open spec fn seg_addr_spec(base: u64, seg_idx: usize) -> int {
    base + seg_idx * ADDR_OFFSET
}

/// The byte address of coordinate `crd_idx` of a level stored at `base`
/// with `seg_offset` segment entries.
pub open spec fn crd_addr_spec(base: u64, crd_idx: usize, seg_offset: usize) -> int {
    base + seg_offset * ADDR_OFFSET + crd_idx * ADDR_OFFSET
}

pub fn get_seg_addr(base_addr: u64, seg_idx: usize) -> (r: u64)
    requires
        seg_addr_spec(base_addr, seg_idx) <= u64::MAX,
    ensures
        r == seg_addr_spec(base_addr, seg_idx),
{
    base_addr + seg_idx as u64 * ADDR_OFFSET
}

pub fn get_crd_addr(base_addr: u64, crd_idx: usize, seg_offset: usize) -> (r: u64)
    requires
        crd_addr_spec(base_addr, crd_idx, seg_offset) <= u64::MAX,
    ensures
        r == crd_addr_spec(base_addr, crd_idx, seg_offset),
{
    base_addr + (seg_offset as u64) * ADDR_OFFSET + (crd_idx as u64) * ADDR_OFFSET
}

pub fn get_val_addr(base_addr: u64, val_idx: usize) -> (r: u64)
    requires
        seg_addr_spec(base_addr, val_idx) <= u64::MAX,
    ensures
        r == seg_addr_spec(base_addr, val_idx),
{
    base_addr + (val_idx as u64) * ADDR_OFFSET
}

/// The memory image behind the memory model: arrays are laid out one after
/// the other from address 0, one element every `ADDR_OFFSET` bytes, and
/// each context's arrays are found again by its id.
pub struct Memory {
    storage: HashMap<u64, MemoryData>,
    payload: HashMap<usize, Payload>,
    id_to_base_addr: HashMap<usize, u64>,
    current_base: u64,
}

impl Memory {
    /// The stored elements by byte address.
    pub closed spec fn cells(&self) -> Map<u64, MemoryData> {
        self.storage@
    }

    /// What each context stored.
    pub closed spec fn payloads(&self) -> Map<usize, Payload> {
        self.payload@
    }

    /// The first address of each context's arrays.
    pub closed spec fn bases(&self) -> Map<usize, u64> {
        self.id_to_base_addr@
    }

    /// Where the next array goes.
    pub closed spec fn next_base(&self) -> u64 {
        self.current_base
    }

    /// Every stored element lies below the next free address.
    pub open spec fn wf(&self) -> bool {
        forall|a: u64| #[trigger] self.cells().contains_key(a) ==> a < self.next_base()
    }

    pub fn new() -> (r: Self)
        ensures
            r.wf(),
            r.cells() == Map::<u64, MemoryData>::empty(),
            r.payloads() == Map::<usize, Payload>::empty(),
            r.bases() == Map::<usize, u64>::empty(),
            r.next_base() == 0,
    {
        Memory { storage: HashMap::new(), payload: HashMap::new(), id_to_base_addr: HashMap::new(), current_base: 0 }
    }

    /// The next free address.
    pub fn set_next_addr(&self) -> (r: u64)
        ensures
            r == self.next_base(),
    {
        self.current_base
    }

    /// Stores `words` from `base` on.
    fn store(&mut self, base: u64, words: &Vec<MemoryData>)
        requires
            base + ADDR_OFFSET * words@.len() <= u64::MAX,
        ensures
            final(self).cells() == store_words(old(self).cells(), base, words@, words@.len()),
            final(self).payloads() == old(self).payloads(),
            final(self).bases() == old(self).bases(),
            final(self).next_base() == old(self).next_base(),
    {
        let ghost m0 = self.cells();
        let mut i: usize = 0;
        assert(self.cells() =~= store_words(m0, base, words@, 0));
        while i < words.len()
            invariant
                i <= words@.len(),
                base + ADDR_OFFSET * words@.len() <= u64::MAX,
                self.cells() == store_words(m0, base, words@, i as nat),
                self.payloads() == old(self).payloads(),
                self.bases() == old(self).bases(),
                self.next_base() == old(self).next_base(),
            decreases words.len() - i,
        {
            let a = base + (i as u64) * ADDR_OFFSET;
            self.storage.insert(a, words[i]);
            proof {
                assert(a - base == 4 * i);
                assert forall|x: u64| in_array(x, base, (i + 1) as nat) implies in_array(x, base, i as nat) || x == a by {
                    assert((x - base) % 4 == 0);
                    if x != a {
                        assert(x < a);
                    }
                }
                assert(self.cells() =~= store_words(m0, base, words@, (i + 1) as nat));
            }
            i = i + 1;
        }
    }

    /// Lays out a compressed level (segment array, then coordinate array)
    /// at the next free address and records it for `context_id`.
    pub fn allocate_seg_crd_pair(&mut self, context_id: usize, seg_arr: Vec<u32>, crd_arr: Vec<u32>)
        requires
            old(self).wf(),
            old(self).next_base() + ADDR_OFFSET * (seg_arr@.len() + crd_arr@.len()) <= u64::MAX,
        ensures
            final(self).wf(),
            ({
                let seg_base = old(self).next_base();
                let crd_base = (seg_base + ADDR_OFFSET * seg_arr@.len()) as u64;
                &&& final(self).cells() == store_words(
                    store_words(old(self).cells(), seg_base, u32_words(seg_arr@), seg_arr@.len()),
                    crd_base,
                    u32_words(crd_arr@),
                    crd_arr@.len(),
                )
                &&& final(self).payloads() == old(self).payloads().insert(
                    context_id,
                    Payload::Coord(CoordPayload { seg_base, crd_base, seg_size: seg_arr@.len() as usize }),
                )
                &&& final(self).next_base() == crd_base + ADDR_OFFSET * crd_arr@.len()
            }),
            final(self).bases() == old(self).bases(),
    {
        let seg_base = self.current_base;
        let crd_base = seg_base + (seg_arr.len() as u64) * ADDR_OFFSET;
        let mut seg_words: Vec<MemoryData> = Vec::new();
        let mut i: usize = 0;
        while i < seg_arr.len()
            invariant
                i <= seg_arr@.len(),
                seg_words@ == u32_words(seg_arr@.take(i as int)),
            decreases seg_arr.len() - i,
        {
            seg_words.push(MemoryData::U32(seg_arr[i]));
            i = i + 1;
            assert(seg_words@ =~= u32_words(seg_arr@.take(i as int)));
        }
        assert(seg_arr@.take(seg_arr@.len() as int) =~= seg_arr@);
        let mut crd_words: Vec<MemoryData> = Vec::new();
        let mut j: usize = 0;
        while j < crd_arr.len()
            invariant
                j <= crd_arr@.len(),
                crd_words@ == u32_words(crd_arr@.take(j as int)),
            decreases crd_arr.len() - j,
        {
            crd_words.push(MemoryData::U32(crd_arr[j]));
            j = j + 1;
            assert(crd_words@ =~= u32_words(crd_arr@.take(j as int)));
        }
        assert(crd_arr@.take(crd_arr@.len() as int) =~= crd_arr@);
        let ghost m0 = self.cells();
        self.store(seg_base, &seg_words);
        self.store(crd_base, &crd_words);
        self.payload.insert(
            context_id,
            Payload::Coord(CoordPayload { seg_base, crd_base, seg_size: seg_arr.len() }),
        );
        self.current_base = crd_base + (crd_arr.len() as u64) * ADDR_OFFSET;
        proof {
            assert forall|a: u64| #[trigger] self.cells().contains_key(a) implies a < self.next_base() by {
                if m0.contains_key(a) {
                    assert(a < seg_base);
                }
            }
        }
    }

    /// Lays out a value array (as bit patterns) at the next free address and
    /// records its base for `context_id`.
    pub fn allocate_values(&mut self, context_id: usize, value_bits: Vec<u32>)
        requires
            old(self).wf(),
            old(self).next_base() + ADDR_OFFSET * value_bits@.len() <= u64::MAX,
        ensures
            final(self).wf(),
            final(self).cells() == store_words(old(self).cells(), old(self).next_base(), f32_words(value_bits@), value_bits@.len()),
            final(self).payloads() == old(self).payloads().insert(context_id, Payload::Value(old(self).next_base())),
            final(self).next_base() == old(self).next_base() + ADDR_OFFSET * value_bits@.len(),
            final(self).bases() == old(self).bases(),
    {
        let base = self.current_base;
        let mut words: Vec<MemoryData> = Vec::new();
        let mut i: usize = 0;
        while i < value_bits.len()
            invariant
                i <= value_bits@.len(),
                words@ == f32_words(value_bits@.take(i as int)),
            decreases value_bits.len() - i,
        {
            words.push(MemoryData::F32Bits(value_bits[i]));
            i = i + 1;
            assert(words@ =~= f32_words(value_bits@.take(i as int)));
        }
        assert(value_bits@.take(value_bits@.len() as int) =~= value_bits@);
        let ghost m0 = self.cells();
        self.store(base, &words);
        self.payload.insert(context_id, Payload::Value(base));
        self.current_base = base + (value_bits.len() as u64) * ADDR_OFFSET;
        proof {
            assert forall|a: u64| #[trigger] self.cells().contains_key(a) implies a < self.next_base() by {
                if m0.contains_key(a) {
                    assert(a < base);
                }
            }
        }
    }

    /// Records `context_id`'s base address, then lays out its compressed level.
    pub fn add_seg_crd_pair(&mut self, context_id: usize, seg: Vec<u32>, crd: Vec<u32>)
        requires
            old(self).wf(),
            old(self).next_base() + ADDR_OFFSET * (seg@.len() + crd@.len()) <= u64::MAX,
        ensures
            final(self).wf(),
            final(self).bases() == old(self).bases().insert(context_id, old(self).next_base()),
            ({
                let seg_base = old(self).next_base();
                let crd_base = (seg_base + ADDR_OFFSET * seg@.len()) as u64;
                &&& final(self).cells() == store_words(
                    store_words(old(self).cells(), seg_base, u32_words(seg@), seg@.len()),
                    crd_base,
                    u32_words(crd@),
                    crd@.len(),
                )
                &&& final(self).payloads() == old(self).payloads().insert(
                    context_id,
                    Payload::Coord(CoordPayload { seg_base, crd_base, seg_size: seg@.len() as usize }),
                )
                &&& final(self).next_base() == crd_base + ADDR_OFFSET * crd@.len()
            }),
    {
        self.id_to_base_addr.insert(context_id, self.current_base);
        assert(self.cells() == old(self).cells() && self.next_base() == old(self).next_base());
        self.allocate_seg_crd_pair(context_id, seg, crd);
    }

    /// Records `context_id`'s base address, then lays out its value array.
    pub fn add_value_array(&mut self, context_id: usize, value_bits: Vec<u32>)
        requires
            old(self).wf(),
            old(self).next_base() + ADDR_OFFSET * value_bits@.len() <= u64::MAX,
        ensures
            final(self).wf(),
            final(self).bases() == old(self).bases().insert(context_id, old(self).next_base()),
            final(self).cells() == store_words(old(self).cells(), old(self).next_base(), f32_words(value_bits@), value_bits@.len()),
            final(self).payloads() == old(self).payloads().insert(context_id, Payload::Value(old(self).next_base())),
            final(self).next_base() == old(self).next_base() + ADDR_OFFSET * value_bits@.len(),
    {
        self.id_to_base_addr.insert(context_id, self.current_base);
        assert(self.cells() == old(self).cells() && self.next_base() == old(self).next_base());
        self.allocate_values(context_id, value_bits);
    }

    /// The element stored at `address`, if any.
    pub fn read(&self, address: u64) -> (r: Option<MemoryData>)
        ensures
            r == (if self.cells().contains_key(address) { Some(self.cells()[address]) } else { None }),
    {
        match self.storage.get(&address) {
            Some(w) => Some(*w),
            None => None,
        }
    }

    /// Where `context_id`'s compressed level lies.
    pub fn get_seg_crd_pair(&self, context_id: usize) -> (r: CoordPayload)
        requires
            self.payloads().contains_key(context_id),
            self.payloads()[context_id] is Coord,
        ensures
            self.payloads()[context_id] == Payload::Coord(r),
    {
        match self.payload.get(&context_id) {
            Some(Payload::Coord(c)) => *c,
            _ => CoordPayload { seg_base: 0, crd_base: 0, seg_size: 0 },
        }
    }

    /// Where `context_id`'s value array starts.
    pub fn get_value_base(&self, context_id: usize) -> (r: u64)
        requires
            self.payloads().contains_key(context_id),
            self.payloads()[context_id] is Value,
        ensures
            self.payloads()[context_id] == Payload::Value(r),
    {
        match self.payload.get(&context_id) {
            Some(Payload::Value(b)) => *b,
            _ => 0,
        }
    }

    /// `context_id`'s recorded base address.
    pub fn get_base_addr(&self, context_id: usize) -> (r: u64)
        requires
            self.bases().contains_key(context_id),
        ensures
            r == self.bases()[context_id],
    {
        *self.id_to_base_addr.get(&context_id).unwrap()
    }

    /// The address of segment entry `seg_idx` of `context_id`'s level.
    pub fn get_seg_addr(&self, context_id: usize, seg_idx: usize) -> (r: u64)
        requires
            self.bases().contains_key(context_id),
            seg_addr_spec(self.bases()[context_id], seg_idx) <= u64::MAX,
        ensures
            r == seg_addr_spec(self.bases()[context_id], seg_idx),
    {
        let base = self.get_base_addr(context_id);
        get_seg_addr(base, seg_idx)
    }

    /// The address of coordinate `crd_idx` of `context_id`'s level.
    pub fn get_crd_addr(&self, context_id: usize, crd_idx: usize) -> (r: u64)
        requires
            self.bases().contains_key(context_id),
            self.payloads().contains_key(context_id),
            self.payloads()[context_id] is Coord,
            crd_addr_spec(self.bases()[context_id], crd_idx, self.payloads()[context_id]->Coord_0.seg_size) <= u64::MAX,
        ensures
            r == crd_addr_spec(self.bases()[context_id], crd_idx, self.payloads()[context_id]->Coord_0.seg_size),
    {
        let seg_offset = self.get_seg_crd_pair(context_id).seg_size;
        let base = self.get_base_addr(context_id);
        get_crd_addr(base, crd_idx, seg_offset)
    }
}

/// Law: right after a compressed level is laid out from `seg_base` over a
/// memory image whose elements all lie below it, reading segment entry `i`
/// at its address gives `seg[i]`, reading coordinate `j` at its address
/// gives `crd[j]`, and every element stored before is unchanged.
pub proof fn lemma_level_reads_back(m0: Map<u64, MemoryData>, seg_base: u64, seg: Seq<u32>, crd: Seq<u32>)
    requires
        seg_base + ADDR_OFFSET * (seg.len() + crd.len()) <= u64::MAX,
        seg.len() <= usize::MAX,
        forall|a: u64| #[trigger] m0.contains_key(a) ==> a < seg_base,
    ensures
        ({
            let crd_base = (seg_base + ADDR_OFFSET * seg.len()) as u64;
            let m = store_words(store_words(m0, seg_base, u32_words(seg), seg.len()), crd_base, u32_words(crd), crd.len());
            &&& forall|i: usize|
                i < seg.len() ==> m.contains_key(seg_addr_spec(seg_base, i) as u64) && m[seg_addr_spec(seg_base, i) as u64]
                    == MemoryData::U32(#[trigger] seg[i as int])
            &&& forall|j: usize|
                j < crd.len() ==> m.contains_key(crd_addr_spec(seg_base, j, seg.len() as usize) as u64) && m[crd_addr_spec(
                    seg_base,
                    j,
                    seg.len() as usize,
                ) as u64] == MemoryData::U32(#[trigger] crd[j as int])
            &&& forall|a: u64| #[trigger] m0.contains_key(a) ==> m.contains_key(a) && m[a] == m0[a]
        }),
{
    let crd_base = (seg_base + ADDR_OFFSET * seg.len()) as u64;
    let m1 = store_words(m0, seg_base, u32_words(seg), seg.len());
    let m = store_words(m1, crd_base, u32_words(crd), crd.len());
    assert forall|i: usize| i < seg.len() implies m.contains_key(seg_addr_spec(seg_base, i) as u64) && m[seg_addr_spec(
        seg_base,
        i,
    ) as u64] == MemoryData::U32(#[trigger] seg[i as int]) by {
        let a = seg_addr_spec(seg_base, i) as u64;
        assert(a - seg_base == 4 * i);
        assert(in_array(a, seg_base, seg.len()));
        assert(!in_array(a, crd_base, crd.len()));
        assert((a - seg_base) / 4 == i);
    }
    assert forall|j: usize| j < crd.len() implies m.contains_key(crd_addr_spec(seg_base, j, seg.len() as usize) as u64)
        && m[crd_addr_spec(seg_base, j, seg.len() as usize) as u64] == MemoryData::U32(#[trigger] crd[j as int]) by {
        let a = crd_addr_spec(seg_base, j, seg.len() as usize) as u64;
        assert(a - crd_base == 4 * j);
        assert(in_array(a, crd_base, crd.len()));
        assert((a - crd_base) / 4 == j);
    }
    assert forall|a: u64| #[trigger] m0.contains_key(a) implies m.contains_key(a) && m[a] == m0[a] by {
        assert(!in_array(a, seg_base, seg.len()));
        assert(!in_array(a, crd_base, crd.len()));
    }
}

/// Law: right after a value array is laid out from `base` over a memory
/// image whose elements all lie below it, reading value `i` at its address
/// gives the value's bits, and every element stored before is unchanged.
pub proof fn lemma_values_read_back(m0: Map<u64, MemoryData>, base: u64, bits: Seq<u32>)
    requires
        base + ADDR_OFFSET * bits.len() <= u64::MAX,
        forall|a: u64| #[trigger] m0.contains_key(a) ==> a < base,
    ensures
        ({
            let m = store_words(m0, base, f32_words(bits), bits.len());
            &&& forall|i: usize|
                i < bits.len() ==> m.contains_key(seg_addr_spec(base, i) as u64) && m[seg_addr_spec(base, i) as u64]
                    == MemoryData::F32Bits(#[trigger] bits[i as int])
            &&& forall|a: u64| #[trigger] m0.contains_key(a) ==> m.contains_key(a) && m[a] == m0[a]
        }),
{
    let m = store_words(m0, base, f32_words(bits), bits.len());
    assert forall|i: usize| i < bits.len() implies m.contains_key(seg_addr_spec(base, i) as u64) && m[seg_addr_spec(base, i) as u64]
        == MemoryData::F32Bits(#[trigger] bits[i as int]) by {
        let a = seg_addr_spec(base, i) as u64;
        assert(a - base == 4 * i);
        assert(in_array(a, base, bits.len()));
        assert((a - base) / 4 == i);
    }
    assert forall|a: u64| #[trigger] m0.contains_key(a) implies m.contains_key(a) && m[a] == m0[a] by {
        assert(!in_array(a, base, bits.len()));
    }
}

/// Whether reader `i`'s next queued address (sent at the times in `q[i]`)
/// is visible at time `now`.
pub open spec fn head_visible(q: Seq<Seq<u64>>, pos: Seq<nat>, now: u64, i: int) -> bool {
    pos[i] < q[i].len() && q[i][pos[i] as int] <= now
}

/// Among readers `0 .. k`, the visible one whose next address was sent
/// earliest (the lowest index among equal times).
pub open spec fn earliest_reader(q: Seq<Seq<u64>>, pos: Seq<nat>, now: u64, k: nat) -> Option<nat>
    decreases k,
{
    if k == 0 {
        None
    } else {
        let prev = earliest_reader(q, pos, now, (k - 1) as nat);
        let i = k - 1;
        if head_visible(q, pos, now, i) {
            match prev {
                Some(b) => if q[i][pos[i] as int] < q[b as int][pos[b as int] as int] { Some(i as nat) } else { prev },
                None => Some(i as nat),
            }
        } else {
            prev
        }
    }
}

/// The number of queued addresses not yet taken.
pub open spec fn pending_reads(q: Seq<Seq<u64>>, pos: Seq<nat>, k: nat) -> nat
    decreases k,
{
    if k == 0 {
        0
    } else {
        pending_reads(q, pos, (k - 1) as nat) + (if pos[k - 1] < q[k - 1].len() {
            (q[k - 1].len() - pos[k - 1]) as nat
        } else {
            0
        })
    }
}

/// The reader `earliest_reader` picks among the first `k` has a visible
/// head; when it picks none, no head among them is visible.
pub proof fn lemma_earliest_is_visible(q: Seq<Seq<u64>>, pos: Seq<nat>, now: u64, k: nat)
    ensures
        match earliest_reader(q, pos, now, k) {
            Some(b) => b < k && head_visible(q, pos, now, b as int),
            None => forall|i: int| 0 <= i < k ==> !head_visible(q, pos, now, i),
        },
    decreases k,
{
    if k > 0 {
        lemma_earliest_is_visible(q, pos, now, (k - 1) as nat);
    }
}

/// Taking the head of reader `b` leaves one read fewer pending among the
/// first `k` readers when `b` is one of them, and as many otherwise.
pub proof fn lemma_pending_after_take(q: Seq<Seq<u64>>, pos: Seq<nat>, b: int, k: nat)
    requires
        0 <= b < pos.len(),
        pos[b] < q[b].len(),
        k <= pos.len(),
    ensures
        b < k ==> pending_reads(q, pos.update(b, pos[b] + 1), k) + 1 == pending_reads(q, pos, k),
        b >= k ==> pending_reads(q, pos.update(b, pos[b] + 1), k) == pending_reads(q, pos, k),
    decreases k,
{
    if k > 0 {
        lemma_pending_after_take(q, pos, b, (k - 1) as nat);
    }
}

/// The order in which the memory model takes the reads visible at `now`:
/// again and again the reader whose next address was sent earliest, until
/// no reader has a visible address left.
pub open spec fn read_order(q: Seq<Seq<u64>>, pos: Seq<nat>, now: u64) -> Seq<nat>
    decreases pending_reads(q, pos, q.len()),
{
    if pos.len() != q.len() {
        seq![]
    } else {
        match earliest_reader(q, pos, now, q.len()) {
            None => seq![],
            Some(b) => {
                proof {
                    lemma_earliest_is_visible(q, pos, now, q.len());
                    lemma_pending_after_take(q, pos, b as int, q.len());
                }
                seq![b] + read_order(q, pos.update(b as int, pos[b as int] + 1), now)
            },
        }
    }
}

fn find_earliest(q: &Vec<Vec<u64>>, pos: &Vec<usize>, now: u64) -> (r: Option<usize>)
    requires
        pos@.len() == q@.len(),
    ensures
        match r {
            Some(b) => earliest_reader(q@.map_values(|v: Vec<u64>| v@), pos@.map_values(|p: usize| p as nat), now, q@.len())
                == Some(b as nat),
            None => earliest_reader(q@.map_values(|v: Vec<u64>| v@), pos@.map_values(|p: usize| p as nat), now, q@.len())
                is None,
        },
{
    let ghost qs = q@.map_values(|v: Vec<u64>| v@);
    let ghost ps = pos@.map_values(|p: usize| p as nat);
    let mut best: Option<usize> = None;
    let mut best_time: u64 = 0;
    let mut i: usize = 0;
    while i < q.len()
        invariant
            i <= q@.len(),
            pos@.len() == q@.len(),
            qs == q@.map_values(|v: Vec<u64>| v@),
            ps == pos@.map_values(|p: usize| p as nat),
            match best {
                Some(b) => earliest_reader(qs, ps, now, i as nat) == Some(b as nat) && b < i && ps[b as int] < qs[b as int].len()
                    && best_time == qs[b as int][ps[b as int] as int],
                None => earliest_reader(qs, ps, now, i as nat) is None,
            },
        decreases q.len() - i,
    {
        let p = pos[i];
        if p < q[i].len() && q[i][p] <= now {
            let t = q[i][p];
            match best {
                Some(_) => {
                    if t < best_time {
                        best = Some(i);
                        best_time = t;
                    }
                },
                None => {
                    best = Some(i);
                    best_time = t;
                },
            }
        }
        i = i + 1;
    }
    best
}

/// Orders the reads visible at time `now`: `send_times[i]` holds the times
/// at which reader `i`'s queued addresses were sent, oldest first; returns
/// the reader of each read taken, in the order taken.
pub fn order_read_requests(send_times: &Vec<Vec<u64>>, now: u64) -> (r: Vec<usize>)
    ensures
        r@.map_values(|i: usize| i as nat) == read_order(
            send_times@.map_values(|v: Vec<u64>| v@),
            Seq::new(send_times@.len(), |i: int| 0nat),
            now,
        ),
{
    let ghost qs = send_times@.map_values(|v: Vec<u64>| v@);
    let mut pos: Vec<usize> = Vec::new();
    let mut k: usize = 0;
    while k < send_times.len()
        invariant
            k <= send_times@.len(),
            pos@.len() == k,
            forall|m: int| 0 <= m < k ==> pos@[m] == 0,
        decreases send_times.len() - k,
    {
        pos.push(0);
        k = k + 1;
    }
    assert(pos@.map_values(|p: usize| p as nat) =~= Seq::new(send_times@.len(), |i: int| 0nat));
    let ghost total = read_order(qs, pos@.map_values(|p: usize| p as nat), now);
    let mut out: Vec<usize> = Vec::new();
    loop
        invariant
            pos@.len() == send_times@.len(),
            qs == send_times@.map_values(|v: Vec<u64>| v@),
            forall|m: int| 0 <= m < pos@.len() ==> pos@[m] <= send_times@[m]@.len(),
            total == out@.map_values(|i: usize| i as nat) + read_order(qs, pos@.map_values(|p: usize| p as nat), now),
            total == read_order(qs, Seq::new(send_times@.len(), |i: int| 0nat), now),
        decreases pending_reads(qs, pos@.map_values(|p: usize| p as nat), qs.len()),
    {
        let ghost ps = pos@.map_values(|p: usize| p as nat);
        let ghost o0 = out@.map_values(|i: usize| i as nat);
        match find_earliest(send_times, &pos, now) {
            None => {
                assert(read_order(qs, ps, now) =~= seq![]);
                assert(total =~= out@.map_values(|i: usize| i as nat));
                return out;
            },
            Some(b) => {
                proof {
                    lemma_earliest_is_visible(qs, ps, now, qs.len());
                    lemma_pending_after_take(qs, ps, b as int, qs.len());
                }
                assert(ps[b as int] == pos@[b as int] as nat);
                assert(qs[b as int].len() == send_times@[b as int]@.len());
                assert(pos@[b as int] < send_times@[b as int]@.len());
                let lim = send_times[b].len();
                assert(pos@[b as int] < lim);
                let nb = pos[b] + 1;
                pos.set(b, nb);
                out.push(b);
                proof {
                    assert(pos@.map_values(|p: usize| p as nat) =~= ps.update(b as int, ps[b as int] + 1));
                    assert(out@.map_values(|i: usize| i as nat) =~= o0.push(b as nat));
                    let rest = read_order(qs, pos@.map_values(|p: usize| p as nat), now);
                    assert(o0 + (seq![b as nat] + rest) =~= o0.push(b as nat) + rest);
                }
            },
        }
    }
}

/// The send times of the reads in the order `read_order` takes them.
pub open spec fn read_times(q: Seq<Seq<u64>>, pos: Seq<nat>, now: u64) -> Seq<u64>
    decreases pending_reads(q, pos, q.len()),
{
    if pos.len() != q.len() {
        seq![]
    } else {
        match earliest_reader(q, pos, now, q.len()) {
            None => seq![],
            Some(b) => {
                proof {
                    lemma_earliest_is_visible(q, pos, now, q.len());
                    lemma_pending_after_take(q, pos, b as int, q.len());
                }
                seq![q[b as int][pos[b as int] as int]] + read_times(q, pos.update(b as int, pos[b as int] + 1), now)
            },
        }
    }
}

/// The earliest visible reader's time is no later than any visible head.
proof fn lemma_earliest_is_min(q: Seq<Seq<u64>>, pos: Seq<nat>, now: u64, k: nat)
    ensures
        earliest_reader(q, pos, now, k) matches Some(b) ==> forall|i: int|
            0 <= i < k && head_visible(q, pos, now, i) ==> q[b as int][pos[b as int] as int] <= q[i][pos[i] as int],
    decreases k,
{
    if k > 0 {
        lemma_earliest_is_min(q, pos, now, (k - 1) as nat);
        lemma_earliest_is_visible(q, pos, now, (k - 1) as nat);
    }
}

/// Every reader's queued addresses were sent in nondecreasing time order.
pub open spec fn queues_sorted(q: Seq<Seq<u64>>) -> bool {
    forall|i: int, a: int, c: int| 0 <= i < q.len() && 0 <= a <= c < q[i].len() ==> #[trigger] q[i][a] <= #[trigger] q[i][c]
}

/// Law: when every reader sent its addresses in time order, the memory
/// model takes the visible reads in order of the time they were sent.
pub proof fn lemma_reads_taken_in_time_order(q: Seq<Seq<u64>>, pos: Seq<nat>, now: u64, floor: int)
    requires
        pos.len() == q.len(),
        queues_sorted(q),
        forall|i: int| 0 <= i < q.len() && #[trigger] head_visible(q, pos, now, i) ==> floor <= q[i][pos[i] as int],
    ensures
        read_times(q, pos, now).len() == read_order(q, pos, now).len(),
        forall|k: int| 0 <= k < read_times(q, pos, now).len() ==> floor <= #[trigger] read_times(q, pos, now)[k],
        forall|k: int|
            0 <= k < read_times(q, pos, now).len() - 1 ==> #[trigger] read_times(q, pos, now)[k] <= read_times(q, pos, now)[k + 1],
    decreases pending_reads(q, pos, q.len()),
{
    lemma_earliest_is_visible(q, pos, now, q.len());
    match earliest_reader(q, pos, now, q.len()) {
        None => {},
        Some(b) => {
            lemma_pending_after_take(q, pos, b as int, q.len());
            lemma_earliest_is_min(q, pos, now, q.len());
            let t = q[b as int][pos[b as int] as int];
            let p2 = pos.update(b as int, pos[b as int] + 1);
            assert forall|i: int| 0 <= i < q.len() && #[trigger] head_visible(q, p2, now, i) implies t <= q[i][p2[i] as int] by {
                if i == b as int {
                    assert(q[i][pos[i] as int] <= q[i][p2[i] as int]);
                } else {
                    assert(p2[i] == pos[i]);
                    assert(head_visible(q, pos, now, i));
                }
            }
            lemma_reads_taken_in_time_order(q, p2, now, t as int);
            let rest = read_times(q, p2, now);
            let all = read_times(q, pos, now);
            assert(all == seq![t] + rest);
            assert forall|k: int| 0 <= k < all.len() implies floor <= #[trigger] all[k] by {
                if k > 0 {
                    assert(all[k] == rest[k - 1]);
                }
            }
            assert forall|k: int| 0 <= k < all.len() - 1 implies #[trigger] all[k] <= all[k + 1] by {
                assert(all[k + 1] == rest[k]);
                if k > 0 {
                    assert(all[k] == rest[k - 1]);
                }
            }
        },
    }
}

fn all_closed(v: &Vec<bool>) -> (r: bool)
    ensures
        r == forall|i: int| 0 <= i < v@.len() ==> v@[i],
{
    let mut i: usize = 0;
    while i < v.len()
        invariant
            i <= v@.len(),
            forall|k: int| 0 <= k < i ==> v@[k],
        decreases v.len() - i,
    {
        if !v[i] {
            return false;
        }
        i = i + 1;
    }
    true
}

/// Whether the memory model keeps running: reads are still waiting for
/// memory, or some writer (neither of whose channels closed) or some reader
/// (whose address channel is open) may still send.
pub fn continue_running(reads_waiting: bool, writers_closed: &Vec<bool>, readers_closed: &Vec<bool>) -> (r: bool)
    ensures
        r == (reads_waiting || !(forall|i: int| 0 <= i < writers_closed@.len() ==> writers_closed@[i]) || !(forall|i: int|
            0 <= i < readers_closed@.len() ==> readers_closed@[i])),
{
    if reads_waiting {
        return true;
    }
    if !all_closed(writers_closed) {
        return true;
    }
    !all_closed(readers_closed)
}

/// The memory clock's cycle count at global tick `ticks`, for a clock
/// running `num / den` cycles per tick.
pub fn expected_cycles(ticks: u64, num: u64, den: u64) -> (r: u128)
    requires
        den > 0,
    ensures
        r == (ticks * num) / (den as int),
{
    assert((ticks as u128) * (num as u128) <= 0xFFFF_FFFF_FFFF_FFFE_0000_0000_0000_0001) by (nonlinear_arith)
        requires
            ticks <= 0xFFFF_FFFF_FFFF_FFFF,
            num <= 0xFFFF_FFFF_FFFF_FFFF,
    ;
    let prod = (ticks as u128) * (num as u128);
    prod / (den as u128)
}

/// How many memory cycles to run to catch up from `elapsed` to `expected`.
pub fn cycles_to_run(elapsed: u128, expected: u128) -> (r: u128)
    ensures
        r == if elapsed < expected { expected - elapsed } else { 0 },
{
    if elapsed < expected { expected - elapsed } else { 0 }
}


/// The heads of a writer's address and data channels, each with the tick
/// at which it arrives.
#[derive(Clone, Copy, Debug, PartialEq, Eq)]
pub struct WriteHead {
    pub addr_time: u64,
    pub addr: u64,
    pub data_time: u64,
    pub data: MemoryData,
}

/// The writes issued at tick `now` by writers `0 .. k`, in writer order:
/// each writer whose address and data have both arrived writes that data at
/// that address.
pub open spec fn write_accesses(heads: Seq<Option<WriteHead>>, now: u64, k: nat) -> Seq<Access>
    decreases k,
{
    if k == 0 {
        seq![]
    } else {
        let rest = write_accesses(heads, now, (k - 1) as nat);
        match heads[k - 1] {
            Some(h) => if h.addr_time <= now && h.data_time <= now {
                rest.push(
                    Access::SimpleWrite(SimpleWrite { base: ByteAddress(h.addr), payload: h.data, bundle_index: (k - 1) as usize }),
                )
            } else {
                rest
            },
            None => rest,
        }
    }
}

/// The writes to issue at tick `now`, given the channel heads of each
/// writer (`None` where a channel is empty); the writers named in the
/// result take their two heads.
pub fn collect_writes(heads: &Vec<Option<WriteHead>>, now: u64) -> (r: Vec<Access>)
    ensures
        r@ == write_accesses(heads@, now, heads@.len()),
{
    let mut out: Vec<Access> = Vec::new();
    let mut i: usize = 0;
    while i < heads.len()
        invariant
            i <= heads@.len(),
            out@ == write_accesses(heads@, now, i as nat),
        decreases heads.len() - i,
    {
        match heads[i] {
            Some(h) => {
                if h.addr_time <= now && h.data_time <= now {
                    let base = ByteAddress::from_u64(h.addr);
                    out.push(Access::SimpleWrite(SimpleWrite::new(base, h.data, i)));
                }
            },
            None => {},
        }
        i = i + 1;
    }
    out
}

/// What became of an access offered to memory.
#[derive(Clone, Copy, Debug, PartialEq, Eq)]
pub enum Enqueued {
    /// Memory could not take it now.
    Refused,
    /// The read waits in the request manager for its data.
    ReadQueued,
    /// The write was taken; its writer (this bundle) gets an acknowledgement.
    WriteAcked(usize),
}

/// Offers `access` to memory, which `available` says can take it now.  A
/// taken read waits behind the earlier reads of its address; a taken write
/// is acknowledged to its writer (its data is not kept).
pub fn enqueue_payload(access: Access, available: bool, manager: &mut RequestManager) -> (r: Enqueued)
    requires
        old(manager).wf(),
    ensures
        final(manager).wf(),
        !available ==> r == Enqueued::Refused,
        available && access is SimpleWrite ==> r == Enqueued::WriteAcked(access->SimpleWrite_0.bundle_index),
        available && access is SimpleRead ==> r == Enqueued::ReadQueued,
        forall|a: u64|
            #![trigger final(manager).waiting(a)]
            final(manager).waiting(a) == if available && access is SimpleRead && a == access->SimpleRead_0.base.0 {
                old(manager).waiting(a).push(access->SimpleRead_0)
            } else {
                old(manager).waiting(a)
            },
{
    if !available {
        return Enqueued::Refused;
    }
    match access {
        Access::SimpleRead(rd) => {
            manager.add_request(rd);
            Enqueued::ReadQueued
        },
        Access::SimpleWrite(w) => Enqueued::WriteAcked(w.bundle_index),
    }
}

} // verus!
