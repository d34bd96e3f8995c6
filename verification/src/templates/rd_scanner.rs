use vstd::prelude::*;

use super::primitive::{Token, stop_up, stops_raisable, close_fiber_spec, close_fiber};

verus! {

pub type Tk = Token<u32, u32>;

/// The coordinates and references of fiber `idx` of a compressed level:
/// positions `seg[idx] .. seg[idx + 1]` of the coordinate array.
pub open spec fn fiber_crds(seg: Seq<u32>, crd: Seq<u32>, idx: int) -> Seq<Tk> {
    let lo = seg[idx] as int;
    let hi = seg[idx + 1] as int;
    Seq::new(if lo < hi { (hi - lo) as nat } else { 0 }, |k: int| Token::Val(crd[lo + k]))
}

pub open spec fn fiber_refs(seg: Seq<u32>, idx: int) -> Seq<Tk> {
    let lo = seg[idx] as int;
    let hi = seg[idx + 1] as int;
    Seq::new(if lo < hi { (hi - lo) as nat } else { 0 }, |k: int| Token::Val((lo + k) as u32))
}

/// Fiber `idx` can be read: its segment bounds exist and its coordinates
/// lie inside the coordinate array.
pub open spec fn readable_fiber(seg: Seq<u32>, crd: Seq<u32>, idx: int) -> bool {
    &&& 0 <= idx
    &&& idx + 1 < seg.len()
    &&& seg[idx] < seg[idx + 1] ==> seg[idx + 1] <= crd.len()
}

/// Every reference of the stream names a readable fiber and every stop
/// level can be raised.
pub open spec fn compressed_input_ok(seg: Seq<u32>, crd: Seq<u32>, input: Seq<Tk>) -> bool {
    &&& stops_raisable(input)
    &&& forall|i: int|
        0 <= i < input.len() && (#[trigger] input[i]) is Val ==> readable_fiber(seg, crd, input[i]->Val_0 as int)
}

/// Scanner state between input tokens.
#[derive(Clone, Copy, Debug, PartialEq, Eq)]
pub struct ScanPhase {
    /// A fiber (or an empty marker) was emitted and still waits for its stop token.
    pub pending_close: bool,
    /// The done token was seen; nothing more is read.
    pub finished: bool,
}

pub open spec fn fresh_phase() -> ScanPhase {
    ScanPhase { pending_close: false, finished: false }
}

/// One input token of a scanner whose fiber for a reference is
/// `(fib_c, fib_r)`: returns the next phase and what is emitted on the
/// coordinate and the reference stream.  `empty_closes` says whether an
/// empty marker must be followed by a stop token, like a fiber.
pub open spec fn scan_base(
    t: Tk,
    fib_c: Seq<Tk>,
    fib_r: Seq<Tk>,
    empty_closes: bool,
) -> (ScanPhase, Seq<Tk>, Seq<Tk>) {
    match t {
        Token::Val(_) => (ScanPhase { pending_close: true, finished: false }, fib_c, fib_r),
        Token::Stop(s) => (fresh_phase(), seq![stop_up(s)], seq![stop_up(s)]),
        Token::Empty => (
            ScanPhase { pending_close: empty_closes, finished: false },
            seq![Token::Empty],
            seq![Token::Empty],
        ),
        Token::Done => (ScanPhase { pending_close: false, finished: true }, seq![Token::Done], seq![Token::Done]),
    }
}

/// One input token, taking a pending fiber close into account.
pub open spec fn scan_step(
    ph: ScanPhase,
    t: Tk,
    fib_c: Seq<Tk>,
    fib_r: Seq<Tk>,
    empty_closes: bool,
) -> (ScanPhase, Seq<Tk>, Seq<Tk>) {
    if ph.pending_close {
        let (close, consumed) = close_fiber_spec(t);
        if consumed {
            (fresh_phase(), seq![close], seq![close])
        } else {
            let (p, c, r) = scan_base(t, fib_c, fib_r, empty_closes);
            (p, seq![close] + c, seq![close] + r)
        }
    } else {
        scan_base(t, fib_c, fib_r, empty_closes)
    }
}

/// The compressed scanner on a whole input stream, from phase `ph`:
/// the coordinate stream, the reference stream and the final phase.
pub open spec fn compressed_scan(seg: Seq<u32>, crd: Seq<u32>, ph: ScanPhase, input: Seq<Tk>) -> (
    Seq<Tk>,
    Seq<Tk>,
    ScanPhase,
)
    decreases input.len(),
{
    if input.len() == 0 || ph.finished {
        (seq![], seq![], ph)
    } else {
        let t = input[0];
        let idx = if t is Val { t->Val_0 as int } else { 0 };
        let (p1, c1, r1) = scan_step(ph, t, fiber_crds(seg, crd, idx), fiber_refs(seg, idx), true);
        let (c2, r2, pf) = compressed_scan(seg, crd, p1, input.drop_first());
        (c1 + c2, r1 + r2, pf)
    }
}

/// Reads a compressed (segment/coordinate) level: each reference names a
/// fiber whose coordinates and positions are emitted; stop tokens are
/// raised one level; every fiber and every empty marker is closed by a
/// stop token.
pub struct CompressedCrdRdScan {
    pub seg_arr: Vec<u32>,
    pub crd_arr: Vec<u32>,
    pub phase: ScanPhase,
}

impl CompressedCrdRdScan {
    pub fn new(seg_arr: Vec<u32>, crd_arr: Vec<u32>) -> (r: Self)
        ensures
            r.seg_arr@ == seg_arr@,
            r.crd_arr@ == crd_arr@,
            r.phase == fresh_phase(),
    {
        CompressedCrdRdScan { seg_arr, crd_arr, phase: ScanPhase { pending_close: false, finished: false } }
    }

    /// Emits fiber `idx` onto the two output streams.
    fn read_fiber(&self, idx: u32, out_crd: &mut Vec<Tk>, out_ref: &mut Vec<Tk>)
        requires
            readable_fiber(self.seg_arr@, self.crd_arr@, idx as int),
        ensures
            final(out_crd)@ == old(out_crd)@ + fiber_crds(self.seg_arr@, self.crd_arr@, idx as int),
            final(out_ref)@ == old(out_ref)@ + fiber_refs(self.seg_arr@, idx as int),
    {
        let i = idx as usize;
        assert(i as int == idx as int);
        let mut curr_addr = self.seg_arr[i];
        assert(i + 1 < self.seg_arr.len());
        let stop_addr = self.seg_arr[i + 1];
        let ghost lo = curr_addr as int;
        let ghost c0 = out_crd@;
        let ghost r0 = out_ref@;
        while curr_addr < stop_addr
            invariant
                readable_fiber(self.seg_arr@, self.crd_arr@, idx as int),
                lo == self.seg_arr@[idx as int],
                stop_addr == self.seg_arr@[idx as int + 1],
                lo <= curr_addr,
                curr_addr <= stop_addr || curr_addr == lo,
                out_crd@ == c0 + Seq::new((curr_addr - lo) as nat, |k: int| Token::Val(self.crd_arr@[lo + k])),
                out_ref@ == r0 + Seq::new((curr_addr - lo) as nat, |k: int| Token::Val((lo + k) as u32)),
            decreases stop_addr - curr_addr,
        {
            let coord = self.crd_arr[curr_addr as usize];
            out_crd.push(Token::Val(coord));
            out_ref.push(Token::Val(curr_addr));
            curr_addr = curr_addr + 1;
        }
        assert(out_crd@ =~= c0 + fiber_crds(self.seg_arr@, self.crd_arr@, idx as int));
        assert(out_ref@ =~= r0 + fiber_refs(self.seg_arr@, idx as int));
    }

    /// Handles one input reference token and returns what is emitted on the
    /// coordinate and on the reference stream.
    pub fn step(&mut self, t: Tk) -> (r: (Vec<Tk>, Vec<Tk>))
        requires
            !old(self).phase.finished,
            t is Val ==> readable_fiber(old(self).seg_arr@, old(self).crd_arr@, t->Val_0 as int),
            t is Stop ==> t->Stop_0 < u32::MAX,
        ensures
            final(self).seg_arr == old(self).seg_arr,
            final(self).crd_arr == old(self).crd_arr,
            ({
                let idx = if t is Val { t->Val_0 as int } else { 0 };
                let (p, c, rf) = scan_step(
                    old(self).phase,
                    t,
                    fiber_crds(old(self).seg_arr@, old(self).crd_arr@, idx),
                    fiber_refs(old(self).seg_arr@, idx),
                    true,
                );
                final(self).phase == p && r.0@ == c && r.1@ == rf
            }),
    {
        let mut out_crd: Vec<Tk> = Vec::new();
        let mut out_ref: Vec<Tk> = Vec::new();
        if self.phase.pending_close {
            let (close, consumed) = close_fiber(t);
            out_crd.push(close);
            out_ref.push(close);
            if consumed {
                self.phase = ScanPhase { pending_close: false, finished: false };
                return (out_crd, out_ref);
            }
        }
        match t {
            Token::Val(idx) => {
                self.read_fiber(idx, &mut out_crd, &mut out_ref);
                self.phase = ScanPhase { pending_close: true, finished: false };
            },
            Token::Stop(s) => {
                out_crd.push(Token::Stop(s + 1));
                out_ref.push(Token::Stop(s + 1));
                self.phase = ScanPhase { pending_close: false, finished: false };
            },
            Token::Empty => {
                out_crd.push(Token::Empty);
                out_ref.push(Token::Empty);
                self.phase = ScanPhase { pending_close: true, finished: false };
            },
            Token::Done => {
                out_crd.push(Token::Done);
                out_ref.push(Token::Done);
                self.phase = ScanPhase { pending_close: false, finished: true };
            },
        }
        (out_crd, out_ref)
    }

    /// Whether every reference of `input` names a readable fiber and every
    /// stop level can be raised (what `run` needs).
    pub fn input_ok(&self, input: &Vec<Tk>) -> (r: bool)
        ensures
            r == compressed_input_ok(self.seg_arr@, self.crd_arr@, input@),
    {
        let mut i: usize = 0;
        while i < input.len()
            invariant
                i <= input@.len(),
                forall|k: int| 0 <= k < i ==> (#[trigger] input@[k] is Stop ==> input@[k]->Stop_0 < u32::MAX),
                forall|k: int| 0 <= k < i && (#[trigger] input@[k]) is Val ==> readable_fiber(self.seg_arr@, self.crd_arr@, input@[k]->Val_0 as int),
            decreases input.len() - i,
        {
            match input[i] {
                Token::Stop(s) => {
                    if s == u32::MAX {
                        return false;
                    }
                },
                Token::Val(idx) => {
                    let n = self.seg_arr.len();
                    if idx as usize >= n || idx as usize + 1 >= n {
                        return false;
                    }
                    let lo = self.seg_arr[idx as usize];
                    let hi = self.seg_arr[idx as usize + 1];
                    if lo < hi && hi as usize > self.crd_arr.len() {
                        return false;
                    }
                },
                _ => {},
            }
            i = i + 1;
        }
        true
    }

    /// Runs the scanner over a whole input stream, up to its done token.
    pub fn run(&mut self, input: &Vec<Tk>) -> (r: (Vec<Tk>, Vec<Tk>))
        requires
            compressed_input_ok(old(self).seg_arr@, old(self).crd_arr@, input@),
        ensures
            ({
                let (c, rf, p) = compressed_scan(old(self).seg_arr@, old(self).crd_arr@, old(self).phase, input@);
                r.0@ == c && r.1@ == rf && final(self).phase == p
            }),
            final(self).seg_arr@ == old(self).seg_arr@,
            final(self).crd_arr@ == old(self).crd_arr@,
    {
        let mut out_crd: Vec<Tk> = Vec::new();
        let mut out_ref: Vec<Tk> = Vec::new();
        let ghost seg = self.seg_arr@;
        let ghost crd = self.crd_arr@;
        let ghost total = compressed_scan(seg, crd, self.phase, input@);
        let mut i: usize = 0;
        assert(input@.skip(0) =~= input@);
        while i < input.len() && !self.phase.finished
            invariant
                i <= input.len(),
                self.seg_arr@ == seg,
                self.crd_arr@ == crd,
                compressed_input_ok(seg, crd, input@),
                ({
                    let (c, rf, p) = compressed_scan(seg, crd, self.phase, input@.skip(i as int));
                    total.0 == out_crd@ + c && total.1 == out_ref@ + rf && total.2 == p
                }),
            decreases input.len() - i,
        {
            let t = input[i];
            let ghost s = input@.skip(i as int);
            let ghost ph0 = self.phase;
            let ghost oc = out_crd@;
            let ghost orf = out_ref@;
            assert(s[0] == t);
            assert(s.drop_first() =~= input@.skip(i as int + 1));
            assert(input@[i as int] == t);
            let ghost idx = if t is Val { t->Val_0 as int } else { 0 };
            let ghost st = scan_step(ph0, t, fiber_crds(seg, crd, idx), fiber_refs(seg, idx), true);
            assert(compressed_scan(seg, crd, ph0, s) == ({
                let (c2, r2, pf) = compressed_scan(seg, crd, st.0, input@.skip(i as int + 1));
                (st.1 + c2, st.2 + r2, pf)
            }));
            let (mut c, mut r) = self.step(t);
            let ghost cs = c@;
            let ghost rs = r@;
            out_crd.append(&mut c);
            out_ref.append(&mut r);
            i = i + 1;
            proof {
                let rest = compressed_scan(seg, crd, self.phase, input@.skip(i as int));
                assert(oc + (cs + rest.0) =~= (oc + cs) + rest.0);
                assert(orf + (rs + rest.1) =~= (orf + rs) + rest.1);
            }
        }
        assert(out_crd@ + seq![] =~= out_crd@);
        assert(out_ref@ + seq![] =~= out_ref@);
        (out_crd, out_ref)
    }
}

} // verus!

verus! {

/// The dense fiber of reference `v` in a level of extent `dim`: the
/// coordinates `0 .. dim` and the positions `v * dim + c`.
pub open spec fn dense_crds(dim: u32) -> Seq<Tk> {
    Seq::new(dim as nat, |k: int| Token::Val(k as u32))
}

pub open spec fn dense_refs(dim: u32, v: u32) -> Seq<Tk> {
    Seq::new(dim as nat, |k: int| Token::Val((k + v * dim) as u32))
}

/// Every position of the dense level fits in a `u32` and every stop level
/// can be raised.
pub open spec fn uncompressed_input_ok(dim: u32, input: Seq<Tk>) -> bool {
    &&& stops_raisable(input)
    &&& forall|i: int|
        0 <= i < input.len() && (#[trigger] input[i]) is Val ==> (input[i]->Val_0 + 1) * dim <= u32::MAX + 1
}

pub open spec fn uncompressed_scan(dim: u32, ph: ScanPhase, input: Seq<Tk>) -> (Seq<Tk>, Seq<Tk>, ScanPhase)
    decreases input.len(),
{
    if input.len() == 0 || ph.finished {
        (seq![], seq![], ph)
    } else {
        let t = input[0];
        let v = if t is Val { t->Val_0 } else { 0 };
        let (p1, c1, r1) = scan_step(ph, t, dense_crds(dim), dense_refs(dim, v), false);
        let (c2, r2, pf) = uncompressed_scan(dim, p1, input.drop_first());
        (c1 + c2, r1 + r2, pf)
    }
}

/// Reads a dense level of extent `meta_dim`: each reference `v` expands to
/// the coordinates `0 .. meta_dim` at positions `v * meta_dim + c`.
pub struct UncompressedCrdRdScan {
    pub meta_dim: u32,
    pub phase: ScanPhase,
}

impl UncompressedCrdRdScan {
    pub fn new(meta_dim: u32) -> (r: Self)
        ensures
            r.meta_dim == meta_dim,
            r.phase == fresh_phase(),
    {
        UncompressedCrdRdScan { meta_dim, phase: ScanPhase { pending_close: false, finished: false } }
    }

    fn read_fiber(&self, v: u32, out_crd: &mut Vec<Tk>, out_ref: &mut Vec<Tk>)
        requires
            (v + 1) * self.meta_dim <= u32::MAX + 1,
        ensures
            final(out_crd)@ == old(out_crd)@ + dense_crds(self.meta_dim),
            final(out_ref)@ == old(out_ref)@ + dense_refs(self.meta_dim, v),
    {
        let dim = self.meta_dim;
        let ghost c0 = out_crd@;
        let ghost r0 = out_ref@;
        let mut crd_count: u32 = 0;
        while crd_count < dim
            invariant
                crd_count <= dim,
                dim == self.meta_dim,
                (v + 1) * dim <= u32::MAX + 1,
                out_crd@ == c0 + Seq::new(crd_count as nat, |k: int| Token::Val(k as u32)),
                out_ref@ == r0 + Seq::new(crd_count as nat, |k: int| Token::Val((k + v * dim) as u32)),
            decreases dim - crd_count,
        {
            assert(crd_count + v * dim < (v + 1) * dim) by (nonlinear_arith)
                requires
                    crd_count < dim,
            ;
            let pos = crd_count + v * dim;
            out_crd.push(Token::Val(crd_count));
            out_ref.push(Token::Val(pos));
            crd_count = crd_count + 1;
        }
        assert(out_crd@ =~= c0 + dense_crds(dim));
        assert(out_ref@ =~= r0 + dense_refs(dim, v));
    }

    /// Handles one input reference token.
    pub fn step(&mut self, t: Tk) -> (r: (Vec<Tk>, Vec<Tk>))
        requires
            !old(self).phase.finished,
            t is Val ==> (t->Val_0 + 1) * old(self).meta_dim <= u32::MAX + 1,
            t is Stop ==> t->Stop_0 < u32::MAX,
        ensures
            final(self).meta_dim == old(self).meta_dim,
            ({
                let v = if t is Val { t->Val_0 } else { 0 };
                let (p, c, rf) = scan_step(
                    old(self).phase,
                    t,
                    dense_crds(old(self).meta_dim),
                    dense_refs(old(self).meta_dim, v),
                    false,
                );
                final(self).phase == p && r.0@ == c && r.1@ == rf
            }),
    {
        let mut out_crd: Vec<Tk> = Vec::new();
        let mut out_ref: Vec<Tk> = Vec::new();
        if self.phase.pending_close {
            let (close, consumed) = close_fiber(t);
            out_crd.push(close);
            out_ref.push(close);
            if consumed {
                self.phase = ScanPhase { pending_close: false, finished: false };
                return (out_crd, out_ref);
            }
        }
        match t {
            Token::Val(v) => {
                self.read_fiber(v, &mut out_crd, &mut out_ref);
                self.phase = ScanPhase { pending_close: true, finished: false };
            },
            Token::Stop(s) => {
                out_crd.push(Token::Stop(s + 1));
                out_ref.push(Token::Stop(s + 1));
                self.phase = ScanPhase { pending_close: false, finished: false };
            },
            Token::Empty => {
                out_crd.push(Token::Empty);
                out_ref.push(Token::Empty);
                self.phase = ScanPhase { pending_close: false, finished: false };
            },
            Token::Done => {
                out_crd.push(Token::Done);
                out_ref.push(Token::Done);
                self.phase = ScanPhase { pending_close: false, finished: true };
            },
        }
        (out_crd, out_ref)
    }

    /// Runs the scanner over a whole input stream, up to its done token.
    pub fn run(&mut self, input: &Vec<Tk>) -> (r: (Vec<Tk>, Vec<Tk>))
        requires
            uncompressed_input_ok(old(self).meta_dim, input@),
        ensures
            ({
                let (c, rf, p) = uncompressed_scan(old(self).meta_dim, old(self).phase, input@);
                r.0@ == c && r.1@ == rf && final(self).phase == p
            }),
            final(self).meta_dim == old(self).meta_dim,
    {
        let mut out_crd: Vec<Tk> = Vec::new();
        let mut out_ref: Vec<Tk> = Vec::new();
        let ghost dim = self.meta_dim;
        let ghost total = uncompressed_scan(dim, self.phase, input@);
        let mut i: usize = 0;
        assert(input@.skip(0) =~= input@);
        while i < input.len() && !self.phase.finished
            invariant
                i <= input.len(),
                self.meta_dim == dim,
                uncompressed_input_ok(dim, input@),
                ({
                    let (c, rf, p) = uncompressed_scan(dim, self.phase, input@.skip(i as int));
                    total.0 == out_crd@ + c && total.1 == out_ref@ + rf && total.2 == p
                }),
            decreases input.len() - i,
        {
            let t = input[i];
            let ghost s = input@.skip(i as int);
            let ghost ph0 = self.phase;
            let ghost oc = out_crd@;
            let ghost orf = out_ref@;
            assert(s[0] == t);
            assert(s.drop_first() =~= input@.skip(i as int + 1));
            assert(input@[i as int] == t);
            let ghost v = if t is Val { t->Val_0 } else { 0 };
            let ghost st = scan_step(ph0, t, dense_crds(dim), dense_refs(dim, v), false);
            assert(uncompressed_scan(dim, ph0, s) == ({
                let (c2, r2, pf) = uncompressed_scan(dim, st.0, input@.skip(i as int + 1));
                (st.1 + c2, st.2 + r2, pf)
            }));
            let (mut c, mut r) = self.step(t);
            let ghost cs = c@;
            let ghost rs = r@;
            out_crd.append(&mut c);
            out_ref.append(&mut r);
            i = i + 1;
            proof {
                let rest = uncompressed_scan(dim, self.phase, input@.skip(i as int));
                assert(oc + (cs + rest.0) =~= (oc + cs) + rest.0);
                assert(orf + (rs + rest.1) =~= (orf + rs) + rest.1);
            }
        }
        assert(out_crd@ + seq![] =~= out_crd@);
        assert(out_ref@ + seq![] =~= out_ref@);
        (out_crd, out_ref)
    }
}

} // verus!

verus! {

/// The phase and tile after a tiled scanner handles `t` in tile `tile`.
pub open spec fn tile_after(ph: ScanPhase, t: Tk, tile: nat, num_tiles: nat, base: ScanPhase) -> (ScanPhase, nat) {
    if t is Done {
        (ScanPhase { pending_close: false, finished: tile + 1 == num_tiles }, tile + 1)
    } else {
        (base, tile)
    }
}

pub open spec fn tile_input_ok(segs: Seq<Vec<u32>>, crds: Seq<Vec<u32>>, input: Seq<Tk>) -> bool {
    &&& stops_raisable(input)
    &&& segs.len() == crds.len()
    &&& forall|i: int|
        0 <= i < input.len() && (#[trigger] input[i]) is Val ==> forall|tl: int|
            0 <= tl < segs.len() ==> readable_fiber(#[trigger] segs[tl]@, crds[tl]@, input[i]->Val_0 as int)
}

/// The tiled scanner on a whole stream: tile `tile` is read until a done
/// token, which moves on to the next tile; the last tile's done token ends
/// the scan.
pub open spec fn tile_scan(
    segs: Seq<Vec<u32>>,
    crds: Seq<Vec<u32>>,
    num_tiles: nat,
    tile: nat,
    ph: ScanPhase,
    input: Seq<Tk>,
) -> (Seq<Tk>, Seq<Tk>, ScanPhase, nat)
    decreases input.len(),
{
    if input.len() == 0 || ph.finished {
        (seq![], seq![], ph, tile)
    } else {
        let t = input[0];
        let idx = if t is Val { t->Val_0 as int } else { 0 };
        let (p1, c1, r1) = scan_step(
            ph,
            t,
            fiber_crds(segs[tile as int]@, crds[tile as int]@, idx),
            fiber_refs(segs[tile as int]@, idx),
            false,
        );
        let (p2, tile2) = tile_after(ph, t, tile, num_tiles, p1);
        let (c2, r2, pf, tf) = tile_scan(segs, crds, num_tiles, tile2, p2, input.drop_first());
        (c1 + c2, r1 + r2, pf, tf)
    }
}

/// Reads a sequence of compressed tiles, one tile per done-terminated
/// input section.
pub struct TileRdScan {
    pub seg_arrs: Vec<Vec<u32>>,
    pub crd_arrs: Vec<Vec<u32>>,
    pub num_tiles: usize,
    pub tile: usize,
    pub phase: ScanPhase,
}

impl TileRdScan {
    pub fn new(seg_arrs: Vec<Vec<u32>>, crd_arrs: Vec<Vec<u32>>, num_tiles: usize) -> (r: Self)
        ensures
            r.seg_arrs@ == seg_arrs@,
            r.crd_arrs@ == crd_arrs@,
            r.num_tiles == num_tiles,
            r.tile == 0,
            r.phase == fresh_phase(),
    {
        TileRdScan {
            seg_arrs,
            crd_arrs,
            num_tiles,
            tile: 0,
            phase: ScanPhase { pending_close: false, finished: false },
        }
    }

    fn read_fiber(seg: &Vec<u32>, crd: &Vec<u32>, idx: u32, out_crd: &mut Vec<Tk>, out_ref: &mut Vec<Tk>)
        requires
            readable_fiber(seg@, crd@, idx as int),
        ensures
            final(out_crd)@ == old(out_crd)@ + fiber_crds(seg@, crd@, idx as int),
            final(out_ref)@ == old(out_ref)@ + fiber_refs(seg@, idx as int),
    {
        let i = idx as usize;
        assert(i + 1 < seg.len());
        let mut curr_addr = seg[i];
        let stop_addr = seg[i + 1];
        let ghost lo = curr_addr as int;
        let ghost c0 = out_crd@;
        let ghost r0 = out_ref@;
        while curr_addr < stop_addr
            invariant
                readable_fiber(seg@, crd@, idx as int),
                lo == seg@[idx as int],
                stop_addr == seg@[idx as int + 1],
                lo <= curr_addr,
                curr_addr <= stop_addr || curr_addr == lo,
                out_crd@ == c0 + Seq::new((curr_addr - lo) as nat, |k: int| Token::Val(crd@[lo + k])),
                out_ref@ == r0 + Seq::new((curr_addr - lo) as nat, |k: int| Token::Val((lo + k) as u32)),
            decreases stop_addr - curr_addr,
        {
            let coord = crd[curr_addr as usize];
            out_crd.push(Token::Val(coord));
            out_ref.push(Token::Val(curr_addr));
            curr_addr = curr_addr + 1;
        }
        assert(out_crd@ =~= c0 + fiber_crds(seg@, crd@, idx as int));
        assert(out_ref@ =~= r0 + fiber_refs(seg@, idx as int));
    }

    /// Handles one input reference token of the current tile.
    pub fn step(&mut self, t: Tk) -> (r: (Vec<Tk>, Vec<Tk>))
        requires
            !old(self).phase.finished,
            old(self).tile < old(self).seg_arrs.len(),
            old(self).seg_arrs.len() == old(self).crd_arrs.len(),
            t is Val ==> readable_fiber(
                old(self).seg_arrs@[old(self).tile as int]@,
                old(self).crd_arrs@[old(self).tile as int]@,
                t->Val_0 as int,
            ),
            t is Stop ==> t->Stop_0 < u32::MAX,
            t is Done ==> old(self).tile < usize::MAX,
        ensures
            final(self).seg_arrs == old(self).seg_arrs,
            final(self).crd_arrs == old(self).crd_arrs,
            final(self).num_tiles == old(self).num_tiles,
            ({
                let tl = old(self).tile as int;
                let idx = if t is Val { t->Val_0 as int } else { 0 };
                let (p, c, rf) = scan_step(
                    old(self).phase,
                    t,
                    fiber_crds(old(self).seg_arrs@[tl]@, old(self).crd_arrs@[tl]@, idx),
                    fiber_refs(old(self).seg_arrs@[tl]@, idx),
                    false,
                );
                let (p2, tile2) = tile_after(old(self).phase, t, tl as nat, old(self).num_tiles as nat, p);
                final(self).phase == p2 && final(self).tile == tile2 && r.0@ == c && r.1@ == rf
            }),
    {
        let mut out_crd: Vec<Tk> = Vec::new();
        let mut out_ref: Vec<Tk> = Vec::new();
        if self.phase.pending_close {
            let (close, consumed) = close_fiber(t);
            out_crd.push(close);
            out_ref.push(close);
            if consumed {
                self.phase = ScanPhase { pending_close: false, finished: false };
                return (out_crd, out_ref);
            }
        }
        match t {
            Token::Val(idx) => {
                Self::read_fiber(&self.seg_arrs[self.tile], &self.crd_arrs[self.tile], idx, &mut out_crd, &mut out_ref);
                self.phase = ScanPhase { pending_close: true, finished: false };
            },
            Token::Stop(s) => {
                out_crd.push(Token::Stop(s + 1));
                out_ref.push(Token::Stop(s + 1));
                self.phase = ScanPhase { pending_close: false, finished: false };
            },
            Token::Empty => {
                out_crd.push(Token::Empty);
                out_ref.push(Token::Empty);
                self.phase = ScanPhase { pending_close: false, finished: false };
            },
            Token::Done => {
                out_crd.push(Token::Done);
                out_ref.push(Token::Done);
                self.tile = self.tile + 1;
                self.phase = ScanPhase { pending_close: false, finished: self.tile == self.num_tiles };
            },
        }
        (out_crd, out_ref)
    }

    /// Runs the scanner over a whole input stream, up to the done token of
    /// its last tile.
    pub fn run(&mut self, input: &Vec<Tk>) -> (r: (Vec<Tk>, Vec<Tk>))
        requires
            tile_input_ok(old(self).seg_arrs@, old(self).crd_arrs@, input@),
            old(self).num_tiles <= old(self).seg_arrs.len(),
            old(self).tile < old(self).num_tiles,
        ensures
            ({
                let (c, rf, p, tl) = tile_scan(
                    old(self).seg_arrs@,
                    old(self).crd_arrs@,
                    old(self).num_tiles as nat,
                    old(self).tile as nat,
                    old(self).phase,
                    input@,
                );
                r.0@ == c && r.1@ == rf && final(self).phase == p && final(self).tile == tl
            }),
    {
        let mut out_crd: Vec<Tk> = Vec::new();
        let mut out_ref: Vec<Tk> = Vec::new();
        let ghost segs = self.seg_arrs@;
        let ghost crds = self.crd_arrs@;
        let ghost n = self.num_tiles as nat;
        let ghost total = tile_scan(segs, crds, n, self.tile as nat, self.phase, input@);
        let mut i: usize = 0;
        assert(input@.skip(0) =~= input@);
        while i < input.len() && !self.phase.finished
            invariant
                i <= input.len(),
                self.seg_arrs@ == segs,
                self.crd_arrs@ == crds,
                self.num_tiles == n,
                n <= segs.len(),
                !self.phase.finished ==> self.tile < n,
                tile_input_ok(segs, crds, input@),
                ({
                    let (c, rf, p, tl) = tile_scan(segs, crds, n, self.tile as nat, self.phase, input@.skip(i as int));
                    total.0 == out_crd@ + c && total.1 == out_ref@ + rf && total.2 == p && total.3 == tl
                }),
            decreases input.len() - i,
        {
            let t = input[i];
            let ghost s = input@.skip(i as int);
            let ghost ph0 = self.phase;
            let ghost tl0 = self.tile as nat;
            let ghost oc = out_crd@;
            let ghost orf = out_ref@;
            assert(s[0] == t);
            assert(s.drop_first() =~= input@.skip(i as int + 1));
            assert(input@[i as int] == t);
            let ghost idx = if t is Val { t->Val_0 as int } else { 0 };
            let ghost st = scan_step(
                ph0,
                t,
                fiber_crds(segs[tl0 as int]@, crds[tl0 as int]@, idx),
                fiber_refs(segs[tl0 as int]@, idx),
                false,
            );
            let ghost st2 = tile_after(ph0, t, tl0, n, st.0);
            assert(tile_scan(segs, crds, n, tl0, ph0, s) == ({
                let (c2, r2, pf, tf) = tile_scan(segs, crds, n, st2.1, st2.0, input@.skip(i as int + 1));
                (st.1 + c2, st.2 + r2, pf, tf)
            }));
            let (mut c, mut r) = self.step(t);
            let ghost cs = c@;
            let ghost rs = r@;
            out_crd.append(&mut c);
            out_ref.append(&mut r);
            i = i + 1;
            proof {
                let rest = tile_scan(segs, crds, n, self.tile as nat, self.phase, input@.skip(i as int));
                assert(oc + (cs + rest.0) =~= (oc + cs) + rest.0);
                assert(orf + (rs + rest.1) =~= (orf + rs) + rest.1);
            }
        }
        assert(out_crd@ + seq![] =~= out_crd@);
        assert(out_ref@ + seq![] =~= out_ref@);
        (out_crd, out_ref)
    }
}

} // verus!

verus! {

/// The coordinate and reference streams have the same shape: payloads
/// face payloads and every control token appears on both at the same
/// position.
pub open spec fn aligned(c: Seq<Tk>, r: Seq<Tk>) -> bool {
    &&& c.len() == r.len()
    &&& forall|k: int| 0 <= k < c.len() ==> ((#[trigger] c[k]) is Val <==> r[k] is Val)
    &&& forall|k: int| 0 <= k < c.len() && !(#[trigger] c[k] is Val) ==> c[k] == r[k]
}

/// Each emitted reference is a position of the coordinate array and its
/// coordinate is the one stored there.
pub open spec fn refs_match_crds(c: Seq<Tk>, r: Seq<Tk>, crd: Seq<u32>) -> bool {
    forall|k: int|
        0 <= k < r.len() && (#[trigger] r[k]) is Val ==> r[k]->Val_0 < crd.len() && c[k] == Token::<u32, u32>::Val(
            crd[r[k]->Val_0 as int],
        )
}

proof fn lemma_concat_pairs(c1: Seq<Tk>, r1: Seq<Tk>, c2: Seq<Tk>, r2: Seq<Tk>, crd: Seq<u32>)
    requires
        aligned(c1, r1),
        aligned(c2, r2),
        refs_match_crds(c1, r1, crd),
        refs_match_crds(c2, r2, crd),
    ensures
        aligned(c1 + c2, r1 + r2),
        refs_match_crds(c1 + c2, r1 + r2, crd),
{
    let c = c1 + c2;
    let r = r1 + r2;
    assert forall|k: int| 0 <= k < c.len() implies ((#[trigger] c[k]) is Val <==> r[k] is Val) by {
        if k >= c1.len() {
            assert(c[k] == c2[k - c1.len()]);
            assert(r[k] == r2[k - c1.len()]);
        }
    }
    assert forall|k: int| 0 <= k < c.len() && !(#[trigger] c[k] is Val) implies c[k] == r[k] by {
        if k >= c1.len() {
            assert(c[k] == c2[k - c1.len()]);
            assert(r[k] == r2[k - c1.len()]);
        }
    }
    assert forall|k: int| 0 <= k < r.len() && (#[trigger] r[k]) is Val implies r[k]->Val_0 < crd.len() && c[k]
        == Token::<u32, u32>::Val(crd[r[k]->Val_0 as int]) by {
        if k >= c1.len() {
            assert(c[k] == c2[k - c1.len()]);
            assert(r[k] == r2[k - c1.len()]);
        }
    }
}

proof fn lemma_compressed_step_pairs(seg: Seq<u32>, crd: Seq<u32>, ph: ScanPhase, t: Tk)
    requires
        t is Val ==> readable_fiber(seg, crd, t->Val_0 as int),
    ensures
        ({
            let idx = if t is Val { t->Val_0 as int } else { 0 };
            let (p, c, r) = scan_step(ph, t, fiber_crds(seg, crd, idx), fiber_refs(seg, idx), true);
            aligned(c, r) && refs_match_crds(c, r, crd)
        }),
{
    let idx = if t is Val { t->Val_0 as int } else { 0 };
    let fc = fiber_crds(seg, crd, idx);
    let fr = fiber_refs(seg, idx);
    if t is Val {
        assert(aligned(fc, fr));
        assert forall|k: int| 0 <= k < fr.len() && (#[trigger] fr[k]) is Val implies fr[k]->Val_0 < crd.len()
            && fc[k] == Token::<u32, u32>::Val(crd[fr[k]->Val_0 as int]) by {
            assert(seg[idx] + k < seg[idx + 1]);
        }
    }
    let (cl, consumed) = close_fiber_spec(t);
    let (p0, c0, r0) = scan_base(t, fc, fr, true);
    assert(aligned(c0, r0) && refs_match_crds(c0, r0, crd));
    if ph.pending_close && !consumed {
        assert(aligned(seq![cl], seq![cl]) && refs_match_crds(seq![cl], seq![cl], crd));
        lemma_concat_pairs(seq![cl], seq![cl], c0, r0, crd);
    }
}

/// Law: the compressed scanner's two output streams are aligned, and every
/// emitted reference is a position of the coordinate array whose stored
/// coordinate is the one emitted beside it.
pub proof fn lemma_compressed_scan_pairs(seg: Seq<u32>, crd: Seq<u32>, ph: ScanPhase, input: Seq<Tk>)
    requires
        compressed_input_ok(seg, crd, input),
    ensures
        ({
            let (c, r, p) = compressed_scan(seg, crd, ph, input);
            aligned(c, r) && refs_match_crds(c, r, crd)
        }),
    decreases input.len(),
{
    if input.len() == 0 || ph.finished {
        let e: Seq<Tk> = seq![];
        assert(aligned(e, e));
    } else {
        let t = input[0];
        let idx = if t is Val { t->Val_0 as int } else { 0 };
        let (p1, c1, r1) = scan_step(ph, t, fiber_crds(seg, crd, idx), fiber_refs(seg, idx), true);
        let rest = input.drop_first();
        assert forall|i: int| 0 <= i < rest.len() && (#[trigger] rest[i]) is Stop implies rest[i]->Stop_0 < u32::MAX by {
            assert(rest[i] == input[i + 1]);
        }
        assert forall|i: int| 0 <= i < rest.len() && (#[trigger] rest[i]) is Val implies readable_fiber(
            seg,
            crd,
            rest[i]->Val_0 as int,
        ) by {
            assert(rest[i] == input[i + 1]);
        }
        lemma_compressed_step_pairs(seg, crd, ph, t);
        lemma_compressed_scan_pairs(seg, crd, p1, rest);
        let (c2, r2, pf) = compressed_scan(seg, crd, p1, rest);
        lemma_concat_pairs(c1, r1, c2, r2, crd);
    }
}

} // verus!
