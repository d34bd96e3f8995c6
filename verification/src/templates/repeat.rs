use vstd::prelude::*;

use super::primitive::{Token, Repsiggen, close_fiber_spec, close_fiber};

verus! {

/// The repeat signal for one input token: a payload or an empty marker is
/// repeated, a stop token ends a repetition, the done token ends the stream.
pub open spec fn repsig_of<V>(t: Token<V, u32>) -> Repsiggen {
    match t {
        Token::Val(_) | Token::Empty => Repsiggen::Repeat,
        Token::Stop(_) => Repsiggen::Stop,
        Token::Done => Repsiggen::Done,
    }
}

/// The signals generated for a stream: one per token, up to and including
/// its done token.
pub open spec fn repsig_stream<V>(input: Seq<Token<V, u32>>) -> Seq<Repsiggen>
    decreases input.len(),
{
    if input.len() == 0 {
        seq![]
    } else if input[0] is Done {
        seq![Repsiggen::Done]
    } else {
        seq![repsig_of(input[0])] + repsig_stream(input.drop_first())
    }
}

/// Turns a stream into the repeat signals that replicate another stream
/// along its shape.
pub struct RepeatSigGen;

impl RepeatSigGen {
    pub fn new() -> Self {
        RepeatSigGen
    }

    pub fn signal<V: Copy>(t: Token<V, u32>) -> (r: Repsiggen)
        ensures
            r == repsig_of(t),
    {
        match t {
            Token::Val(_) | Token::Empty => Repsiggen::Repeat,
            Token::Stop(_) => Repsiggen::Stop,
            Token::Done => Repsiggen::Done,
        }
    }

    /// The signals for a whole stream, up to and including its done token.
    pub fn run<V: Copy>(&self, input: &Vec<Token<V, u32>>) -> (r: Vec<Repsiggen>)
        ensures
            r@ == repsig_stream(input@),
    {
        let mut out: Vec<Repsiggen> = Vec::new();
        let mut i: usize = 0;
        assert(input@.skip(0) =~= input@);
        while i < input.len()
            invariant
                i <= input.len(),
                repsig_stream(input@) == out@ + repsig_stream(input@.skip(i as int)),
            decreases input.len() - i,
        {
            let t = input[i];
            let ghost s = input@.skip(i as int);
            assert(s[0] == t);
            assert(s.drop_first() =~= input@.skip(i as int + 1));
            let g = Self::signal(t);
            out.push(g);
            if let Token::Done = t {
                assert(repsig_stream(input@) =~= out@);
                return out;
            }
            i = i + 1;
            assert(repsig_stream(input@) =~= out@ + repsig_stream(input@.skip(i as int)));
        }
        assert(repsig_stream(input@) =~= out@);
        out
    }
}

/// How a repeater's run over whole streams ended.
#[derive(Clone, Copy, Debug, PartialEq, Eq)]
pub enum RepeatStatus {
    Finished,
    /// The done signal met a reference that is not the done token.
    Fault,
    /// An input ended before the done signal.
    Exhausted,
}

/// What the repeater does for one signal `g` with reference stream `refs`
/// at position `j`: the tokens emitted and the new reference position, or
/// `None` when the reference stream runs out or the done signal meets a
/// reference that is not the done token.
pub open spec fn repeat_step<V>(g: Repsiggen, refs: Seq<Token<V, u32>>, j: nat) -> Option<(Seq<Token<V, u32>>, nat)> {
    if j >= refs.len() {
        None
    } else {
        match g {
            Repsiggen::Repeat => Some((seq![refs[j as int]], j)),
            Repsiggen::Stop => if j + 1 >= refs.len() {
                None
            } else {
                let (close, consumed) = close_fiber_spec(refs[j + 1 as int]);
                Some((seq![close], if consumed { j + 2 } else { j + 1 }))
            },
            Repsiggen::Done => if refs[j as int] is Done {
                Some((seq![Token::Done], j))
            } else {
                None
            },
        }
    }
}

/// The repeater on whole streams from signal position `i` and reference
/// position `j`.
pub open spec fn repeat_run<V>(sigs: Seq<Repsiggen>, refs: Seq<Token<V, u32>>, i: nat, j: nat) -> (Seq<Token<V, u32>>, RepeatStatus)
    decreases sigs.len() - i,
{
    if i >= sigs.len() {
        (seq![], RepeatStatus::Exhausted)
    } else {
        match repeat_step(sigs[i as int], refs, j) {
            None => (seq![], if j < refs.len() && sigs[i as int] is Done { RepeatStatus::Fault } else { RepeatStatus::Exhausted }),
            Some((out, j2)) => if sigs[i as int] is Done {
                (out, RepeatStatus::Finished)
            } else {
                let (rest, st) = repeat_run(sigs, refs, i + 1, j2);
                (out + rest, st)
            },
        }
    }
}

/// Stop levels in the reference stream can be raised.
pub open spec fn refs_raisable<V>(refs: Seq<Token<V, u32>>) -> bool {
    forall|k: int| 0 <= k < refs.len() && (#[trigger] refs[k]) is Stop ==> refs[k]->Stop_0 < u32::MAX
}

/// Replicates each reference as the repeat signals say: the current
/// reference is emitted on each repeat signal and dropped on a stop signal,
/// which also emits the closing stop token.
pub struct Repeat;

impl Repeat {
    pub fn new() -> Self {
        Repeat
    }

    /// Runs the repeater over whole streams.
    pub fn run<V: Copy>(&self, in_ref: &Vec<Token<V, u32>>, in_repsig: &Vec<Repsiggen>) -> (r: (
        Vec<Token<V, u32>>,
        RepeatStatus,
    ))
        requires
            refs_raisable(in_ref@),
        ensures
            (r.0@, r.1) == repeat_run(in_repsig@, in_ref@, 0, 0),
    {
        let mut out: Vec<Token<V, u32>> = Vec::new();
        let ghost total = repeat_run(in_repsig@, in_ref@, 0, 0);
        let mut i: usize = 0;
        let mut j: usize = 0;
        while i < in_repsig.len()
            invariant
                i <= in_repsig.len(),
                refs_raisable(in_ref@),
                total == repeat_run(in_repsig@, in_ref@, 0, 0),
                ({
                    let (rest, st) = repeat_run(in_repsig@, in_ref@, i as nat, j as nat);
                    total.0 == out@ + rest && total.1 == st
                }),
            decreases in_repsig.len() - i,
        {
            let ghost o0 = out@;
            let g = in_repsig[i];
            if j >= in_ref.len() {
                assert(total.0 =~= out@);
                return (out, RepeatStatus::Exhausted);
            }
            let curr_ref = in_ref[j];
            match g {
                Repsiggen::Repeat => {
                    out.push(curr_ref);
                },
                Repsiggen::Stop => {
                    if j + 1 >= in_ref.len() {
                        assert(total.0 =~= out@);
                        return (out, RepeatStatus::Exhausted);
                    }
                    let (close, consumed) = close_fiber(in_ref[j + 1]);
                    out.push(close);
                    j = if consumed { j + 2 } else { j + 1 };
                },
                Repsiggen::Done => {
                    match curr_ref {
                        Token::Done => {
                            out.push(Token::Done);
                            assert(total.0 =~= out@);
                            return (out, RepeatStatus::Finished);
                        },
                        _ => {
                            assert(total.0 =~= out@);
                            return (out, RepeatStatus::Fault);
                        },
                    }
                },
            }
            i = i + 1;
            proof {
                let (rest, st) = repeat_run(in_repsig@, in_ref@, i as nat, j as nat);
                assert(o0 + (seq![out@.last()] + rest) =~= out@ + rest);
            }
        }
        assert(total.0 =~= out@);
        (out, RepeatStatus::Exhausted)
    }
}

/// Law: a repeater answers every signal with exactly one token, in
/// order: a stop signal with a stop token, the done signal with the done
/// token (the last one), a repeat signal with the current reference.
pub proof fn lemma_repeat_follows_signals<V>(sigs: Seq<Repsiggen>, refs: Seq<Token<V, u32>>, i: nat, j: nat)
    requires
        i <= sigs.len(),
    ensures
        ({
            let (out, st) = repeat_run(sigs, refs, i, j);
            &&& i + out.len() <= sigs.len()
            &&& st == RepeatStatus::Finished ==> out.len() > 0 && sigs[i + out.len() - 1] is Done
            &&& forall|k: int|
                0 <= k < out.len() ==> (sigs[i + k] is Stop ==> (#[trigger] out[k]) is Stop) && (sigs[i + k] is Done
                    ==> out[k] is Done)
        }),
    decreases sigs.len() - i,
{
    if i < sigs.len() {
        match repeat_step(sigs[i as int], refs, j) {
            None => {},
            Some((o, j2)) => {
                assert(o.len() == 1);
                if sigs[i as int] is Stop {
                    let (close, consumed) = close_fiber_spec(refs[j + 1 as int]);
                    assert(close is Stop);
                    assert(o[0] == close);
                }
                if !(sigs[i as int] is Done) {
                    lemma_repeat_follows_signals(sigs, refs, i + 1, j2);
                    let (rest, st) = repeat_run(sigs, refs, i + 1, j2);
                    let out = o + rest;
                    assert forall|k: int| 0 <= k < out.len() implies (sigs[i + k] is Stop ==> (#[trigger] out[k]) is Stop) && (
                    sigs[i + k] is Done ==> out[k] is Done) by {
                        if k > 0 {
                            assert(out[k] == rest[k - 1]);
                            assert(sigs[i + k] == sigs[(i + 1) + (k - 1)]);
                        }
                    }
                    if st == RepeatStatus::Finished {
                        assert(sigs[i + out.len() - 1] == sigs[(i + 1) + rest.len() - 1]);
                    }
                }
            },
        }
    }
}

/// The signal for position `k` of a stream follows the token there: a stop
/// signal exactly for a stop token, the done signal for the done token.
pub proof fn lemma_repsig_stream_positions<V>(input: Seq<Token<V, u32>>)
    ensures
        repsig_stream(input).len() <= input.len(),
        forall|k: int|
            0 <= k < repsig_stream(input).len() ==> (#[trigger] repsig_stream(input)[k] is Stop <==> input[k] is Stop) && (
            repsig_stream(input)[k] is Done <==> input[k] is Done),
    decreases input.len(),
{
    if input.len() > 0 && !(input[0] is Done) {
        lemma_repsig_stream_positions(input.drop_first());
        let r = repsig_stream(input);
        let rest = repsig_stream(input.drop_first());
        assert forall|k: int| 0 <= k < r.len() implies (#[trigger] r[k] is Stop <==> input[k] is Stop) && (r[k] is Done
            <==> input[k] is Done) by {
            if k > 0 {
                assert(r[k] == rest[k - 1]);
                assert(input.drop_first()[k - 1] == input[k]);
            }
        }
    }
}

/// Law: replicating a reference stream along the shape of a coordinate
/// stream (signals from the coordinate stream, then the repeater) puts a
/// stop token wherever the coordinate stream has one and the done token
/// where it has its done token.
pub proof fn lemma_repeat_follows_shape<V, W>(crds: Seq<Token<V, u32>>, refs: Seq<Token<W, u32>>)
    ensures
        ({
            let (out, st) = repeat_run(repsig_stream(crds), refs, 0, 0);
            &&& out.len() <= crds.len()
            &&& forall|k: int|
                0 <= k < out.len() ==> (crds[k] is Stop ==> (#[trigger] out[k]) is Stop) && (crds[k] is Done ==> out[k] is Done)
        }),
{
    lemma_repsig_stream_positions(crds);
    lemma_repeat_follows_signals(repsig_stream(crds), refs, 0, 0);
    let sigs = repsig_stream(crds);
    let (out, st) = repeat_run(sigs, refs, 0, 0);
    assert forall|k: int| 0 <= k < out.len() implies (crds[k] is Stop ==> (#[trigger] out[k]) is Stop) && (crds[k] is Done
        ==> out[k] is Done) by {
        assert(sigs[0 + k] == sigs[k]);
    }
}

} // verus!
