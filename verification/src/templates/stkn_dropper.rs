use vstd::prelude::*;

use super::primitive::Token;

verus! {

/// How a dropper's run over a whole stream ended.
#[derive(Clone, Copy, Debug, PartialEq, Eq)]
pub enum DropStatus {
    Finished,
    /// A token the dropper does not accept was met.
    Fault,
    /// The input ended before the done token.
    Exhausted,
}

/// The stop-token dropper from state `prev_stkn` (the last token passed on
/// was a stop token, or nothing was passed yet): payloads pass, a stop token
/// passes only when it follows a payload, the done token passes and ends
/// the stream, an empty marker is not accepted.
pub open spec fn stkn_drop_run<V>(prev_stkn: bool, input: Seq<Token<V, u32>>) -> (Seq<Token<V, u32>>, DropStatus)
    decreases input.len(),
{
    if input.len() == 0 {
        (seq![], DropStatus::Exhausted)
    } else {
        match input[0] {
            Token::Val(v) => {
                let (rest, st) = stkn_drop_run(false, input.drop_first());
                (seq![Token::Val(v)] + rest, st)
            },
            Token::Done => (seq![Token::Done], DropStatus::Finished),
            Token::Stop(s) => if !prev_stkn {
                let (rest, st) = stkn_drop_run(true, input.drop_first());
                (seq![Token::Stop(s)] + rest, st)
            } else {
                stkn_drop_run(true, input.drop_first())
            },
            Token::Empty => (seq![], DropStatus::Fault),
        }
    }
}

/// Removes the stop tokens that do not close a fiber holding a payload.
pub struct StknDrop;

impl StknDrop {
    pub fn new() -> Self {
        StknDrop
    }

    pub fn run<V: Copy>(&self, in_val: &Vec<Token<V, u32>>) -> (r: (Vec<Token<V, u32>>, DropStatus))
        ensures
            (r.0@, r.1) == stkn_drop_run(true, in_val@),
    {
        let mut out: Vec<Token<V, u32>> = Vec::new();
        let ghost total = stkn_drop_run(true, in_val@);
        let mut prev_stkn = true;
        let mut i: usize = 0;
        assert(in_val@.skip(0) =~= in_val@);
        while i < in_val.len()
            invariant
                i <= in_val.len(),
                total == stkn_drop_run(true, in_val@),
                ({
                    let (rest, st) = stkn_drop_run(prev_stkn, in_val@.skip(i as int));
                    total.0 == out@ + rest && total.1 == st
                }),
            decreases in_val.len() - i,
        {
            let t = in_val[i];
            let ghost s = in_val@.skip(i as int);
            let ghost o0 = out@;
            assert(s[0] == t);
            assert(s.drop_first() =~= in_val@.skip(i as int + 1));
            match t {
                Token::Val(v) => {
                    out.push(Token::Val(v));
                    prev_stkn = false;
                },
                Token::Done => {
                    out.push(Token::Done);
                    assert(total.0 =~= out@);
                    return (out, DropStatus::Finished);
                },
                Token::Stop(st) => {
                    if !prev_stkn {
                        out.push(Token::Stop(st));
                        prev_stkn = true;
                    }
                },
                Token::Empty => {
                    assert(total.0 =~= out@);
                    return (out, DropStatus::Fault);
                },
            }
            i = i + 1;
            proof {
                let (rest, st) = stkn_drop_run(prev_stkn, in_val@.skip(i as int));
                if out@.len() > o0.len() {
                    assert(o0 + (seq![out@.last()] + rest) =~= out@ + rest);
                }
            }
        }
        assert(total.0 =~= out@);
        (out, DropStatus::Exhausted)
    }
}

/// No two adjacent tokens of the stream are stop tokens.
pub open spec fn no_adjacent_stops<V>(out: Seq<Token<V, u32>>) -> bool {
    forall|k: int| 0 <= k < out.len() - 1 ==> !((#[trigger] out[k]) is Stop && out[k + 1] is Stop)
}

/// Law: the dropper never passes two stop tokens in a row, and from its
/// initial state it never starts with a stop token.
pub proof fn lemma_stkn_drop_no_adjacent_stops<V>(prev_stkn: bool, input: Seq<Token<V, u32>>)
    ensures
        no_adjacent_stops(stkn_drop_run(prev_stkn, input).0),
        prev_stkn && stkn_drop_run(prev_stkn, input).0.len() > 0 ==> !(stkn_drop_run(prev_stkn, input).0[0] is Stop),
    decreases input.len(),
{
    if input.len() > 0 {
        let rest = input.drop_first();
        match input[0] {
            Token::Val(v) => {
                lemma_stkn_drop_no_adjacent_stops(false, rest);
                let r = stkn_drop_run(false, rest).0;
                let o = seq![Token::Val(v)] + r;
                assert forall|k: int| 0 <= k < o.len() - 1 implies !((#[trigger] o[k]) is Stop && o[k + 1] is Stop) by {
                    if k > 0 {
                        assert(o[k] == r[k - 1] && o[k + 1] == r[k]);
                    }
                }
            },
            Token::Stop(s) => {
                lemma_stkn_drop_no_adjacent_stops(true, rest);
                if !prev_stkn {
                    let r = stkn_drop_run(true, rest).0;
                    let o = seq![Token::Stop(s)] + r;
                    assert forall|k: int| 0 <= k < o.len() - 1 implies !((#[trigger] o[k]) is Stop && o[k + 1] is Stop) by {
                        if k > 0 {
                            assert(o[k] == r[k - 1] && o[k + 1] == r[k]);
                        } else {
                            assert(o[1] == r[0]);
                        }
                    }
                }
            },
            _ => {},
        }
    }
}

} // verus!
