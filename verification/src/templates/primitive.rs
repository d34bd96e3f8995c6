use vstd::prelude::*;

verus! {

/// A token of a fibertree stream: a payload, a stop token of some level,
/// an explicit empty marker, or the end of the stream.
#[derive(Clone, Copy, Debug, PartialEq, Eq, Hash)]
pub enum Token<ValType, StopType> {
    Val(ValType),
    Stop(StopType),
    Empty,
    Done,
}

/// Control signal that drives a repeater.
#[derive(Clone, Copy, Debug, PartialEq, Eq)]
pub enum Repsiggen {
    Repeat,
    Stop,
    Done,
}

impl Default for Repsiggen {
    fn default() -> (r: Self)
        ensures
            r == Repsiggen::Repeat,
    {
        Repsiggen::Repeat
    }
}

} // verus!

verus! {

/// A stop token one level above `s`.
pub open spec fn stop_up<V>(s: u32) -> Token<V, u32> {
    Token::Stop((s + 1) as u32)
}

/// Stop tokens in the stream can be raised by one level without overflow.
pub open spec fn stops_raisable<V>(input: Seq<Token<V, u32>>) -> bool {
    forall|i: int| 0 <= i < input.len() && (#[trigger] input[i]) is Stop ==> input[i]->Stop_0 < u32::MAX
}

/// What closes a fiber whose next input token is `next`: a following stop
/// token is raised by one level and consumed; anything else leaves the
/// input untouched and the fiber is closed with a level-0 stop.
pub open spec fn close_fiber_spec<V>(next: Token<V, u32>) -> (Token<V, u32>, bool) {
    match next {
        Token::Stop(s) => (Token::Stop((s + 1) as u32), true),
        _ => (Token::Stop(0), false),
    }
}

/// Decides how the fiber that was just emitted is closed, given the next
/// input token; the boolean says whether that token was consumed.
pub fn close_fiber<V: Copy>(next: Token<V, u32>) -> (r: (Token<V, u32>, bool))
    requires
        next is Stop ==> next->Stop_0 < u32::MAX,
    ensures
        r == close_fiber_spec(next),
{
    match next {
        Token::Stop(s) => (Token::Stop(s + 1), true),
        _ => (Token::Stop(0), false),
    }
}

} // verus!

verus! {

pub open spec fn is_ascii_digit(c: char) -> bool {
    '0' <= c && c <= '9'
}

/// The number written by a string of decimal digits.
pub open spec fn decimal_value(s: Seq<char>) -> int
    decreases s.len(),
{
    if s.len() == 0 {
        0
    } else {
        decimal_value(s.drop_last()) * 10 + (s.last() as int - '0' as int)
    }
}

/// How `u32`'s `FromStr` reads a string: an optional `+` followed by at
/// least one decimal digit, and a value that fits.
pub open spec fn parse_u32_spec(s: Seq<char>) -> Option<u32> {
    let body = if s.len() > 0 && s[0] == '+' { s.drop_first() } else { s };
    if body.len() > 0 && (forall|k: int| 0 <= k < body.len() ==> is_ascii_digit(#[trigger] body[k]))
        && decimal_value(body) <= u32::MAX {
        Some(decimal_value(body) as u32)
    } else {
        None
    }
}

/// Reads a `u32` with std's `str::parse`; its documented grammar is an
/// optional `+` sign followed by decimal digits, failing on anything else
/// and on overflow.
#[verifier::external_body]
pub(crate) fn parse_u32(s: &str) -> (r: Option<u32>)
    ensures
        r == parse_u32_spec(s@),
{
    s.parse::<u32>().ok()
}

/// How a control token is written: `D…` is the done token, `N…` an empty
/// marker, `S` followed by a number a stop token of that level.
pub open spec fn control_token_spec<V>(s: Seq<char>) -> Option<Token<V, u32>> {
    if s.len() > 0 && s[0] == 'D' {
        Some(Token::Done)
    } else if s.len() > 0 && s[0] == 'N' {
        Some(Token::Empty)
    } else if s.len() > 0 && s[0] == 'S' {
        match parse_u32_spec(s.drop_first()) {
            Some(v) => Some(Token::Stop(v)),
            None => None,
        }
    } else {
        None
    }
}

impl<V> Token<V, u32> {
    /// Reads a control token (`D`, `N` or `S<level>`).
    pub fn try_from_str(value: &str) -> (r: Result<Self, ()>)
        ensures
            r is Ok <==> control_token_spec::<V>(value@) is Some,
            r is Ok ==> r->Ok_0 == control_token_spec::<V>(value@)->0,
    {
        let n = value.unicode_len();
        if n == 0 {
            return Err(());
        }
        let c = value.get_char(0);
        if c == 'D' {
            Ok(Token::Done)
        } else if c == 'N' {
            Ok(Token::Empty)
        } else if c == 'S' {
            let rest = value.substring_char(1, n);
            assert(rest@ =~= value@.drop_first());
            match parse_u32(rest) {
                Some(v) => Ok(Token::Stop(v)),
                None => Err(()),
            }
        } else {
            Err(())
        }
    }
}

/// How a coordinate or reference token is written: a control token, or
/// else a decimal number.
pub open spec fn crd_token_spec(s: Seq<char>) -> Option<Token<u32, u32>> {
    match control_token_spec::<u32>(s) {
        Some(t) => Some(t),
        None => match parse_u32_spec(s) {
            Some(v) => Some(Token::Val(v)),
            None => None,
        },
    }
}

/// Reads a coordinate or reference token: a control token, or else a
/// decimal number.
pub fn parse_crd_token(value: &str) -> (r: Option<Token<u32, u32>>)
    ensures
        r == crd_token_spec(value@),
{
    match Token::<u32, u32>::try_from_str(value) {
        Ok(t) => Some(t),
        Err(_) => match parse_u32(value) {
            Some(v) => Some(Token::Val(v)),
            None => None,
        },
    }
}

/// How a repeat signal is written: `R…`, `S…` or `D…`.
pub open spec fn repsig_spec(s: Seq<char>) -> Option<Repsiggen> {
    if s.len() > 0 && s[0] == 'R' {
        Some(Repsiggen::Repeat)
    } else if s.len() > 0 && s[0] == 'S' {
        Some(Repsiggen::Stop)
    } else if s.len() > 0 && s[0] == 'D' {
        Some(Repsiggen::Done)
    } else {
        None
    }
}

impl Repsiggen {
    /// Reads a repeat signal from its first letter.
    pub fn try_from_str(value: &str) -> (r: Result<Self, ()>)
        ensures
            r is Ok <==> repsig_spec(value@) is Some,
            r is Ok ==> r->Ok_0 == repsig_spec(value@)->0,
    {
        let n = value.unicode_len();
        if n == 0 {
            return Err(());
        }
        let c = value.get_char(0);
        if c == 'R' {
            Ok(Repsiggen::Repeat)
        } else if c == 'S' {
            Ok(Repsiggen::Stop)
        } else if c == 'D' {
            Ok(Repsiggen::Done)
        } else {
            Err(())
        }
    }
}

} // verus!
