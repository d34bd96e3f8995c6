use vstd::prelude::*;

use super::primitive::{crd_token_spec, decimal_value, is_ascii_digit, parse_u32_spec, Token};

verus! {

/// The character of decimal digit `d`.
pub open spec fn digit_char(d: nat) -> char {
    if d == 0 { '0' }
    else if d == 1 { '1' }
    else if d == 2 { '2' }
    else if d == 3 { '3' }
    else if d == 4 { '4' }
    else if d == 5 { '5' }
    else if d == 6 { '6' }
    else if d == 7 { '7' }
    else if d == 8 { '8' }
    else { '9' }
}

/// The decimal digits of `n`, most significant first, without leading zeros.
pub open spec fn digits(n: nat) -> Seq<char>
    decreases n,
{
    if n < 10 {
        seq![digit_char(n)]
    } else {
        digits(n / 10).push(digit_char(n % 10))
    }
}

/// How a coordinate token is written: its number, `S` and its level, `N`
/// or `D`.
pub open spec fn token_text(t: Token<u32, u32>) -> Seq<char> {
    match t {
        Token::Val(v) => digits(v as nat),
        Token::Stop(s) => seq!['S'] + digits(s as nat),
        Token::Empty => seq!['N'],
        Token::Done => seq!['D'],
    }
}

proof fn lemma_digit_char(d: nat)
    requires
        d < 10,
    ensures
        is_ascii_digit(digit_char(d)),
        digit_char(d) as int - '0' as int == d,
{
}

proof fn lemma_digits(n: nat)
    ensures
        digits(n).len() > 0,
        forall|k: int| 0 <= k < digits(n).len() ==> is_ascii_digit(#[trigger] digits(n)[k]),
        decimal_value(digits(n)) == n,
    decreases n,
{
    if n < 10 {
        lemma_digit_char(n);
        assert(digits(n).drop_last() =~= Seq::<char>::empty());
        assert(decimal_value(Seq::<char>::empty()) == 0);
        assert(decimal_value(digits(n)) == decimal_value(Seq::<char>::empty()) * 10 + (digit_char(n) as int - '0' as int));
    } else {
        lemma_digits(n / 10);
        lemma_digit_char(n % 10);
        assert(digits(n).drop_last() =~= digits(n / 10));
        assert(digits(n).last() == digit_char(n % 10));
        assert(decimal_value(digits(n)) == decimal_value(digits(n / 10)) * 10 + (n % 10));
        assert((n / 10) * 10 + n % 10 == n) by (nonlinear_arith);
        let d = digits(n);
        assert forall|k: int| 0 <= k < d.len() implies is_ascii_digit(#[trigger] d[k]) by {
            if k < d.len() - 1 {
                assert(d[k] == digits(n / 10)[k]);
            }
        }
    }
}

/// Reading back the decimal digits of a number gives the number.
pub proof fn lemma_digits_parse(n: u32)
    ensures
        parse_u32_spec(digits(n as nat)) == Some(n),
{
    lemma_digits(n as nat);
    let d = digits(n as nat);
    assert(is_ascii_digit(d[0]));
}

/// Law: reading back the text of a coordinate token gives the token.
pub proof fn lemma_token_text_round_trip(t: Token<u32, u32>)
    ensures
        crd_token_spec(token_text(t)) == Some(t),
{
    match t {
        Token::Val(v) => {
            lemma_digits(v as nat);
            let d = digits(v as nat);
            assert(is_ascii_digit(d[0]));
            assert(parse_u32_spec(d) == Some(v));
        },
        Token::Stop(s) => {
            lemma_digits(s as nat);
            let d = digits(s as nat);
            assert((seq!['S'] + d).drop_first() =~= d);
            assert(is_ascii_digit(d[0]));
            assert(parse_u32_spec(d) == Some(s));
        },
        _ => {},
    }
}

fn digit(d: u32) -> (c: char)
    requires
        d < 10,
    ensures
        c == digit_char(d as nat),
{
    if d == 0 { '0' }
    else if d == 1 { '1' }
    else if d == 2 { '2' }
    else if d == 3 { '3' }
    else if d == 4 { '4' }
    else if d == 5 { '5' }
    else if d == 6 { '6' }
    else if d == 7 { '7' }
    else if d == 8 { '8' }
    else { '9' }
}

fn push_digits(n: u32, out: &mut Vec<char>)
    ensures
        final(out)@ == old(out)@ + digits(n as nat),
    decreases n,
{
    if n >= 10 {
        push_digits(n / 10, out);
    }
    let c = digit(n % 10);
    out.push(c);
    proof {
        if n >= 10 {
            assert(old(out)@ + digits((n / 10) as nat) + seq![c] =~= old(out)@ + digits(n as nat));
        } else {
            assert(old(out)@ + seq![c] =~= old(out)@ + digits(n as nat));
        }
    }
}

/// Collects characters into a `String` (std's `FromIterator<&char>` for
/// `String`, which appends them in order).
#[verifier::external_body]
pub(crate) fn string_from_chars(chars: &Vec<char>) -> (s: String)
    ensures
        s@ == chars@,
{
    chars.iter().collect()
}

impl Token<u32, u32> {
    /// The characters of the token's text.
    pub fn text_chars(&self) -> (r: Vec<char>)
        ensures
            r@ == token_text(*self),
    {
        let mut out: Vec<char> = Vec::new();
        match *self {
            Token::Val(v) => {
                push_digits(v, &mut out);
            },
            Token::Stop(s) => {
                out.push('S');
                push_digits(s, &mut out);
            },
            Token::Empty => {
                out.push('N');
            },
            Token::Done => {
                out.push('D');
            },
        }
        assert(out@ =~= token_text(*self));
        out
    }

    /// The token written out: its number, `S` and its level, `N` or `D`.
    pub fn to_text(&self) -> (r: String)
        ensures
            r@ == token_text(*self),
    {
        let chars = self.text_chars();
        string_from_chars(&chars)
    }
}

} // verus!
