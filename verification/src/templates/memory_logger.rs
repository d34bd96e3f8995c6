use vstd::prelude::*;

use super::token_text::string_from_chars;

verus! {

/// Whether a logged memory access loaded or stored.
#[derive(Clone, Copy, Debug, PartialEq, Eq)]
pub enum AccessType {
    Read,
    Write,
}

/// One logged memory access.
#[derive(Clone, Copy, Debug, PartialEq, Eq)]
pub struct AccessBundle {
    pub access_type: AccessType,
    pub addr: u64,
}

/// The lower-case character of hexadecimal digit `d`.
pub open spec fn hex_char(d: nat) -> char {
    if d < 10 {
        (48 + d) as char
    } else {
        (87 + d) as char
    }
}

/// The hexadecimal digits of `n`, most significant first, without leading
/// zeros.
pub open spec fn hex_digits(n: nat) -> Seq<char>
    decreases n,
{
    if n < 16 {
        seq![hex_char(n)]
    } else {
        hex_digits(n / 16).push(hex_char(n % 16))
    }
}

/// `s` padded with leading zeros to at least eight characters.
pub open spec fn pad8(s: Seq<char>) -> Seq<char> {
    if s.len() < 8 {
        Seq::new((8 - s.len()) as nat, |i: int| '0') + s
    } else {
        s
    }
}

/// How an access is written in the access log: `LD` or `ST`, then the
/// address as `0x` and at least eight lower-case hexadecimal digits.
pub open spec fn access_line(b: AccessBundle) -> Seq<char> {
    let kind: Seq<char> = match b.access_type {
        AccessType::Read => seq!['L', 'D'],
        AccessType::Write => seq!['S', 'T'],
    };
    kind + seq![' ', '0', 'x'] + pad8(hex_digits(b.addr as nat))
}

fn hex_digit(d: u64) -> (c: char)
    requires
        d < 16,
    ensures
        c == hex_char(d as nat),
{
    if d == 0 { '0' }
    else if d == 1 { '1' }
    else if d == 2 { '2' }
    else if d == 3 { '3' }
    else if d == 4 { '4' }
    else if d == 5 { '5' }
    else if d == 6 { '6' }
    else if d == 7 { '7' }
    else if d == 8 { '8' }
    else if d == 9 { '9' }
    else if d == 10 { 'a' }
    else if d == 11 { 'b' }
    else if d == 12 { 'c' }
    else if d == 13 { 'd' }
    else if d == 14 { 'e' }
    else { 'f' }
}

fn push_hex(n: u64, out: &mut Vec<char>)
    ensures
        final(out)@ == old(out)@ + hex_digits(n as nat),
    decreases n,
{
    if n >= 16 {
        push_hex(n / 16, out);
    }
    let c = hex_digit(n % 16);
    out.push(c);
    proof {
        if n >= 16 {
            assert(old(out)@ + hex_digits((n / 16) as nat) + seq![c] =~= old(out)@ + hex_digits(n as nat));
        } else {
            assert(old(out)@ + seq![c] =~= old(out)@ + hex_digits(n as nat));
        }
    }
}

/// The access-log line of one access.
pub fn access_line_text(b: &AccessBundle) -> (r: String)
    ensures
        r@ == access_line(*b),
{
    let mut out: Vec<char> = Vec::new();
    match b.access_type {
        AccessType::Read => {
            out.push('L');
            out.push('D');
        },
        AccessType::Write => {
            out.push('S');
            out.push('T');
        },
    }
    out.push(' ');
    out.push('0');
    out.push('x');
    let ghost prefix = out@;
    let mut hex: Vec<char> = Vec::new();
    push_hex(b.addr, &mut hex);
    assert(hex@ =~= hex_digits(b.addr as nat));
    let mut k: usize = hex.len();
    while k < 8
        invariant
            hex@.len() <= k,
            k <= 8 || k == hex@.len(),
            out@ == prefix + Seq::new((k - hex@.len()) as nat, |i: int| '0'),
        decreases 8 - k,
    {
        let ghost o0 = out@;
        out.push('0');
        k = k + 1;
        assert(out@ =~= prefix + Seq::new((k - hex@.len()) as nat, |i: int| '0'));
    }
    let ghost zeros = out@;
    let mut j: usize = 0;
    while j < hex.len()
        invariant
            j <= hex@.len(),
            out@ == zeros + hex@.take(j as int),
        decreases hex.len() - j,
    {
        out.push(hex[j]);
        j = j + 1;
        assert(out@ =~= zeros + hex@.take(j as int));
    }
    proof {
        assert(hex@.take(hex@.len() as int) =~= hex@);
        let pad: Seq<char> = if hex@.len() < 8 { Seq::new((8 - hex@.len()) as nat, |i: int| '0') } else { seq![] };
        assert(zeros =~= prefix + pad);
        assert(out@ =~= access_line(*b));
    }
    string_from_chars(&out)
}

/// The access log: one line per access, in the order given (the order of
/// the log's times).
pub fn access_log_lines(bundles: &Vec<AccessBundle>) -> (r: Vec<String>)
    ensures
        r@.len() == bundles@.len(),
        forall|i: int| 0 <= i < r@.len() ==> (#[trigger] r@[i])@ == access_line(bundles@[i]),
{
    let mut out: Vec<String> = Vec::new();
    let mut i: usize = 0;
    while i < bundles.len()
        invariant
            i <= bundles@.len(),
            out@.len() == i,
            forall|k: int| 0 <= k < i ==> (#[trigger] out@[k])@ == access_line(bundles@[k]),
        decreases bundles.len() - i,
    {
        let line = access_line_text(&bundles[i]);
        out.push(line);
        i = i + 1;
    }
    out
}

} // verus!
