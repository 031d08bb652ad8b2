//! Small text builders for player-facing labels: decimal numbers, zero
//! padding, and the final conversion of a character buffer into a `String`.

use vstd::prelude::*;

verus! {

/// The ASCII digit for `d` (`0..10`).
pub open spec fn digit_char(d: int) -> char {
    if d == 0 {
        '0'
    } else if d == 1 {
        '1'
    } else if d == 2 {
        '2'
    } else if d == 3 {
        '3'
    } else if d == 4 {
        '4'
    } else if d == 5 {
        '5'
    } else if d == 6 {
        '6'
    } else if d == 7 {
        '7'
    } else if d == 8 {
        '8'
    } else {
        '9'
    }
}

/// Decimal representation of `n`, without leading zeros (`"0"` for zero).
pub open spec fn dec(n: nat) -> Seq<char>
    decreases n,
{
    if n < 10 {
        seq![digit_char(n as int)]
    } else {
        dec(n / 10).push(digit_char((n % 10) as int))
    }
}

/// `s` left-padded with `'0'` to at least `width` characters.
pub open spec fn zero_pad(s: Seq<char>, width: nat) -> Seq<char> {
    if s.len() >= width {
        s
    } else {
        Seq::new((width - s.len()) as nat, |i: int| '0') + s
    }
}

/// Decimal representation of `n`, zero-padded to `width`.
pub open spec fn dec_pad(n: nat, width: nat) -> Seq<char> {
    zero_pad(dec(n), width)
}

fn digit(d: u64) -> (r: char)
    requires
        d < 10,
    ensures
        r == digit_char(d as int),
{
    if d == 0 {
        '0'
    } else if d == 1 {
        '1'
    } else if d == 2 {
        '2'
    } else if d == 3 {
        '3'
    } else if d == 4 {
        '4'
    } else if d == 5 {
        '5'
    } else if d == 6 {
        '6'
    } else if d == 7 {
        '7'
    } else if d == 8 {
        '8'
    } else {
        '9'
    }
}

/// The decimal digits of `n`.
pub fn dec_chars(n: u64) -> (r: Vec<char>)
    ensures
        r@ == dec(n as nat),
    decreases n,
{
    if n < 10 {
        let mut v: Vec<char> = Vec::new();
        v.push(digit(n));
        v
    } else {
        let mut v = dec_chars(n / 10);
        v.push(digit(n % 10));
        v
    }
}

/// Append the characters of `s`.
pub fn push_chars(out: &mut Vec<char>, s: &[char])
    ensures
        final(out)@ == old(out)@ + s@,
{
    let mut i: usize = 0;
    while i < s.len()
        invariant
            0 <= i <= s@.len(),
            out@ == old(out)@ + s@.subrange(0, i as int),
        decreases s@.len() - i,
    {
        out.push(s[i]);
        i = i + 1;
        assert(out@ =~= old(out)@ + s@.subrange(0, i as int));
    }
    assert(s@.subrange(0, s@.len() as int) =~= s@);
}

/// Append the decimal digits of `n`.
pub fn push_dec(out: &mut Vec<char>, n: u64)
    ensures
        final(out)@ == old(out)@ + dec(n as nat),
{
    let d = dec_chars(n);
    push_chars(out, d.as_slice());
}

/// Append the decimal digits of `n`, zero-padded to `width`.
pub fn push_dec_pad(out: &mut Vec<char>, n: u64, width: usize)
    ensures
        final(out)@ == old(out)@ + dec_pad(n as nat, width as nat),
{
    let d = dec_chars(n);
    let len = d.len();
    let mut pad: Vec<char> = Vec::new();
    if len < width {
        let mut i: usize = 0;
        while i < width - len
            invariant
                len < width,
                0 <= i <= width - len,
                pad@ == Seq::new(i as nat, |j: int| '0'),
            decreases width - len - i,
        {
            pad.push('0');
            i = i + 1;
            assert(pad@ =~= Seq::new(i as nat, |j: int| '0'));
        }
    }
    push_chars(out, pad.as_slice());
    push_chars(out, d.as_slice());
    proof {
        if len >= width {
            assert(pad@ =~= Seq::<char>::empty());
        }
        assert(old(out)@ + pad@ + d@ =~= old(out)@ + dec_pad(n as nat, width as nat));
    }
}

/// Decimal representation of a signed integer, with `-` before negatives.
pub open spec fn int_dec(n: int) -> Seq<char> {
    if n < 0 {
        seq!['-'] + dec((-n) as nat)
    } else {
        dec(n as nat)
    }
}

/// Append the signed decimal digits of `n`.
pub fn push_int(out: &mut Vec<char>, n: i32)
    ensures
        final(out)@ == old(out)@ + int_dec(n as int),
{
    if n < 0 {
        out.push('-');
        let m: i64 = -(n as i64);
        push_dec(out, m as u64);
        assert(out@ =~= old(out)@ + int_dec(n as int));
    } else {
        push_dec(out, n as u64);
    }
}

/// Collect a character buffer into a `String` (std's `String::from_iter`):
/// the string holds exactly the given characters, in order.
#[verifier::external_body]
pub(crate) fn string_of(chars: Vec<char>) -> (r: String)
    ensures
        r@ == chars@,
{
    String::from_iter(chars)
}

} // verus!
