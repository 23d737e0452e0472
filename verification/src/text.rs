//! Integers in decimal notation, and text and integers as bytes.

use vstd::prelude::*;
use vstd::string::*;

verus! {

/// The digit for `d`.
pub open spec fn digit(d: nat) -> char {
    (48 + d) as char
}

/// `n` in decimal notation, without leading zeros.
pub open spec fn digits(n: nat) -> Seq<char>
    decreases n,
{
    if n < 10 {
        seq![digit(n)]
    } else {
        digits(n / 10).push(digit(n % 10))
    }
}

/// The last `width` digits of `n`.
pub open spec fn last_digits(n: nat, width: nat) -> Seq<char>
    decreases width,
{
    if width == 0 {
        Seq::empty()
    } else {
        last_digits(n / 10, (width - 1) as nat).push(digit(n % 10))
    }
}

/// An integer in decimal notation.
pub open spec fn signed_digits(n: int) -> Seq<char> {
    if n < 0 {
        seq!['-'] + digits((-n) as nat)
    } else {
        digits(n as nat)
    }
}

fn digit_text(d: u64) -> (r: &'static str)
    requires
        d < 10,
    ensures
        r@ == seq![digit(d as nat)],
{
    proof {
        reveal_strlit("0");
        reveal_strlit("1");
        reveal_strlit("2");
        reveal_strlit("3");
        reveal_strlit("4");
        reveal_strlit("5");
        reveal_strlit("6");
        reveal_strlit("7");
        reveal_strlit("8");
        reveal_strlit("9");
    }
    let r: &'static str = match d {
        0 => "0",
        1 => "1",
        2 => "2",
        3 => "3",
        4 => "4",
        5 => "5",
        6 => "6",
        7 => "7",
        8 => "8",
        _ => "9",
    };
    assert(r@ =~= seq![digit(d as nat)]);
    r
}

/// `n` in decimal notation.
pub fn decimal(n: u64) -> (r: String)
    ensures
        r@ == digits(n as nat),
    decreases n,
{
    if n < 10 {
        digit_text(n).to_owned()
    } else {
        let mut s: String = decimal(n / 10);
        s.append(digit_text(n % 10));
        assert(s@ =~= digits(n as nat));
        s
    }
}

/// The last `width` digits of `n`, padded with zeros.
pub fn decimal_padded(n: u64, width: u64) -> (r: String)
    ensures
        r@ == last_digits(n as nat, width as nat),
    decreases width,
{
    if width == 0 {
        String::new()
    } else {
        let mut s: String = decimal_padded(n / 10, width - 1);
        s.append(digit_text(n % 10));
        assert(s@ =~= last_digits(n as nat, width as nat));
        s
    }
}

/// `n` in decimal notation.
pub fn decimal_signed(n: i64) -> (r: String)
    ensures
        r@ == signed_digits(n as int),
{
    if n < 0 {
        proof {
            reveal_strlit("-");
        }
        let mut s: String = "-".to_owned();
        let m: u64 = (-(n as i128)) as u64;
        s.append(decimal(m).as_str());
        assert(s@ =~= signed_digits(n as int));
        s
    } else {
        decimal(n as u64)
    }
}

/// The lowest `width` bytes of `n`, the least significant first.
pub open spec fn le_bytes(n: nat, width: nat) -> Seq<u8>
    decreases width,
{
    if width == 0 {
        Seq::empty()
    } else {
        seq![(n % 256) as u8] + le_bytes(n / 256, (width - 1) as nat)
    }
}

/// Appends the lowest `width` bytes of `n`, the least significant first.
pub fn put_le(out: &mut Vec<u8>, n: u128, width: usize)
    ensures
        final(out)@ == old(out)@ + le_bytes(n as nat, width as nat),
{
    let ghost start = out@;
    let mut rest: u128 = n;
    let mut k: usize = 0;
    while k < width
        invariant
            k <= width,
            start == old(out)@,
            start + le_bytes(n as nat, width as nat) == out@ + le_bytes(
                rest as nat,
                (width - k) as nat,
            ),
        decreases width - k,
    {
        let ghost before = out@;
        out.push((rest % 256) as u8);
        assert(out@ + le_bytes((rest / 256) as nat, (width - k - 1) as nat) =~= before + le_bytes(
            rest as nat,
            (width - k) as nat,
        ));
        rest = rest / 256;
        k = k + 1;
    }
    assert(out@ =~= start + le_bytes(n as nat, width as nat));
}

/// Little-endian bytes have the length asked for.
pub proof fn lemma_le_bytes_len(n: nat, width: nat)
    ensures
        le_bytes(n, width).len() == width,
    decreases width,
{
    if width > 0 {
        lemma_le_bytes_len(n / 256, (width - 1) as nat);
    }
}

/// A sequence filled up with `fill` to a multiple of four.
pub open spec fn padded(b: Seq<u8>, fill: u8) -> Seq<u8> {
    b + Seq::new(((4 - b.len() % 4) % 4) as nat, |i: int| fill)
}

/// Fills up with `fill` to a multiple of four.
pub fn pad(b: &mut Vec<u8>, fill: u8)
    ensures
        final(b)@ == padded(old(b)@, fill),
        final(b).len() % 4 == 0,
{
    let ghost start = b@;
    while b.len() % 4 != 0
        invariant
            start == old(b)@,
            start.len() <= b.len(),
            b.len() - start.len() <= (4 - start.len() % 4) % 4,
            b@ == start + Seq::new((b.len() - start.len()) as nat, |i: int| fill),
        decreases 4 - (b.len() - start.len()),
    {
        let ghost before = b@;
        b.push(fill);
        assert(b@ =~= start + Seq::new((b.len() - start.len()) as nat, |i: int| fill));
    }
    assert(b@ =~= padded(start, fill));
}

/// The number that bytes stand for, the least significant first.
#[verifier::opaque]
pub open spec fn le_number(b: Seq<u8>) -> nat
    decreases b.len(),
{
    if b.len() == 0 {
        0
    } else {
        b[0] as nat + 256 * le_number(b.skip(1))
    }
}

/// `256` to the power `k`.
pub open spec fn byte_limit(k: nat) -> nat
    decreases k,
{
    if k == 0 {
        1
    } else {
        256 * byte_limit((k - 1) as nat)
    }
}

/// A number that fits comes back from its little-endian bytes.
pub proof fn law_le_round_trip(n: nat, width: nat)
    requires
        n < byte_limit(width),
    ensures
        le_number(le_bytes(n, width)) == n,
    decreases width,
{
    reveal(le_number);
    if width > 0 {
        law_le_round_trip(n / 256, (width - 1) as nat);
        let b = le_bytes(n, width);
        lemma_le_bytes_len(n, width);
        assert(b.skip(1) =~= le_bytes(n / 256, (width - 1) as nat));
        assert(b[0] == (n % 256) as u8);
    }
}

/// Appends the bytes of a text in UTF-8.
pub fn put_text(out: &mut Vec<u8>, s: &str)
    ensures
        final(out)@ == old(out)@ + s.spec_bytes(),
{
    put_bytes(out, s.as_bytes());
}

/// Appends bytes.
pub fn put_bytes(out: &mut Vec<u8>, b: &[u8])
    ensures
        final(out)@ == old(out)@ + b@,
{
    let ghost start = out@;
    let mut k: usize = 0;
    while k < b.len()
        invariant
            k <= b.len(),
            start == old(out)@,
            out@ == start + b@.take(k as int),
        decreases b.len() - k,
    {
        out.push(b[k]);
        assert(out@ =~= start + b@.take(k + 1));
        k = k + 1;
    }
    assert(b@.take(k as int) =~= b@);
}

} // verus!
