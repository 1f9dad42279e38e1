use vstd::prelude::*;

use crate::text::push_char;

verus! {

/// The length in bytes of the UTF-8 text of `s`, as `str::len` reports it.
pub open spec fn byte_len(s: Seq<char>) -> nat {
    (vstd::utf8::encode_utf8(s).len() as usize) as nat
}

/// Bytes in a megabyte.
pub open spec fn mebibyte() -> nat {
    1048576
}

/// `n` bytes in thousandths of a megabyte: the exact quotient `n * 1000 / 2^20`
/// rounded to the nearest integer, a tie going to the even neighbour.
pub open spec fn mb_thousandths(n: nat) -> nat {
    let q = (n * 1000) / mebibyte();
    let r = (n * 1000) % mebibyte();
    if r * 2 > mebibyte() || (r * 2 == mebibyte() && q % 2 == 1) {
        q + 1
    } else {
        q
    }
}

/// The character of the decimal digit `d`.
pub open spec fn digit(d: nat) -> char {
    ((48 + d) as u8) as char
}

/// The decimal notation of `k`, without leading zeros.
pub open spec fn decimal(k: nat) -> Seq<char>
    decreases k,
{
    if k < 10 {
        seq![digit(k)]
    } else {
        decimal(k / 10) + seq![digit(k % 10)]
    }
}

/// `n` bytes written in megabytes with three decimals, followed by `MB`.
pub open spec fn mb_size_text(n: nat) -> Seq<char> {
    let t = mb_thousandths(n);
    let f = t % 1000;
    decimal(t / 1000) + seq!['.', digit(f / 100), digit((f / 10) % 10), digit(f % 10), 'M', 'B']
}

/// A decimal digit character, `0` to `9`.
pub open spec fn is_digit(c: char) -> bool {
    48 <= (c as u32) && (c as u32) <= 57
}

proof fn lemma_decimal_digits(k: nat)
    ensures
        decimal(k).len() >= 1,
        forall|i: int| 0 <= i < decimal(k).len() ==> is_digit(#[trigger] decimal(k)[i]),
    decreases k,
{
    if k >= 10 {
        lemma_decimal_digits(k / 10);
    }
}

/// The size text is always digits, a point, three digits and `MB`; the digits
/// read the size in thousandths of a megabyte.
pub proof fn law_mb_size_text_shape(n: nat)
    ensures
        ({
            let t = mb_size_text(n);
            let k = t.len() - 6;
            &&& k >= 1
            &&& forall|i: int| 0 <= i < k ==> is_digit(#[trigger] t[i])
            &&& t[k] == '.'
            &&& is_digit(t[k + 1]) && is_digit(t[k + 2]) && is_digit(t[k + 3])
            &&& t[k + 4] == 'M' && t[k + 5] == 'B'
            &&& t.take(k) == decimal(mb_thousandths(n) / 1000)
        }),
{
    let th = mb_thousandths(n);
    let f = th % 1000;
    lemma_decimal_digits(th / 1000);
    let d = decimal(th / 1000);
    let t = mb_size_text(n);
    assert(t.take(d.len() as int) =~= d);
    assert forall|i: int| 0 <= i < d.len() implies is_digit(#[trigger] t[i]) by {
        assert(t[i] == d[i]);
    }
}

/// A longer text is never reported smaller: the size in thousandths of a
/// megabyte grows with the byte length.
pub proof fn law_mb_size_monotone(a: nat, b: nat)
    requires
        a <= b,
    ensures
        mb_thousandths(a) <= mb_thousandths(b),
{
    let m = mebibyte() as int;
    let x = (a * 1000) as int;
    let y = (b * 1000) as int;
    vstd::arithmetic::div_mod::lemma_div_is_ordered(x, y, m);
    vstd::arithmetic::div_mod::lemma_fundamental_div_mod(x, m);
    vstd::arithmetic::div_mod::lemma_fundamental_div_mod(y, m);
    let qa = x / m;
    let qb = y / m;
    if qa == qb {
        assert(x % m <= y % m) by {
            assert(x % m == x - m * qa);
            assert(y % m == y - m * qb);
        }
    }
}

/// The number that a string of decimal digits reads.
pub open spec fn digits_value(s: Seq<char>) -> nat
    decreases s.len(),
{
    if s.len() == 0 {
        0
    } else {
        digits_value(s.drop_last()) * 10 + ((s.last() as u32) - 48) as nat
    }
}

/// The size that a size text shows, in thousandths of a megabyte: the digits
/// before the point, then the three after it.
pub open spec fn shown_thousandths(t: Seq<char>) -> nat {
    digits_value(t.take(t.len() - 6)) * 1000 + digits_value(t.subrange(t.len() - 5, t.len() - 2))
}

proof fn lemma_digit_value(d: nat)
    requires
        d < 10,
    ensures
        (digit(d) as u32) == 48 + d,
{
}

proof fn lemma_decimal_value(k: nat)
    ensures
        digits_value(decimal(k)) == k,
    decreases k,
{
    lemma_digit_value(k % 10);
    if k >= 10 {
        lemma_decimal_value(k / 10);
        assert(decimal(k).drop_last() =~= decimal(k / 10));
        assert(decimal(k).last() == digit(k % 10));
    } else {
        assert(decimal(k).drop_last() =~= Seq::<char>::empty());
        assert(decimal(k).last() == digit(k));
        assert(digits_value(Seq::<char>::empty()) == 0);
    }
}

/// The number a size text shows is the size in thousandths of a megabyte.
pub proof fn law_mb_size_text_reads_size(n: nat)
    ensures
        shown_thousandths(mb_size_text(n)) == mb_thousandths(n),
{
    let th = mb_thousandths(n);
    let f = th % 1000;
    let d = decimal(th / 1000);
    let t = mb_size_text(n);
    lemma_decimal_value(th / 1000);
    assert(t.take(t.len() - 6) =~= d);
    let frac = t.subrange(t.len() - 5, t.len() - 2);
    assert(frac =~= seq![digit(f / 100), digit((f / 10) % 10), digit(f % 10)]);
    lemma_digit_value(f / 100);
    lemma_digit_value((f / 10) % 10);
    lemma_digit_value(f % 10);
    let f1 = frac.drop_last();
    let f2 = f1.drop_last();
    assert(f2.drop_last() =~= Seq::<char>::empty());
    assert(digits_value(Seq::<char>::empty()) == 0);
    assert(f2.last() == digit(f / 100));
    assert(f1.last() == digit((f / 10) % 10));
    assert(frac.last() == digit(f % 10));
    assert(digits_value(f2) == f / 100);
    assert(digits_value(f1) == (f / 100) * 10 + (f / 10) % 10);
    assert(digits_value(frac) == ((f / 100) * 10 + (f / 10) % 10) * 10 + f % 10);
    assert(((f / 100) * 10 + (f / 10) % 10) * 10 + f % 10 == f) by (nonlinear_arith)
        requires
            f < 1000,
    ;
}

/// Of two texts, the longer is never shown as smaller.
pub proof fn law_mb_size_text_monotone(a: nat, b: nat)
    requires
        a <= b,
    ensures
        shown_thousandths(mb_size_text(a)) <= shown_thousandths(mb_size_text(b)),
{
    law_mb_size_monotone(a, b);
    law_mb_size_text_reads_size(a);
    law_mb_size_text_reads_size(b);
}

fn digit_char(d: u128) -> (c: char)
    requires
        d < 10,
    ensures
        c == digit(d as nat),
{
    let b: u8 = 48 + d as u8;
    b as char
}

fn push_decimal(s: &mut String, k: u128)
    ensures
        final(s)@ == old(s)@ + decimal(k as nat),
    decreases k,
{
    if k >= 10 {
        push_decimal(s, k / 10);
    }
    let ghost mid = s@;
    push_char(s, digit_char(k % 10));
    assert(s@ =~= old(s)@ + decimal(k as nat));
}

/// The size of `s` in megabytes, with three decimals: `12345678` bytes read
/// `11.774MB`.
pub fn str_mb_size(s: &str) -> (res: String)
    ensures
        res@ == mb_size_text(byte_len(s@)),
{
    let n: u128 = s.len() as u128;
    let p: u128 = n * 1000;
    let q: u128 = p / 1048576;
    let r: u128 = p % 1048576;
    let t: u128 = if r * 2 > 1048576 || (r * 2 == 1048576 && q % 2 == 1) {
        q + 1
    } else {
        q
    };
    let f: u128 = t % 1000;
    let mut res = String::new();
    push_decimal(&mut res, t / 1000);
    push_char(&mut res, '.');
    push_char(&mut res, digit_char(f / 100));
    push_char(&mut res, digit_char((f / 10) % 10));
    push_char(&mut res, digit_char(f % 10));
    push_char(&mut res, 'M');
    push_char(&mut res, 'B');
    assert(res@ =~= mb_size_text(byte_len(s@)));
    res
}

} // verus!
