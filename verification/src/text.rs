//! Building strings: one character at a time, and from literals.

use vstd::prelude::*;
use crate::arith::{abs, fits_i64};

verus! {

/// Appends one character. Trusted: calls `String::push`, whose documentation
/// says it appends the given char to the end of the string; the contract
/// claims exactly that of the string's characters.
#[verifier::external_body]
pub(crate) fn push_char(s: &mut String, c: char)
    ensures
        final(s)@ == old(s)@.push(c),
{
    s.push(c)
}

/// The bytes of an ASCII character sequence.
pub open spec fn ascii_bytes(cs: Seq<char>) -> Seq<u8> {
    cs.map_values(|c: char| c as u8)
}

/// For ASCII text, the UTF-8 bytes are the characters' codes.
pub proof fn lemma_ascii_encode(cs: Seq<char>)
    requires
        vstd::utf8::is_ascii_chars(cs),
    ensures
        vstd::utf8::encode_utf8(cs) == ascii_bytes(cs),
{
    vstd::utf8::is_ascii_chars_encode_utf8(cs);
    assert(vstd::utf8::encode_utf8(cs) =~= ascii_bytes(cs));
}


/// The decimal digit char of `d`.
pub open spec fn digit_char(d: int) -> char {
    (48 + d) as char
}

/// `n` in decimal, most significant digit first, without leading zeros
/// (`"0"` for zero).
pub open spec fn decimal_digits(n: nat) -> Seq<char>
    decreases n,
{
    if n < 10 {
        seq![digit_char(n as int)]
    } else {
        decimal_digits(n / 10).push(digit_char((n % 10) as int))
    }
}

/// `k` zeros, none for `k <= 0`.
pub open spec fn zero_fill(k: int) -> Seq<char> {
    Seq::new(if k > 0 { k as nat } else { 0 }, |i: int| '0')
}

/// `x` as `format!("{:0w$}", x)` writes it: the sign, then zeros up to the
/// width `w` (which counts the sign), then the digits.
pub open spec fn padded_decimal(x: int, width: nat) -> Seq<char> {
    let sign = if x < 0 {
        seq!['-']
    } else {
        Seq::<char>::empty()
    };
    let ds = decimal_digits(abs(x) as nat);
    sign + zero_fill(width - sign.len() - ds.len()) + ds
}

/// `x` as `format!("{}", x)` writes it.
pub open spec fn decimal(x: int) -> Seq<char> {
    padded_decimal(x, 0)
}

/// Appends `x` in decimal, zero-padded to `width` characters after the sign.
pub fn push_padded(s: &mut String, x: i64, width: usize)
    ensures
        final(s)@ == old(s)@ + padded_decimal(x as int, width as nat),
{
    let neg = x < 0;
    let m0: u64 = if neg {
        (0i128 - x as i128) as u64
    } else {
        x as u64
    };
    assert(m0 as int == abs(x as int));
    let mut mag = m0;
    let mut rev: Vec<char> = Vec::new();
    proof {
        lemma_decimal_len(m0 as nat, 20);
    }
    while mag >= 10
        invariant
            decimal_digits(m0 as nat) == decimal_digits(mag as nat) + rev@.reverse(),
            decimal_digits(m0 as nat).len() <= 20,
        decreases mag,
    {
        let ghost before = rev@;
        rev.push(((48 + mag % 10) as u8) as char);
        proof {
            assert(rev@.reverse() =~= seq![digit_char((mag % 10) as int)] + before.reverse());
            assert(decimal_digits(mag as nat) + before.reverse() =~= decimal_digits(
                (mag / 10) as nat,
            ) + rev@.reverse());
        }
        mag = mag / 10;
    }
    rev.push(((48 + mag) as u8) as char);
    let ghost ds = rev@.reverse();
    assert(rev@.len() <= 20);
    assert(ds =~= decimal_digits(m0 as nat));
    let ghost start = old(s)@;
    let ghost sign = if neg {
        seq!['-']
    } else {
        Seq::<char>::empty()
    };
    if neg {
        push_char(s, '-');
    }
    assert(s@ =~= start + sign);
    let used: usize = if neg {
        rev.len() + 1
    } else {
        rev.len()
    };
    let mut k: usize = used;
    while k < width
        invariant
            used <= k,
            k == used || k <= width,
            used == sign.len() + ds.len(),
            s@ == start + sign + zero_fill(k - used),
        decreases width - k,
    {
        push_char(s, '0');
        k = k + 1;
        assert(s@ =~= start + sign + zero_fill(k - used));
    }
    assert(zero_fill(k - used) =~= zero_fill(width - sign.len() - ds.len()));
    let ghost mid = s@;
    let mut i: usize = rev.len();
    while i > 0
        invariant
            i <= rev@.len(),
            ds == rev@.reverse(),
            s@ == mid + ds.take(rev@.len() - i),
        decreases i,
    {
        i = i - 1;
        push_char(s, rev[i]);
        assert(s@ =~= mid + ds.take(rev@.len() - i));
    }
    assert(ds.take(rev@.len() as int) =~= ds);
    assert(s@ =~= start + padded_decimal(x as int, width as nat));
}

/// `10^k`.
pub open spec fn pow10(k: nat) -> int
    decreases k,
{
    if k == 0 {
        1
    } else {
        pow10((k - 1) as nat) * 10
    }
}

proof fn lemma_decimal_len(n: nat, k: nat)
    requires
        k >= 1,
        n < pow10(k) || (k == 20 && n <= u64::MAX),
    ensures
        decimal_digits(n).len() <= k,
    decreases k,
{
    reveal_with_fuel(pow10, 2);
    if k == 20 {
        reveal_with_fuel(pow10, 21);
        assert(pow10(20) == 100000000000000000000);
    }
    if n >= 10 {
        assert(k >= 2) by {
            if k == 1 {
                assert(pow10(1) == 10);
            }
        }
        lemma_decimal_len(n / 10, (k - 1) as nat);
    }
}

/// Whether a byte is an ASCII decimal digit.
pub open spec fn is_digit_byte(b: u8) -> bool {
    48 <= b <= 57
}

/// The number that a sequence of decimal digit bytes denotes.
pub open spec fn decimal_value(b: Seq<u8>) -> int
    decreases b.len(),
{
    if b.len() == 0 {
        0
    } else {
        decimal_value(b.drop_last()) * 10 + (b.last() - 48)
    }
}

/// The bytes after a leading `+` or `-`, if there is one.
pub open spec fn unsigned_part(b: Seq<u8>) -> Seq<u8> {
    if b.len() > 0 && (b[0] == 45 || b[0] == 43) {
        b.drop_first()
    } else {
        b
    }
}

/// `i64::from_str` on the bytes: an optional `+` or `-`, then one or more
/// decimal digits, denoting a value of `i64`; anything else is refused.
pub open spec fn parse_i64_spec(b: Seq<u8>) -> Option<i64> {
    let neg = b.len() > 0 && b[0] == 45;
    let ds = unsigned_part(b);
    let v = if neg {
        -decimal_value(ds)
    } else {
        decimal_value(ds)
    };
    if ds.len() > 0 && (forall|i: int| 0 <= i < ds.len() ==> is_digit_byte(#[trigger] ds[i]))
        && fits_i64(v) {
        Some(v as i64)
    } else {
        None
    }
}

proof fn lemma_decimal_value_mono(b: Seq<u8>, i: nat, j: nat)
    requires
        i <= j <= b.len(),
        forall|m: int| 0 <= m < j ==> is_digit_byte(#[trigger] b[m]),
    ensures
        0 <= decimal_value(b.take(i as int)) <= decimal_value(b.take(j as int)),
    decreases j,
{
    if j > 0 {
        let jm = (j - 1) as nat;
        assert(b.take(j as int).drop_last() =~= b.take(jm as int));
        if i < j {
            lemma_decimal_value_mono(b, i, jm);
        } else {
            lemma_decimal_value_mono(b, jm, jm);
        }
    } else {
        assert(b.take(0).len() == 0);
    }
}

/// Reads an `i64` as `str::parse::<i64>` does.
pub fn parse_i64(b: &[u8]) -> (r: Option<i64>)
    ensures
        r == parse_i64_spec(b@),
{
    let len = b.len();
    if len == 0 {
        return None;
    }
    let neg = b[0] == 45;
    let start: usize = if b[0] == 45 || b[0] == 43 {
        1
    } else {
        0
    };
    let ghost ds = b@.subrange(start as int, len as int);
    assert(ds =~= unsigned_part(b@));
    if start == len {
        return None;
    }
    let mut acc: u64 = 0;
    let mut i: usize = start;
    let limit: u64 = 0x8000_0000_0000_0000;
    while i < len
        invariant
            start <= i <= len,
            len == b@.len(),
            ds == b@.subrange(start as int, len as int),
            ds == unsigned_part(b@),
            neg == (b@.len() > 0 && b@[0] == 45),
            forall|m: int| 0 <= m < i - start ==> is_digit_byte(#[trigger] ds[m]),
            acc as int == decimal_value(ds.take(i - start)),
            acc <= limit,
            limit == 0x8000_0000_0000_0000u64,
        decreases len - i,
    {
        let c = b[i];
        if !(48 <= c && c <= 57) {
            assert(!is_digit_byte(ds[i - start]));
            return None;
        }
        let d = (c - 48) as u64;
        assert(ds.take(i - start + 1).drop_last() =~= ds.take(i - start));
        if acc > (limit - d) / 10 {
            proof {
                if forall|m: int| 0 <= m < ds.len() ==> is_digit_byte(#[trigger] ds[m]) {
                    lemma_decimal_value_mono(ds, (i - start + 1) as nat, ds.len());
                    assert(ds.take(ds.len() as int) =~= ds);
                }
            }
            return None;
        }
        acc = acc * 10 + d;
        i = i + 1;
    }
    assert(ds.take(len - start) =~= ds);
    if neg {
        if acc == limit {
            Some(i64::MIN)
        } else {
            Some(-(acc as i64))
        }
    } else {
        if acc > 0x7fff_ffff_ffff_ffffu64 {
            None
        } else {
            Some(acc as i64)
        }
    }
}

/// The decimal digits of `n` are ASCII digit bytes that denote `n`.
pub proof fn lemma_decimal_digits_bytes(n: nat)
    ensures
        decimal_digits(n).len() >= 1,
        vstd::utf8::is_ascii_chars(decimal_digits(n)),
        forall|i: int|
            0 <= i < decimal_digits(n).len() ==> is_digit_byte(
                #[trigger] ascii_bytes(decimal_digits(n))[i],
            ),
        decimal_value(ascii_bytes(decimal_digits(n))) == n,
    decreases n,
{
    let ds = decimal_digits(n);
    let b = ascii_bytes(ds);
    if n < 10 {
        assert(b.drop_last() =~= Seq::<u8>::empty());
        assert(decimal_value(b.drop_last()) == 0);
    } else {
        lemma_decimal_digits_bytes(n / 10);
        let pb = ascii_bytes(decimal_digits(n / 10));
        assert(b.drop_last() =~= pb);
        assert(b.last() == (48 + n % 10) as u8);
        assert forall|i: int| 0 <= i < ds.len() implies is_digit_byte(#[trigger] b[i]) by {
            if i < pb.len() {
                assert(b[i] == pb[i]);
            }
        }
    }
}

/// The decimal text of any `i64` is ASCII without a dot, and `parse_i64`
/// reads it back: `parse(format(g)) = g`.
pub proof fn lemma_parse_decimal(g: i64)
    ensures
        vstd::utf8::is_ascii_chars(decimal(g as int)),
        forall|i: int| 0 <= i < decimal(g as int).len() ==> #[trigger] decimal(g as int)[i] != '.',
        parse_i64_spec(ascii_bytes(decimal(g as int))) == Some(g),
{
    let n = abs(g as int) as nat;
    let ds = decimal_digits(n);
    lemma_decimal_digits_bytes(n);
    let d = decimal(g as int);
    let b = ascii_bytes(d);
    let db = ascii_bytes(ds);
    assert(zero_fill(0 - (if g < 0 { 1int } else { 0int }) - ds.len()) =~= Seq::<char>::empty());
    assert forall|i: int| 0 <= i < ds.len() implies #[trigger] ds[i] != '.' by {
        assert(is_digit_byte(db[i]));
    }
    if g < 0 {
        assert(d =~= seq!['-'] + ds);
        assert(unsigned_part(b) =~= db);
        assert forall|i: int| 0 <= i < d.len() implies #[trigger] d[i] != '.' by {
            if i > 0 {
                assert(d[i] == ds[i - 1]);
            }
        }
    } else {
        assert(d =~= ds);
        assert(is_digit_byte(db[0]));
        assert(unsigned_part(b) =~= db);
    }
}
/// Leading zeros do not change the value of a digit string.
proof fn lemma_decimal_value_zeros(z: Seq<u8>, b: Seq<u8>)
    requires
        forall|i: int| 0 <= i < z.len() ==> #[trigger] z[i] == 48,
    ensures
        decimal_value(z + b) == decimal_value(b),
    decreases z.len() + b.len(),
{
    if b.len() == 0 {
        assert(z + b =~= z);
        if z.len() > 0 {
            assert(z.drop_last() + b =~= z.drop_last());
            lemma_decimal_value_zeros(z.drop_last(), b);
        }
    } else {
        assert((z + b).drop_last() =~= z + b.drop_last());
        lemma_decimal_value_zeros(z, b.drop_last());
    }
}

/// A number below `10^w` written zero-padded to width `w`: exactly `w`
/// decimal digit characters, which denote the number.
pub proof fn lemma_padded_digits(x: int, w: nat)
    requires
        w >= 1,
        0 <= x < pow10(w),
    ensures
        padded_decimal(x, w).len() == w,
        forall|i: int| 0 <= i < w ==> is_digit_byte(#[trigger] ascii_bytes(padded_decimal(x, w))[i]),
        decimal_value(ascii_bytes(padded_decimal(x, w))) == x,
{
    let ds = decimal_digits(x as nat);
    lemma_decimal_len(x as nat, w);
    lemma_decimal_digits_bytes(x as nat);
    let z = zero_fill(w - ds.len());
    let p = padded_decimal(x, w);
    assert(p =~= z + ds);
    let zb = ascii_bytes(z);
    let db = ascii_bytes(ds);
    assert(ascii_bytes(p) =~= zb + db);
    assert forall|i: int| 0 <= i < zb.len() implies #[trigger] zb[i] == 48 by {
        assert(z[i] == '0');
    }
    lemma_decimal_value_zeros(zb, db);
    assert forall|i: int| 0 <= i < w implies is_digit_byte(#[trigger] ascii_bytes(p)[i]) by {
        if i < zb.len() {
            assert(ascii_bytes(p)[i] == zb[i]);
        } else {
            assert(ascii_bytes(p)[i] == db[i - zb.len()]);
        }
    }
}
} // verus!
