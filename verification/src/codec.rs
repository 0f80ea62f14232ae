//! The encoding layer: a vector of `Z_24` values as one base-24 number
//! (`Enc`), its 24 digits back (`decode`), and the number spelled in base 62
//! with the alphabet `0-9A-Za-z`.

use vstd::prelude::*;
use crate::feistel::{all_in, ints, N_VALUES};
use crate::text::{ascii_bytes, lemma_ascii_encode, push_char};
use vstd::string::*;

verus! {

/// `24^n`.
pub open spec fn pow24(n: nat) -> int
    decreases n,
{
    if n == 0 {
        1
    } else {
        pow24((n - 1) as nat) * 24
    }
}

/// `Enc(c) = sum c_i * 24^i`: the digits read as a base-24 number, least
/// significant first.
pub open spec fn base24_value(c: Seq<int>) -> int
    decreases c.len(),
{
    if c.len() == 0 {
        0
    } else {
        c[0] + 24 * base24_value(c.drop_first())
    }
}

/// The 24 base-24 digits of `n`, least significant first.
pub open spec fn base24_digits(n: int) -> Seq<int> {
    Seq::new(N_VALUES as nat, |i: int| (n / pow24(i as nat)) % 24)
}

/// Powers of 24 are positive and grow with the exponent.
pub proof fn lemma_pow24_mono(i: nat, j: nat)
    requires
        i <= j,
    ensures
        1 <= pow24(i) <= pow24(j),
    decreases j,
{
    if i < j {
        lemma_pow24_mono(i, (j - 1) as nat);
    } else if i > 0 {
        lemma_pow24_mono((i - 1) as nat, (i - 1) as nat);
    }
}

pub proof fn lemma_pow24_27()
    ensures
        pow24(27) == 18437563379178327736384102280592359424,
{
    reveal_with_fuel(pow24, 28);
}

/// The values as `as u128` reads them: negative values wrap modulo `2^128`.
pub open spec fn unsigned_digits(s: Seq<i64>) -> Seq<int> {
    s.map_values(|x: i64| (x as u128) as int)
}

/// Nonnegative digits read as `u128` are themselves.
pub proof fn lemma_unsigned_digits_nonneg(s: Seq<i64>)
    requires
        all_in(ints(s), 0, 24),
    ensures
        unsigned_digits(s) == ints(s),
{
    assert forall|i: int| 0 <= i < s.len() implies #[trigger] unsigned_digits(s)[i] == ints(s)[i] by {
        assert(0 <= ints(s)[i] < 24);
    }
    assert(unsigned_digits(s) =~= ints(s));
}

/// `Enc`: the values (each read as `u128`) as one base-24 number. It computes
/// without overflow exactly when there are at most 27 values (so that
/// `24^len` fits) and the number fits in `u128`.
pub fn encode(vector: &[i64]) -> (fp: u128)
    requires
        vector@.len() <= 27,
        base24_value(unsigned_digits(vector@)) <= u128::MAX,
    ensures
        fp == base24_value(unsigned_digits(vector@)),
{
    let ghost c = unsigned_digits(vector@);
    let mut fp: u128 = 0;
    let mut place: u128 = 1;
    let mut i: usize = 0;
    proof {
        assert(c.skip(0) =~= c);
        lemma_pow24_27();
        lemma_base24_value_nonneg(c);
    }
    while i < vector.len()
        invariant
            c == unsigned_digits(vector@),
            c.len() <= 27,
            i <= c.len(),
            place == pow24(i as nat),
            fp + place * base24_value(c.skip(i as int)) == base24_value(c),
            base24_value(c) <= u128::MAX,
            pow24(27) == 18437563379178327736384102280592359424,
        decreases c.len() - i,
    {
        let v = vector[i];
        proof {
            lemma_pow24_mono((i + 1) as nat, 27);
            assert(c.skip(i as int).drop_first() =~= c.skip(i + 1));
            let rest = base24_value(c.skip(i + 1));
            lemma_base24_value_nonneg(c.skip(i + 1));
            let u = c[i as int];
            assert(u == (v as u128) as int);
            assert(base24_value(c.skip(i as int)) == u + 24 * rest);
            assert(place * (u + 24 * rest) == place * u + (place * 24) * rest) by (nonlinear_arith);
            assert((place * 24) * rest >= 0) by (nonlinear_arith)
                requires
                    place >= 1,
                    rest >= 0,
            ;
            assert(u * place >= 0) by (nonlinear_arith)
                requires
                    place >= 1,
                    u >= 0,
            ;
            assert(pow24((i + 1) as nat) == place * 24);
        }
        fp = fp + (v as u128) * place;
        place = place * 24;
        i = i + 1;
    }
    proof {
        assert(c.skip(i as int).len() == 0);
    }
    fp
}

proof fn lemma_base24_value_nonneg(c: Seq<int>)
    requires
        forall|i: int| 0 <= i < c.len() ==> #[trigger] c[i] >= 0,
    ensures
        base24_value(c) >= 0,
    decreases c.len(),
{
    if c.len() > 0 {
        lemma_base24_value_nonneg(c.drop_first());
    }
}

/// The 24 base-24 digits of `fp`, least significant first; digits of weight
/// `24^24` and above are dropped.
pub fn decode(fp: u128) -> (v: [i64; 24])
    ensures
        ints(v@) == base24_digits(fp as int),
        all_in(ints(v@), 0, 24),
{
    let mut v = [0i64; 24];
    let mut cur = fp;
    let mut i: usize = 0;
    while i < N_VALUES
        invariant
            i <= N_VALUES,
            cur as int == fp as int / pow24(i as nat),
            forall|m: int| 0 <= m < i ==> #[trigger] v[m] as int == (fp as int / pow24(m as nat)) % 24,
        decreases N_VALUES - i,
    {
        v[i] = (cur % 24) as i64;
        proof {
            lemma_pow24_mono(i as nat, i as nat);
            vstd::arithmetic::div_mod::lemma_div_denominator(fp as int, pow24(i as nat), 24);
        }
        cur = cur / 24;
        i = i + 1;
    }
    assert(ints(v@) =~= base24_digits(fp as int));
    v
}

pub proof fn lemma_base24_value_bounds(c: Seq<int>)
    requires
        all_in(c, 0, 24),
    ensures
        0 <= base24_value(c) < pow24(c.len()),
    decreases c.len(),
{
    if c.len() > 0 {
        let rest = c.drop_first();
        lemma_base24_value_bounds(rest);
        assert(pow24(c.len()) == pow24(rest.len()) * 24);
    }
}

proof fn lemma_base24_shift(c: Seq<int>, i: nat)
    requires
        all_in(c, 0, 24),
        i <= c.len(),
    ensures
        base24_value(c) / pow24(i) == base24_value(c.skip(i as int)),
    decreases i,
{
    if i > 0 {
        let j = (i - 1) as nat;
        lemma_base24_shift(c, j);
        lemma_pow24_mono(j, j);
        lemma_base24_value_bounds(c);
        let tail = c.skip(j as int);
        assert(tail.drop_first() =~= c.skip(i as int));
        lemma_base24_value_bounds(c.skip(i as int));
        assert(0 <= tail[0] < 24);
        vstd::arithmetic::div_mod::lemma_div_denominator(base24_value(c), pow24(j), 24);
        vstd::arithmetic::div_mod::lemma_fundamental_div_mod_converse(
            base24_value(tail),
            24,
            base24_value(c.skip(i as int)),
            tail[0],
        );
        assert(pow24(i) == pow24(j) * 24);
    } else {
        assert(c.skip(0) =~= c);
    }
}

/// `decode` undoes `Enc` on 24 digits in `0..24`.
pub proof fn lemma_decode_encode(c: Seq<int>)
    requires
        c.len() == N_VALUES,
        all_in(c, 0, 24),
    ensures
        base24_digits(base24_value(c)) == c,
{
    assert forall|i: int| 0 <= i < N_VALUES implies #[trigger] base24_digits(base24_value(c))[i]
        == c[i] by {
        lemma_base24_shift(c, i as nat);
        let tail = c.skip(i);
        lemma_base24_value_bounds(tail.drop_first());
        assert(0 <= tail[0] < 24);
        vstd::arithmetic::div_mod::lemma_fundamental_div_mod_converse(
            base24_value(tail),
            24,
            base24_value(tail.drop_first()),
            tail[0],
        );
    }
    assert(base24_digits(base24_value(c)) =~= c);
}


proof fn lemma_digits_suffix(n: int, k: nat)
    requires
        0 <= n < pow24(24),
        k <= 24,
    ensures
        base24_value(base24_digits(n).skip(k as int)) == n / pow24(k),
    decreases 24 - k,
{
    let d = base24_digits(n);
    lemma_pow24_mono(k, k);
    if k == 24 {
        assert(d.skip(24).len() == 0);
        vstd::arithmetic::div_mod::lemma_basic_div(n, pow24(24));
    } else {
        lemma_digits_suffix(n, k + 1);
        assert(d.skip(k as int).drop_first() =~= d.skip((k + 1) as int));
        assert(d.skip(k as int)[0] == (n / pow24(k)) % 24);
        vstd::arithmetic::div_mod::lemma_div_denominator(n, pow24(k), 24);
        assert(pow24(k + 1) == pow24(k) * 24);
        vstd::arithmetic::div_mod::lemma_fundamental_div_mod(n / pow24(k), 24);
    }
}

/// `Enc` is onto `0..24^24`: the 24 base-24 digits of such a number denote it,
/// so `Enc` is a bijection between `Z_24^24` and `0..24^24`.
pub proof fn lemma_encode_decode(n: int)
    requires
        0 <= n < pow24(24),
    ensures
        base24_value(base24_digits(n)) == n,
        all_in(base24_digits(n), 0, 24),
{
    lemma_digits_suffix(n, 0);
    assert(base24_digits(n).skip(0) =~= base24_digits(n));
    assert forall|i: int| 0 <= i < 24 implies 0 <= #[trigger] base24_digits(n)[i] < 24 by {
        lemma_pow24_mono(i as nat, i as nat);
    }
}

/// The base-62 digit of value `d`: `0-9`, then `A-Z`, then `a-z`.
pub open spec fn b62_char(d: int) -> char {
    if d < 10 {
        (48 + d) as char
    } else if d < 36 {
        (55 + d) as char
    } else {
        (61 + d) as char
    }
}

/// The value of a base-62 digit byte, or -1 for a byte outside the alphabet.
pub open spec fn b62_value(b: u8) -> int {
    if 48 <= b <= 57 {
        b - 48
    } else if 65 <= b <= 90 {
        b - 55
    } else if 97 <= b <= 122 {
        b - 61
    } else {
        -1
    }
}

/// `n` written in base 62, most significant digit first, without leading
/// zeros (`"0"` for zero).
pub open spec fn b62_string(n: nat) -> Seq<char>
    decreases n,
{
    if n < 62 {
        seq![b62_char(n as int)]
    } else {
        b62_string(n / 62).push(b62_char((n % 62) as int))
    }
}

/// The number that a sequence of base-62 digit bytes denotes, most
/// significant first.
pub open spec fn base62_value(b: Seq<u8>) -> int
    decreases b.len(),
{
    if b.len() == 0 {
        0
    } else {
        base62_value(b.drop_last()) * 62 + b62_value(b.last())
    }
}

/// How many bytes at the start of `b` are base-62 digits.
pub open spec fn b62_scan(b: Seq<u8>) -> nat
    decreases b.len(),
{
    if b.len() == 0 {
        0
    } else if b62_value(b[0]) < 0 {
        0
    } else {
        1 + b62_scan(b.drop_first())
    }
}

/// The error text for a byte outside the base-62 alphabet, shown as the char
/// of that byte's value.
pub open spec fn invalid_b62_message(c: char) -> Seq<char> {
    "ungueltiges base62-Zeichen: "@.push(c)
}

/// The bytes before `b62_scan(b)` are digits, and the byte there, if any, is not.
pub proof fn lemma_b62_scan(b: Seq<u8>)
    ensures
        b62_scan(b) <= b.len(),
        forall|j: int| 0 <= j < b62_scan(b) ==> b62_value(#[trigger] b[j]) >= 0,
        b62_scan(b) < b.len() ==> b62_value(b[b62_scan(b) as int]) < 0,
    decreases b.len(),
{
    if b.len() > 0 && b62_value(b[0]) >= 0 {
        let t = b.drop_first();
        lemma_b62_scan(t);
        assert forall|j: int| 0 <= j < b62_scan(b) implies b62_value(#[trigger] b[j]) >= 0 by {
            if j > 0 {
                assert(b[j] == t[j - 1]);
            }
        }
    }
}

pub proof fn lemma_base62_value_mono(b: Seq<u8>, i: nat, j: nat)
    requires
        i <= j <= b.len(),
        forall|m: int| 0 <= m < j ==> b62_value(#[trigger] b[m]) >= 0,
    ensures
        0 <= base62_value(b.take(i as int)) <= base62_value(b.take(j as int)),
    decreases j,
{
    if j > 0 {
        let jm = (j - 1) as nat;
        assert(b.take(j as int).drop_last() =~= b.take(jm as int));
        if i < j {
            lemma_base62_value_mono(b, i, jm);
        } else {
            lemma_base62_value_mono(b, jm, jm);
        }
        assert(b62_value(b.take(j as int).last()) >= 0);
    } else {
        assert(b.take(0).len() == 0);
    }
}

/// The base-62 digit char of value `d`.
pub fn b62_digit_char(d: u8) -> (c: char)
    requires
        d < 62,
    ensures
        c == b62_char(d as int),
{
    if d < 10 {
        (48 + d) as char
    } else if d < 36 {
        (55 + d) as char
    } else {
        (61 + d) as char
    }
}

/// The value of a base-62 digit byte, -1 for any other byte.
pub fn b62_digit_value(b: u8) -> (v: i8)
    ensures
        v as int == b62_value(b),
{
    if 48 <= b && b <= 57 {
        (b - 48) as i8
    } else if 65 <= b && b <= 90 {
        (b - 55) as i8
    } else if 97 <= b && b <= 122 {
        (b - 61) as i8
    } else {
        -1
    }
}

/// `n` in base 62 with the alphabet `0-9A-Za-z`.
pub fn to_base62(n: u128) -> (s: String)
    ensures
        s@ == b62_string(n as nat),
{
    let mut m = n;
    let mut rev: Vec<char> = Vec::new();
    while m >= 62
        invariant
            b62_string(n as nat) == b62_string(m as nat) + rev@.reverse(),
        decreases m,
    {
        let ghost before = rev@;
        rev.push(b62_digit_char((m % 62) as u8));
        proof {
            assert(rev@.reverse() =~= seq![b62_char((m % 62) as int)] + before.reverse());
            assert(b62_string(m as nat) == b62_string((m / 62) as nat).push(
                b62_char((m % 62) as int),
            ));
            assert(b62_string(m as nat) + before.reverse() =~= b62_string((m / 62) as nat)
                + rev@.reverse());
        }
        m = m / 62;
    }
    let ghost before = rev@;
    rev.push(b62_digit_char(m as u8));
    assert(rev@.reverse() =~= b62_string(n as nat));
    let mut s = String::new();
    let mut i: usize = rev.len();
    while i > 0
        invariant
            i <= rev@.len(),
            s@ == rev@.reverse().take(rev@.len() - i),
        decreases i,
    {
        i = i - 1;
        push_char(&mut s, rev[i]);
        assert(s@ =~= rev@.reverse().take(rev@.len() - i));
    }
    assert(rev@.reverse().take(rev@.len() as int) =~= rev@.reverse());
    s
}

/// The error text for a numeral whose value exceeds `u128`.
pub open spec fn b62_overflow_message() -> Seq<char> {
    "base62-Wert zu gross (max. 128 Bit)"@
}

/// What reading the base-62 numeral `b` gives, digit by digit from the
/// front: the overflow error once the digits read so far denote more than
/// `u128::MAX`, else the error for the first byte outside the alphabet, else
/// the number.
pub open spec fn base62_parse(b: Seq<u8>) -> Result<int, Seq<char>> {
    let k = b62_scan(b);
    if base62_value(b.take(k as int)) > u128::MAX {
        Err(b62_overflow_message())
    } else if k < b.len() {
        Err(invalid_b62_message(b[k as int] as char))
    } else {
        Ok(base62_value(b))
    }
}

/// Reads a base-62 numeral. Fails at the first byte outside the alphabet,
/// naming the byte as a char, or as soon as the value exceeds `u128`.
pub fn from_base62(s: &str) -> (r: Result<u128, String>)
    ensures
        r matches Ok(n) ==> base62_parse(s.spec_bytes()) == Ok::<int, Seq<char>>(n as int),
        r matches Err(e) ==> base62_parse(s.spec_bytes()) == Err::<int, Seq<char>>(e@),
{
    from_base62_bytes(s.as_bytes())
}

/// `from_base62` on the bytes of the text.
pub fn from_base62_bytes(bytes: &[u8]) -> (r: Result<u128, String>)
    ensures
        r matches Ok(n) ==> base62_parse(bytes@) == Ok::<int, Seq<char>>(n as int),
        r matches Err(e) ==> base62_parse(bytes@) == Err::<int, Seq<char>>(e@),
{
    let ghost b = bytes@;
    proof {
        lemma_b62_scan(b);
    }
    let mut n: u128 = 0;
    let mut i: usize = 0;
    while i < bytes.len()
        invariant
            bytes@ == b,
            i <= b.len(),
            i <= b62_scan(b),
            n == base62_value(b.take(i as int)),
            b62_scan(b) <= b.len(),
            forall|j: int| 0 <= j < b62_scan(b) ==> b62_value(#[trigger] b[j]) >= 0,
            b62_scan(b) < b.len() ==> b62_value(b[b62_scan(b) as int]) < 0,
        decreases b.len() - i,
    {
        let idx = b62_digit_value(bytes[i]);
        if idx < 0 {
            assert(b62_value(b[i as int]) < 0);
            assert(i == b62_scan(b));
            let mut msg = String::from_str("ungueltiges base62-Zeichen: ");
            push_char(&mut msg, bytes[i] as char);
            return Err(msg);
        }
        assert(b.take(i + 1).drop_last() =~= b.take(i as int));
        if n > (u128::MAX - idx as u128) / 62 {
            proof {
                lemma_base62_value_mono(b, (i + 1) as nat, b62_scan(b));
            }
            return Err(String::from_str("base62-Wert zu gross (max. 128 Bit)"));
        }
        n = n * 62 + idx as u128;
        i = i + 1;
    }
    assert(i == b62_scan(b));
    assert(b.take(b.len() as int) =~= b);
    Ok(n)
}

proof fn lemma_b62_char(d: int)
    requires
        0 <= d < 62,
    ensures
        b62_value(b62_char(d) as u8) == d,
        '\0' <= b62_char(d) <= '\u{7f}',
{
}

/// Reading back what `to_base62` wrote gives the number: the text is ASCII,
/// every byte is a digit, and the digits denote `n`.
pub proof fn lemma_base62_roundtrip(n: nat)
    ensures
        vstd::utf8::is_ascii_chars(b62_string(n)),
        b62_scan(ascii_bytes(b62_string(n))) == b62_string(n).len(),
        base62_value(ascii_bytes(b62_string(n))) == n,
        vstd::utf8::encode_utf8(b62_string(n)) == ascii_bytes(b62_string(n)),
    decreases n,
{
    let s = b62_string(n);
    let b = ascii_bytes(s);
    if n < 62 {
        lemma_b62_char(n as int);
        assert(b.len() == 1);
        assert(b.last() == b62_char(n as int) as u8);
        assert(b.drop_last() =~= Seq::<u8>::empty());
        assert(b.drop_first() =~= Seq::<u8>::empty());
        assert(base62_value(b.drop_last()) == 0);
        assert(b62_scan(b.drop_first()) == 0);
        assert(base62_value(b) == n);
        assert(b62_scan(b) == 1);
    } else {
        let p = b62_string(n / 62);
        lemma_base62_roundtrip(n / 62);
        lemma_b62_char((n % 62) as int);
        let pb = ascii_bytes(p);
        assert(b.drop_last() =~= pb);
        assert(b.last() == b62_char((n % 62) as int) as u8);
        assert(n == (n / 62) * 62 + n % 62);
        lemma_b62_scan(pb);
        lemma_b62_scan(b);
        assert forall|j: int| 0 <= j < b.len() implies b62_value(#[trigger] b[j]) >= 0 by {
            if j < pb.len() {
                assert(b[j] == pb[j]);
            }
        }
        lemma_b62_scan_all(b);
        assert(base62_value(b) == base62_value(pb) * 62 + b62_value(b.last()));
        assert(base62_value(b) == n);
    }
    lemma_ascii_encode(s);
}

proof fn lemma_b62_scan_all(b: Seq<u8>)
    requires
        forall|j: int| 0 <= j < b.len() ==> b62_value(#[trigger] b[j]) >= 0,
    ensures
        b62_scan(b) == b.len(),
    decreases b.len(),
{
    if b.len() > 0 {
        let t = b.drop_first();
        assert forall|j: int| 0 <= j < t.len() implies b62_value(#[trigger] t[j]) >= 0 by {
            assert(t[j] == b[j + 1]);
        }
        lemma_b62_scan_all(t);
    }
}

/// `24^(i + j) = 24^i * 24^j`.
proof fn lemma_pow24_add(i: nat, j: nat)
    ensures
        pow24(i + j) == pow24(i) * pow24(j),
    decreases j,
{
    if j > 0 {
        lemma_pow24_add(i, (j - 1) as nat);
        assert(pow24(i + j) == pow24((i + j - 1) as nat) * 24);
        vstd::arithmetic::mul::lemma_mul_is_associative(pow24(i), pow24((j - 1) as nat), 24);
    }
}

/// `decode` sees only `n mod 24^24`: the digits of weight `24^24` and above
/// are dropped, and every digit lies in `Z_24`.
pub proof fn lemma_decode_ignores_high(n: int)
    requires
        n >= 0,
    ensures
        base24_digits(n) == base24_digits(n % pow24(24)),
        all_in(base24_digits(n), 0, 24),
{
    let p = pow24(24);
    assert forall|i: int| 0 <= i < 24 implies #[trigger] base24_digits(n)[i] == base24_digits(
        n % p,
    )[i] by {
        let a = pow24(i as nat);
        let c = pow24((23 - i) as nat);
        lemma_pow24_mono(0, i as nat);
        lemma_pow24_mono(0, (23 - i) as nat);
        lemma_pow24_add(i as nat, (24 - i) as nat);
        assert(pow24((24 - i) as nat) == c * 24);
        let b = 24 * c;
        assert(p == a * b);
        vstd::arithmetic::div_mod::lemma_mod_breakdown(n, a, b);
        vstd::arithmetic::div_mod::lemma_div_pos_is_pos(n, a);
        vstd::arithmetic::div_mod::lemma_fundamental_div_mod_converse(
            n % p,
            a,
            (n / a) % b,
            n % a,
        );
        vstd::arithmetic::div_mod::lemma_mod_mod(n / a, 24, c);
    }
    assert(base24_digits(n) =~= base24_digits(n % p));
}
} // verus!
