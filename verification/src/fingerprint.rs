//! The FPE core: a vector of 24 values encrypted and spelled in base 62, and
//! read back.

use vstd::prelude::*;
use vstd::string::*;
use crate::codec::{
    b62_string, base24_digits, base24_value, base62_parse, decode, encode, from_base62_bytes,
    lemma_base62_roundtrip, lemma_decode_encode, lemma_pow24_mono, to_base62,
};
use crate::feistel::{
    all_in, encrypt_fits, feistel_decrypt, feistel_decrypt_spec, feistel_encrypt,
    feistel_encrypt_spec, ints, lemma_decrypt_range, lemma_encrypt_fits_bounded,
    lemma_encrypt_range, lemma_feistel_roundtrip, N_VALUES,
};
use crate::mix::{key_schedule_from_secret, round_keys_spec};
use crate::text::ascii_bytes;

verus! {

/// `C = base62(Enc(E_K(values)))` with the round keys derived from `secret`.
pub open spec fn fingerprint_spec(values: Seq<int>, secret: u64) -> Seq<char> {
    b62_string(base24_value(feistel_encrypt_spec(values, round_keys_spec(secret))) as nat)
}

/// What `recover_values` gives for the bytes of a fingerprint: the error of
/// reading the base-62 numeral (a byte outside the alphabet, or a value beyond
/// `u128`), else `E_K^-1` of the 24 base-24 digits of the number (digits of
/// weight `24^24` and above are dropped).
pub open spec fn recover_spec(bytes: Seq<u8>, secret: u64) -> Result<Seq<int>, Seq<char>> {
    match base62_parse(bytes) {
        Err(e) => Err(e),
        Ok(n) => Ok(feistel_decrypt_spec(base24_digits(n), round_keys_spec(secret))),
    }
}

/// Encryption of `values` under the round keys of `secret` computes in `i64`
/// without overflow.
pub open spec fn fingerprint_fits(values: Seq<int>, secret: u64) -> bool {
    encrypt_fits(values, round_keys_spec(secret))
}

/// FPE core: encrypts the value vector and spells it in base 62.
pub fn make_fingerprint(values: &[i64; 24], secret: u64) -> (fp: String)
    requires
        fingerprint_fits(ints(values@), secret),
    ensures
        fp@ == fingerprint_spec(ints(values@), secret),
{
    let round_keys = key_schedule_from_secret(secret);
    let cipher = feistel_encrypt(values, &round_keys);
    proof {
        crate::codec::lemma_unsigned_digits_nonneg(cipher@);
        lemma_base24_value_bounds_pub(ints(cipher@));
    }
    to_base62(encode(cipher.as_slice()))
}

/// FPE core: reads the base-62 fingerprint and decrypts it back to the value
/// vector.
pub fn recover_values(fp: &str, secret: u64) -> (r: Result<[i64; 24], String>)
    ensures
        r matches Ok(v) ==> recover_spec(fp.spec_bytes(), secret) == Ok::<Seq<int>, Seq<char>>(
            ints(v@),
        ),
        r matches Err(e) ==> recover_spec(fp.spec_bytes(), secret) == Err::<Seq<int>, Seq<char>>(
            e@,
        ),
        r matches Ok(v) ==> all_in(ints(v@), 0, 24),
{
    recover_values_bytes(fp.as_bytes(), secret)
}

/// `recover_values` on the bytes of the fingerprint.
pub fn recover_values_bytes(fp: &[u8], secret: u64) -> (r: Result<[i64; 24], String>)
    ensures
        r matches Ok(v) ==> recover_spec(fp@, secret) == Ok::<Seq<int>, Seq<char>>(ints(v@)),
        r matches Err(e) ==> recover_spec(fp@, secret) == Err::<Seq<int>, Seq<char>>(e@),
        r matches Ok(v) ==> all_in(ints(v@), 0, 24),
{
    let round_keys = key_schedule_from_secret(secret);
    let n = match from_base62_bytes(fp) {
        Ok(n) => n,
        Err(e) => {
            return Err(e);
        },
    };
    let cipher = decode(n);
    proof {
        assert(crate::feistel::keys_small(ints(round_keys@)));
        lemma_decrypt_range(ints(cipher@), ints(round_keys@));
    }
    Ok(feistel_decrypt(&cipher, &round_keys))
}

/// The FPE round trip: reading back a fingerprint under the same secret gives
/// the value vector, for every vector in `Z_24^24`; the fingerprint is ASCII,
/// so its bytes are its characters, and it meets `recover_values`' demand.
pub proof fn lemma_fingerprint_roundtrip(values: Seq<int>, secret: u64)
    requires
        values.len() == N_VALUES,
        all_in(values, 0, 24),
    ensures
        fingerprint_fits(values, secret),
        vstd::utf8::encode_utf8(fingerprint_spec(values, secret)) == ascii_bytes(
            fingerprint_spec(values, secret),
        ),
        recover_spec(ascii_bytes(fingerprint_spec(values, secret)), secret) == Ok::<
            Seq<int>,
            Seq<char>,
        >(values),
{
    let keys = round_keys_spec(secret);
    assert(all_in(keys, 0, 24));
    assert(crate::feistel::keys_small(keys));
    lemma_encrypt_fits_bounded(values, keys);
    let cipher = feistel_encrypt_spec(values, keys);
    lemma_encrypt_range(values, keys);
    let n = base24_value(cipher);
    lemma_base24_value_bounds_pub(cipher);
    lemma_base62_roundtrip(n as nat);
    let b = ascii_bytes(b62_string(n as nat));
    assert(b.take(b.len() as int) =~= b);
    assert(base62_parse(b) == Ok::<int, Seq<char>>(n));
    lemma_decode_encode(cipher);
    lemma_feistel_roundtrip(values, keys);
}

proof fn lemma_base24_value_bounds_pub(c: Seq<int>)
    requires
        c.len() == N_VALUES,
        all_in(c, 0, 24),
    ensures
        0 <= base24_value(c) <= u128::MAX,
{
    crate::codec::lemma_base24_value_bounds(c);
    lemma_pow24_mono(24, 27);
    crate::codec::lemma_pow24_27();
}


} // verus!
