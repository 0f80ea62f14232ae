//! The permutation `E_K` on `Z_24^24`: eight Feistel rounds over two halves of
//! twelve values, with the round function `resolve`, and its inverse.

use vstd::prelude::*;
use crate::arith::{abs, fits_i64, lemma_tdiv_nonneg, tmod};

verus! {

/// The modulus of every value: the permutation works on `Z_24`.
pub const BASE: i64 = 24;

/// Number of values in a message.
pub const N_VALUES: usize = 24;

/// Number of values in one Feistel half.
pub const HALF: usize = 12;

/// A sequence of machine integers read as mathematical integers.
pub open spec fn ints(s: Seq<i64>) -> Seq<int> {
    s.map_values(|x: i64| x as int)
}

/// Every element lies in `lo..hi`.
pub open spec fn all_in(s: Seq<int>, lo: int, hi: int) -> bool {
    forall|i: int| 0 <= i < s.len() ==> lo <= #[trigger] s[i] < hi
}

/// Every key has magnitude below `2^62`, the bound under which a round on
/// values of magnitude at most `2^62` cannot overflow.
pub open spec fn keys_small(keys: Seq<int>) -> bool {
    forall|i: int| 0 <= i < keys.len() ==> -0x4000_0000_0000_0000 < #[trigger] keys[i] < 0x4000_0000_0000_0000
}

/// The round function `F(R, K)_j = 12 + (|R_j - K| mod 12)`, which lies in `12..24`.
pub open spec fn resolve_spec(state: int, operand: int) -> int {
    12 + abs(state - operand) % 12
}

/// One encryption round `Psi(L, R) = (R, (L + F(R, K)) mod 24)`, with Rust's
/// sign-keeping remainder.
pub open spec fn enc_round(lr: (Seq<int>, Seq<int>), k: int) -> (Seq<int>, Seq<int>) {
    (lr.1, Seq::new(HALF as nat, |i: int| tmod(lr.0[i] + resolve_spec(lr.1[i], k), 24)))
}

/// The first `n` encryption rounds, keys taken in order.
pub open spec fn enc_rounds(lr: (Seq<int>, Seq<int>), keys: Seq<int>, n: nat) -> (
    Seq<int>,
    Seq<int>,
)
    decreases n,
{
    if n == 0 {
        lr
    } else {
        enc_round(enc_rounds(lr, keys, (n - 1) as nat), keys[n - 1])
    }
}

/// One decryption round `Psi^-1(L', R') = ((R' - F(L', K)) mod 24, L')`, computed
/// as a subtraction and one correction by 24.
pub open spec fn dec_round(lr: (Seq<int>, Seq<int>), k: int) -> (Seq<int>, Seq<int>) {
    (
        Seq::new(
            HALF as nat,
            |i: int|
                {
                    let x = lr.1[i] - resolve_spec(lr.0[i], k);
                    if x < 0 {
                        x + 24
                    } else {
                        x
                    }
                },
        ),
        lr.0,
    )
}

/// Undoes the first `n` rounds: keys taken from `keys[n - 1]` down to `keys[0]`.
pub open spec fn dec_rounds(lr: (Seq<int>, Seq<int>), keys: Seq<int>, n: nat) -> (
    Seq<int>,
    Seq<int>,
)
    decreases n,
{
    if n == 0 {
        lr
    } else {
        dec_rounds(dec_round(lr, keys[n - 1]), keys, (n - 1) as nat)
    }
}

/// The two halves of a message.
pub open spec fn halves(v: Seq<int>) -> (Seq<int>, Seq<int>) {
    (v.subrange(0, HALF as int), v.subrange(HALF as int, N_VALUES as int))
}

/// The message made of two halves.
pub open spec fn join(lr: (Seq<int>, Seq<int>)) -> Seq<int> {
    lr.0 + lr.1
}

/// `E_K`: all rounds, one per key.
pub open spec fn feistel_encrypt_spec(plain: Seq<int>, keys: Seq<int>) -> Seq<int> {
    join(enc_rounds(halves(plain), keys, keys.len()))
}

/// The inverse of `E_K` on `Z_24^24`.
pub open spec fn feistel_decrypt_spec(cipher: Seq<int>, keys: Seq<int>) -> Seq<int> {
    join(dec_rounds(halves(cipher), keys, keys.len()))
}

/// One round computes in `i64` without overflow: `R_j - K` and `|R_j - K|`
/// exist, and so does `L_j + F(R_j, K)`.
pub open spec fn round_fits(l: Seq<int>, r: Seq<int>, k: int) -> bool {
    forall|i: int|
        #![trigger r[i]]
        0 <= i < HALF ==> {
            &&& i64::MIN < r[i] - k <= i64::MAX
            &&& fits_i64(l[i] + resolve_spec(r[i], k))
        }
}

/// The first `n` rounds compute in `i64` without overflow.
pub open spec fn rounds_fit(lr: (Seq<int>, Seq<int>), keys: Seq<int>, n: nat) -> bool
    decreases n,
{
    if n == 0 {
        true
    } else {
        rounds_fit(lr, keys, (n - 1) as nat) && round_fits(
            enc_rounds(lr, keys, (n - 1) as nat).0,
            enc_rounds(lr, keys, (n - 1) as nat).1,
            keys[n - 1],
        )
    }
}

/// Encryption of `plain` under `keys` computes in `i64` without overflow.
pub open spec fn encrypt_fits(plain: Seq<int>, keys: Seq<int>) -> bool {
    rounds_fit(halves(plain), keys, keys.len())
}

/// `F(R, K)`: `12 + |state - operand| % 12`.
pub fn resolve(state: i64, operand: i64) -> (r: i64)
    requires
        i64::MIN < state - operand <= i64::MAX,
    ensures
        r == resolve_spec(state as int, operand as int),
        12 <= r < 24,
{
    let d = state - operand;
    let a = if d < 0 {
        -d
    } else {
        d
    };
    12 + a % 12
}

proof fn lemma_rounds_fit_prefix(lr: (Seq<int>, Seq<int>), keys: Seq<int>, n: nat, j: nat)
    requires
        rounds_fit(lr, keys, n),
        j < n,
    ensures
        round_fits(enc_rounds(lr, keys, j).0, enc_rounds(lr, keys, j).1, keys[j as int]),
    decreases n,
{
    if j + 1 < n {
        lemma_rounds_fit_prefix(lr, keys, (n - 1) as nat, j);
    }
}

/// After `j >= 1` rounds the right half lies in `-23..24`, after three rounds
/// in `-11..24`, after five rounds in `0..24`; the left half is the previous
/// right half.
pub proof fn lemma_enc_rounds_range(lr: (Seq<int>, Seq<int>), keys: Seq<int>, j: nat)
    requires
        j <= keys.len(),
        lr.0.len() == HALF,
        lr.1.len() == HALF,
    ensures
        enc_rounds(lr, keys, j).0.len() == HALF,
        enc_rounds(lr, keys, j).1.len() == HALF,
        j >= 1 ==> enc_rounds(lr, keys, j).0 == enc_rounds(lr, keys, (j - 1) as nat).1,
        j >= 1 ==> all_in(
            enc_rounds(lr, keys, j).1,
            if j >= 5 {
                0
            } else if j >= 3 {
                -11
            } else {
                -23
            },
            24,
        ),
    decreases j,
{
    if j >= 1 {
        lemma_enc_rounds_range(lr, keys, (j - 1) as nat);
        if j >= 2 {
            lemma_enc_rounds_range(lr, keys, (j - 2) as nat);
        }
        let prev = enc_rounds(lr, keys, (j - 1) as nat);
        let cur = enc_rounds(lr, keys, j);
        assert forall|i: int| 0 <= i < HALF implies (if j >= 5 {
            0
        } else if j >= 3 {
            -11
        } else {
            -23
        }) <= #[trigger] cur.1[i] < 24 by {
            let x = prev.0[i] + resolve_spec(prev.1[i], keys[j - 1]);
            assert(cur.1[i] == tmod(x, 24));
            if x >= 0 {
                lemma_tdiv_nonneg(x, 24);
            }
        }
    }
}

/// After all eight rounds every value lies in `0..24`, whatever the input was.
pub proof fn lemma_encrypt_range(plain: Seq<int>, keys: Seq<int>)
    requires
        plain.len() == N_VALUES,
        keys.len() == 8,
    ensures
        feistel_encrypt_spec(plain, keys).len() == N_VALUES,
        all_in(feistel_encrypt_spec(plain, keys), 0, 24),
{
    let lr = halves(plain);
    lemma_enc_rounds_range(lr, keys, 8);
    lemma_enc_rounds_range(lr, keys, 7);
    let out = feistel_encrypt_spec(plain, keys);
    let e = enc_rounds(lr, keys, 8);
    assert forall|i: int| 0 <= i < N_VALUES implies 0 <= #[trigger] out[i] < 24 by {
        if i < HALF {
            assert(out[i] == e.0[i]);
        } else {
            assert(out[i] == e.1[i - HALF]);
        }
    }
}

/// `E_K(plain)`. It computes without overflow exactly under `encrypt_fits`,
/// which holds for values of magnitude at most `2^62` and keys of magnitude
/// below `2^62` (`lemma_encrypt_fits_bounded`); the result lies in `Z_24^24`.
pub fn feistel_encrypt(plain: &[i64; 24], round_keys: &[i64; 8]) -> (out: [i64; 24])
    requires
        encrypt_fits(ints(plain@), ints(round_keys@)),
    ensures
        ints(out@) == feistel_encrypt_spec(ints(plain@), ints(round_keys@)),
        all_in(ints(out@), 0, 24),
{
    let ghost keys = ints(round_keys@);
    let ghost start = halves(ints(plain@));
    let mut l = [0i64; 12];
    let mut r = [0i64; 12];
    let mut i: usize = 0;
    while i < HALF
        invariant
            i <= HALF,
            forall|m: int| 0 <= m < i ==> #[trigger] l[m] == plain[m],
            forall|m: int| 0 <= m < i ==> r[m] == #[trigger] plain[m + 12],
        decreases HALF - i,
    {
        l[i] = plain[i];
        r[i] = plain[i + HALF];
        i = i + 1;
    }
    assert(ints(l@) =~= start.0);
    assert(ints(r@) =~= start.1);
    let mut j: usize = 0;
    while j < 8
        invariant
            j <= 8,
            keys == ints(round_keys@),
            keys.len() == 8,
            start == halves(ints(plain@)),
            rounds_fit(start, keys, 8),
            (ints(l@), ints(r@)) == enc_rounds(start, keys, j as nat),
        decreases 8 - j,
    {
        let k = round_keys[j];
        proof {
            lemma_rounds_fit_prefix(start, keys, 8, j as nat);
        }
        let mut new_r = [0i64; 12];
        let mut i: usize = 0;
        while i < HALF
            invariant
                i <= HALF,
                j < 8,
                keys.len() == 8,
                k == keys[j as int],
                round_fits(ints(l@), ints(r@), k as int),
                forall|m: int|
                    0 <= m < i ==> #[trigger] new_r[m] as int == tmod(
                        l[m] + resolve_spec(r[m] as int, k as int),
                        24,
                    ),
            decreases HALF - i,
        {
            assert(i64::MIN < ints(r@)[i as int] - k <= i64::MAX);
            let f = resolve(r[i], k);
            assert(fits_i64(ints(l@)[i as int] + resolve_spec(ints(r@)[i as int], k as int)));
            new_r[i] = (l[i] + f) % BASE;
            i = i + 1;
        }
        proof {
            let next = enc_round((ints(l@), ints(r@)), k as int);
            assert(ints(new_r@) =~= next.1);
        }
        l = r;
        r = new_r;
        j = j + 1;
    }
    let mut out = [0i64; 24];
    let mut i: usize = 0;
    while i < HALF
        invariant
            i <= HALF,
            forall|m: int| 0 <= m < i ==> #[trigger] out[m] == l[m],
            forall|m: int| 12 <= m < 12 + i ==> #[trigger] out[m] == r[m - 12],
        decreases HALF - i,
    {
        out[i] = l[i];
        out[i + HALF] = r[i];
        i = i + 1;
    }
    assert(ints(out@) =~= ints(l@) + ints(r@));
    proof {
        lemma_encrypt_range(ints(plain@), keys);
    }
    out
}


/// One decryption round computes in `i64` without overflow: `L'_j - K` and
/// `|L'_j - K|` exist, and so does `R'_j - F(L'_j, K)`.
pub open spec fn dec_round_fits(l: Seq<int>, r: Seq<int>, k: int) -> bool {
    forall|i: int|
        #![trigger l[i]]
        0 <= i < HALF ==> {
            &&& i64::MIN < l[i] - k <= i64::MAX
            &&& fits_i64(r[i] - resolve_spec(l[i], k))
        }
}

/// Undoing the first `n` rounds computes in `i64` without overflow.
pub open spec fn dec_rounds_fit(lr: (Seq<int>, Seq<int>), keys: Seq<int>, n: nat) -> bool
    decreases n,
{
    if n == 0 {
        true
    } else {
        dec_round_fits(lr.0, lr.1, keys[n - 1]) && dec_rounds_fit(
            dec_round(lr, keys[n - 1]),
            keys,
            (n - 1) as nat,
        )
    }
}

/// Decryption of `cipher` under `keys` computes in `i64` without overflow.
pub open spec fn decrypt_fits(cipher: Seq<int>, keys: Seq<int>) -> bool {
    dec_rounds_fit(halves(cipher), keys, keys.len())
}

/// Halves in `Z_24` stay in `Z_24` through any number of decryption rounds,
/// whatever the keys; with keys of magnitude below `2^62` no round overflows.
pub proof fn lemma_dec_rounds_range(lr: (Seq<int>, Seq<int>), keys: Seq<int>, n: nat)
    requires
        lr.0.len() == HALF,
        lr.1.len() == HALF,
        all_in(lr.0, 0, 24),
        all_in(lr.1, 0, 24),
        n <= keys.len(),
    ensures
        keys_small(keys) ==> dec_rounds_fit(lr, keys, n),
        dec_rounds(lr, keys, n).0.len() == HALF,
        dec_rounds(lr, keys, n).1.len() == HALF,
        all_in(dec_rounds(lr, keys, n).0, 0, 24),
        all_in(dec_rounds(lr, keys, n).1, 0, 24),
    decreases n,
{
    if n > 0 {
        let k = keys[n - 1];
        let d = dec_round(lr, k);
        assert forall|i: int| 0 <= i < HALF implies 0 <= #[trigger] d.0[i] < 24 by {
            assert(0 <= lr.0[i] < 24 && 0 <= lr.1[i] < 24);
        }
        if keys_small(keys) {
            assert(-0x4000_0000_0000_0000 < k < 0x4000_0000_0000_0000);
            assert(dec_round_fits(lr.0, lr.1, k)) by {
                assert forall|i: int| 0 <= i < HALF implies {
                    &&& i64::MIN < #[trigger] lr.0[i] - k <= i64::MAX
                    &&& fits_i64(lr.1[i] - resolve_spec(lr.0[i], k))
                } by {
                    assert(0 <= lr.0[i] < 24 && 0 <= lr.1[i] < 24);
                }
            }
        }
        lemma_dec_rounds_range(d, keys, (n - 1) as nat);
    }
}

/// Decryption keeps `Z_24^24` under any keys, and computes without overflow
/// there when every key has magnitude below `2^62`.
pub proof fn lemma_decrypt_range(cipher: Seq<int>, keys: Seq<int>)
    requires
        cipher.len() == N_VALUES,
        all_in(cipher, 0, 24),
    ensures
        keys_small(keys) ==> decrypt_fits(cipher, keys),
        feistel_decrypt_spec(cipher, keys).len() == N_VALUES,
        all_in(feistel_decrypt_spec(cipher, keys), 0, 24),
{
    let lr = halves(cipher);
    lemma_dec_rounds_range(lr, keys, keys.len());
    let d = dec_rounds(lr, keys, keys.len());
    let p = feistel_decrypt_spec(cipher, keys);
    assert forall|i: int| 0 <= i < N_VALUES implies 0 <= #[trigger] p[i] < 24 by {
        if i < HALF {
            assert(p[i] == d.0[i]);
        } else {
            assert(p[i] == d.1[i - HALF]);
        }
    }
}

/// Values of magnitude at most `2^62` and keys of magnitude below `2^62`
/// cannot overflow the encryption.
pub proof fn lemma_encrypt_fits_bounded(plain: Seq<int>, keys: Seq<int>)
    requires
        plain.len() == N_VALUES,
        keys.len() == 8,
        keys_small(keys),
        forall|i: int| 0 <= i < N_VALUES ==> -0x4000_0000_0000_0000 <= #[trigger] plain[i] <= 0x4000_0000_0000_0000,
    ensures
        encrypt_fits(plain, keys),
{
    let lr = halves(plain);
    assert forall|n: nat| n <= 8 implies #[trigger] rounds_fit(lr, keys, n) by {
        lemma_rounds_fit_bounded(plain, keys, n);
    }
}

proof fn lemma_rounds_fit_bounded(plain: Seq<int>, keys: Seq<int>, n: nat)
    requires
        plain.len() == N_VALUES,
        keys.len() == 8,
        keys_small(keys),
        forall|i: int| 0 <= i < N_VALUES ==> -0x4000_0000_0000_0000 <= #[trigger] plain[i] <= 0x4000_0000_0000_0000,
        n <= 8,
    ensures
        rounds_fit(halves(plain), keys, n),
    decreases n,
{
    let lr = halves(plain);
    if n > 0 {
        let j = (n - 1) as nat;
        lemma_rounds_fit_bounded(plain, keys, j);
        lemma_enc_rounds_range(lr, keys, j);
        if j >= 1 {
            lemma_enc_rounds_range(lr, keys, (j - 1) as nat);
        }
        let e = enc_rounds(lr, keys, j);
        assert(-0x4000_0000_0000_0000 < keys[j as int] < 0x4000_0000_0000_0000);
        assert forall|i: int| 0 <= i < 12 implies -0x4000_0000_0000_0000 <= #[trigger] e.0[i]
            <= 0x4000_0000_0000_0000 && -0x4000_0000_0000_0000 <= e.1[i] <= 0x4000_0000_0000_0000 by {
            if j == 0 {
                assert(e.0[i] == plain[i]);
                assert(e.1[i] == plain[i + 12]);
            } else if j == 1 {
                assert(e.0[i] == plain[i + 12]);
            }
        }
        assert(round_fits(e.0, e.1, keys[j as int]));
    }
}

/// `E_K^-1(cipher)`, computed round by round with the keys in reverse order.
/// It computes without overflow exactly under `decrypt_fits`, which holds for
/// a cipher in `Z_24^24` and keys of magnitude below `2^62`
/// (`lemma_decrypt_range`); a cipher in `Z_24^24` decrypts into `Z_24^24`.
pub fn feistel_decrypt(cipher: &[i64; 24], round_keys: &[i64; 8]) -> (out: [i64; 24])
    requires
        decrypt_fits(ints(cipher@), ints(round_keys@)),
    ensures
        ints(out@) == feistel_decrypt_spec(ints(cipher@), ints(round_keys@)),
        all_in(ints(cipher@), 0, 24) ==> all_in(ints(out@), 0, 24),
{
    let ghost keys = ints(round_keys@);
    let ghost start = halves(ints(cipher@));
    let mut l = [0i64; 12];
    let mut r = [0i64; 12];
    let mut i: usize = 0;
    while i < HALF
        invariant
            i <= HALF,
            forall|m: int| 0 <= m < i ==> #[trigger] l[m] == cipher[m],
            forall|m: int| 0 <= m < i ==> r[m] == #[trigger] cipher[m + 12],
        decreases HALF - i,
    {
        l[i] = cipher[i];
        r[i] = cipher[i + HALF];
        i = i + 1;
    }
    assert(ints(l@) =~= start.0);
    assert(ints(r@) =~= start.1);
    let mut j: usize = 8;
    while j > 0
        invariant
            j <= 8,
            keys == ints(round_keys@),
            keys.len() == 8,
            dec_rounds_fit((ints(l@), ints(r@)), keys, j as nat),
            dec_rounds((ints(l@), ints(r@)), keys, j as nat) == dec_rounds(start, keys, 8),
        decreases j,
    {
        j = j - 1;
        let k = round_keys[j];
        let mut prev_l = [0i64; 12];
        let mut i: usize = 0;
        while i < HALF
            invariant
                i <= HALF,
                dec_round_fits(ints(l@), ints(r@), k as int),
                forall|m: int|
                    0 <= m < i ==> #[trigger] prev_l[m] as int == (if r[m] - resolve_spec(
                        l[m] as int,
                        k as int,
                    ) < 0 {
                        r[m] - resolve_spec(l[m] as int, k as int) + 24
                    } else {
                        r[m] - resolve_spec(l[m] as int, k as int)
                    }),
            decreases HALF - i,
        {
            assert(i64::MIN < ints(l@)[i as int] - k <= i64::MAX);
            let f = resolve(l[i], k);
            assert(fits_i64(ints(r@)[i as int] - resolve_spec(ints(l@)[i as int], k as int)));
            let x = r[i] - f;
            prev_l[i] = if x < 0 {
                x + BASE
            } else {
                x
            };
            i = i + 1;
        }
        proof {
            let prev = dec_round((ints(l@), ints(r@)), k as int);
            assert(ints(prev_l@) =~= prev.0);
        }
        r = l;
        l = prev_l;
    }
    let mut out = [0i64; 24];
    let mut i: usize = 0;
    while i < HALF
        invariant
            i <= HALF,
            forall|m: int| 0 <= m < i ==> #[trigger] out[m] == l[m],
            forall|m: int| 12 <= m < 12 + i ==> #[trigger] out[m] == r[m - 12],
        decreases HALF - i,
    {
        out[i] = l[i];
        out[i + HALF] = r[i];
        i = i + 1;
    }
    assert(ints(out@) =~= ints(l@) + ints(r@));
    proof {
        if all_in(ints(cipher@), 0, 24) {
            lemma_decrypt_range(ints(cipher@), keys);
        }
    }
    out
}

proof fn lemma_round_inverse(lr: (Seq<int>, Seq<int>), k: int)
    requires
        lr.0.len() == HALF,
        lr.1.len() == HALF,
        all_in(lr.0, 0, 24),
        all_in(lr.1, 0, 24),
    ensures
        dec_round(enc_round(lr, k), k) == lr,
        all_in(enc_round(lr, k).1, 0, 24),
        enc_round(lr, k).1.len() == HALF,
{
    let e = enc_round(lr, k);
    let d = dec_round(e, k);
    assert forall|i: int| 0 <= i < HALF implies #[trigger] d.0[i] == lr.0[i] && 0 <= e.1[i] < 24 by {
        let x = lr.0[i] + resolve_spec(lr.1[i], k);
        lemma_tdiv_nonneg(x, 24);
    }
    assert(d.0 =~= lr.0);
}

/// Undoing `n` rounds after doing them gives back the halves, for halves in `Z_24`.
pub proof fn lemma_dec_enc_rounds(lr: (Seq<int>, Seq<int>), keys: Seq<int>, n: nat)
    requires
        lr.0.len() == HALF,
        lr.1.len() == HALF,
        all_in(lr.0, 0, 24),
        all_in(lr.1, 0, 24),
        n <= keys.len(),
    ensures
        dec_rounds(enc_rounds(lr, keys, n), keys, n) == lr,
        enc_rounds(lr, keys, n).0.len() == HALF,
        enc_rounds(lr, keys, n).1.len() == HALF,
        all_in(enc_rounds(lr, keys, n).0, 0, 24),
        all_in(enc_rounds(lr, keys, n).1, 0, 24),
    decreases n,
{
    if n > 0 {
        lemma_dec_enc_rounds(lr, keys, (n - 1) as nat);
        lemma_round_inverse(enc_rounds(lr, keys, (n - 1) as nat), keys[n - 1]);
    }
}

/// The permutation is undone by its inverse: `E_K^-1(E_K(x)) = x` for every
/// message `x` in `Z_24^24` and every key sequence; with eight keys of
/// magnitude below `2^62`, both directions compute without overflow.
pub proof fn lemma_feistel_roundtrip(plain: Seq<int>, keys: Seq<int>)
    requires
        plain.len() == N_VALUES,
        all_in(plain, 0, 24),
    ensures
        feistel_decrypt_spec(feistel_encrypt_spec(plain, keys), keys) == plain,
        (keys.len() == 8 && keys_small(keys)) ==> encrypt_fits(plain, keys) && decrypt_fits(
            feistel_encrypt_spec(plain, keys),
            keys,
        ),
{
    if keys.len() == 8 && keys_small(keys) {
        lemma_encrypt_fits_bounded(plain, keys);
        lemma_encrypt_range(plain, keys);
        lemma_decrypt_range(feistel_encrypt_spec(plain, keys), keys);
    }
    let lr = halves(plain);
    lemma_dec_enc_rounds(lr, keys, keys.len());
    let e = enc_rounds(lr, keys, keys.len());
    assert(halves(join(e)).0 =~= e.0);
    assert(halves(join(e)).1 =~= e.1);
    assert(join(lr) =~= plain);
}


proof fn lemma_round_inverse_rev(lr: (Seq<int>, Seq<int>), k: int)
    requires
        lr.0.len() == HALF,
        lr.1.len() == HALF,
        all_in(lr.0, 0, 24),
        all_in(lr.1, 0, 24),
    ensures
        enc_round(dec_round(lr, k), k) == lr,
        all_in(dec_round(lr, k).0, 0, 24),
        dec_round(lr, k).0.len() == HALF,
{
    let d = dec_round(lr, k);
    let e = enc_round(d, k);
    assert forall|i: int| 0 <= i < HALF implies #[trigger] e.1[i] == lr.1[i] && 0 <= d.0[i] < 24 by {
        let x = d.0[i] + resolve_spec(lr.0[i], k);
        lemma_tdiv_nonneg(x, 24);
    }
    assert(e.1 =~= lr.1);
}

/// Doing `n` rounds after undoing them gives back the halves, for halves in `Z_24`.
pub proof fn lemma_enc_dec_rounds(lr: (Seq<int>, Seq<int>), keys: Seq<int>, n: nat)
    requires
        lr.0.len() == HALF,
        lr.1.len() == HALF,
        all_in(lr.0, 0, 24),
        all_in(lr.1, 0, 24),
        n <= keys.len(),
    ensures
        enc_rounds(dec_rounds(lr, keys, n), keys, n) == lr,
        dec_rounds(lr, keys, n).0.len() == HALF,
        dec_rounds(lr, keys, n).1.len() == HALF,
        all_in(dec_rounds(lr, keys, n).0, 0, 24),
        all_in(dec_rounds(lr, keys, n).1, 0, 24),
    decreases n,
{
    if n > 0 {
        let d1 = dec_round(lr, keys[n - 1]);
        lemma_round_inverse_rev(lr, keys[n - 1]);
        lemma_enc_dec_rounds(d1, keys, (n - 1) as nat);
    }
}

/// `E_K` is a bijection of `Z_24^24`: besides `E_K^-1(E_K(x)) = x`, also
/// `E_K(E_K^-1(c)) = c` for every `c` in `Z_24^24`, and `E_K^-1(c)` lies in
/// `Z_24^24`; with eight keys of magnitude below `2^62`, both directions
/// compute without overflow.
pub proof fn lemma_feistel_onto(cipher: Seq<int>, keys: Seq<int>)
    requires
        cipher.len() == N_VALUES,
        all_in(cipher, 0, 24),
    ensures
        feistel_decrypt_spec(cipher, keys).len() == N_VALUES,
        all_in(feistel_decrypt_spec(cipher, keys), 0, 24),
        feistel_encrypt_spec(feistel_decrypt_spec(cipher, keys), keys) == cipher,
        (keys.len() == 8 && keys_small(keys)) ==> decrypt_fits(cipher, keys) && encrypt_fits(
            feistel_decrypt_spec(cipher, keys),
            keys,
        ),
{
    let lr = halves(cipher);
    lemma_enc_dec_rounds(lr, keys, keys.len());
    let d = dec_rounds(lr, keys, keys.len());
    let p = join(d);
    assert(halves(p).0 =~= d.0);
    assert(halves(p).1 =~= d.1);
    assert(join(lr) =~= cipher);
    assert forall|i: int| 0 <= i < N_VALUES implies 0 <= #[trigger] p[i] < 24 by {
        if i < HALF {
            assert(p[i] == d.0[i]);
        } else {
            assert(p[i] == d.1[i - HALF]);
        }
    }
    if keys.len() == 8 && keys_small(keys) {
        lemma_decrypt_range(cipher, keys);
        lemma_encrypt_fits_bounded(p, keys);
    }
}
} // verus!
