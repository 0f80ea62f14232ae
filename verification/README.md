# ergebnis_fpe

Stateless visitor tokens with a rotating key ring, verified with Verus.

A timestamp is captured losslessly as 24 values in Z_24 (time of day in
base-24 digits, month/day/year residues, the seven decimal digits of the
Julian Day Number and the Maya Long Count), permuted by an eight-round
Feistel network keyed from a secret, read as one base-24 number and spelled
in base 62. A token is `<generation>.<fingerprint>`, where the generation is
the index of the time window (windows counted from 1 January of year 0) and
selects the key. Malformed, expired, forged and out-of-range tokens, and a
system clock that cannot be read as a date, are answered with an error value. Validation is a pure
function of the token, the secret, the window length and the current time:
MAIN in the token's own window, SECONDARY and TERTIARY in the next two (with
a fresh token under the current key), expired afterwards.

Layout:

- `src/` — the verified library: `mix` (key schedule), `feistel` (the
  permutation and its inverse), `codec` (base 24, base 62), `fingerprint`
  (the FPE core), `calendar` (day numbers, Gregorian dates, Maya count),
  `timestamp` (capture and rebuild), `text` (decimal text), `token`
  (issuing and validating). Each module states its contracts and proves the
  round-trip laws it owns; `token::lemma_token_lifecycle` states the whole
  token lifecycle.
- `tests/` — executable tests on concrete values.
- `app/` — the command line (`init`, `make`, `validate`, benchmarks).
