//! Shannon entropy of a string, in fixed-point arithmetic.
//!
//! Entropy is measured in millionths of a bit per character ("micro-bits"):
//! `4_500_000` stands for 4.5 bits.  For a string of `n` characters in which
//! the character at position `j` occurs `c_j` times, the entropy is the mean
//! over all positions of `log2(n) - log2(c_j)`, which is the usual
//! `-sum p log2 p` over the distinct characters.  The mean is rounded up to
//! a whole micro-bit: an entropy is given as 0 only where it is 0.
//!
//! The binary logarithm is computed on integers: its integer part is the
//! position of the highest set bit, and its fractional part is read off bit
//! by bit by repeated squaring of the normalised mantissa.

use vstd::prelude::*;
use vstd::arithmetic::power2::{
    lemma2_to64, lemma2_to64_rest, lemma_pow2_pos, lemma_pow2_unfold, pow2,
};

verus! {

/// Fixed-point scale: one bit of entropy.
pub const MICRO: u64 = 1_000_000;

/// Number of binary digits computed for the fractional part of a logarithm.
pub const FRACTION_DIGITS: u32 = 20;

/// `2^63`: a mantissa `m` is normalised when `HALF <= m < 2 * HALF`.
pub const HALF: u64 = 0x8000_0000_0000_0000;

/// `2^20`, the number of values that `FRACTION_DIGITS` binary digits can take.
pub const FRACTION_RANGE: u64 = 0x10_0000;

/// The first `k` binary digits of `log2(m / 2^63)` for a normalised mantissa
/// `m`, as a number below `2^k`.  Squaring the mantissa doubles its
/// logarithm; when the square reaches 2 the next digit is 1 and the square is
/// halved.  Squares are rounded down to 63 fractional bits.
pub open spec fn fraction_digits(m: int, k: nat) -> int
    decreases k,
{
    if k == 0 {
        0
    } else {
        let sq = (m * m) / (HALF as int);
        if sq >= 2 * HALF {
            pow2((k - 1) as nat) + fraction_digits(sq / 2, (k - 1) as nat)
        } else {
            fraction_digits(sq, (k - 1) as nat)
        }
    }
}

/// Fixed-point logarithm of `m * 2^(e - 63)`, where doubling `m` until it is
/// normalised takes at most `e` steps.
pub open spec fn log2_from(m: int, e: int) -> int
    decreases e,
{
    if m <= 0 {
        0
    } else if m >= HALF || e <= 0 {
        e * MICRO + (fraction_digits(m, FRACTION_DIGITS as nat) * MICRO) / (FRACTION_RANGE as int)
    } else {
        log2_from(2 * m, e - 1)
    }
}

/// Binary logarithm of `x` in micro-bits; 0 for `x <= 0`.  Below `2^64` the
/// mantissa is normalised by doubling; from `2^64` on each halving of the
/// argument counts one bit.
pub open spec fn log2_micro(x: int) -> int
    decreases x,
{
    if x < 2 * HALF {
        log2_from(x, 63)
    } else {
        MICRO + log2_micro(x / 2)
    }
}

/// The quotient of `total` by `parts`, rounded up.
pub open spec fn rounded_up(total: int, parts: int) -> int {
    (total + parts - 1) / parts
}

/// Number of positions of `s` that hold `c`.
pub open spec fn occurrences(s: Seq<char>, c: char) -> nat
    decreases s.len(),
{
    if s.len() == 0 {
        0
    } else {
        occurrences(s.drop_last(), c) + if s.last() == c {
            1nat
        } else {
            0nat
        }
    }
}

/// Information carried by the character at position `j` of `s`, in
/// micro-bits: `log2(n / c)` where `c` is how often that character occurs.
pub open spec fn surprisal(s: Seq<char>, j: int) -> int {
    log2_micro(s.len() as int) - log2_micro(occurrences(s, s[j]) as int)
}

/// Sum of the surprisals of the first `k` positions of `s`.
pub open spec fn surprisal_sum(s: Seq<char>, k: nat) -> int
    decreases k,
{
    if k == 0 {
        0
    } else {
        surprisal_sum(s, (k - 1) as nat) + surprisal(s, k - 1)
    }
}

/// Shannon entropy of `s` in micro-bits per character, rounded up to a
/// whole micro-bit, so that only an entropy of 0 is given as 0; 0 for the
/// empty string.
pub open spec fn entropy_of(s: Seq<char>) -> int {
    if s.len() == 0 {
        0
    } else {
        rounded_up(surprisal_sum(s, s.len()), s.len() as int)
    }
}

/// A quotient rounded up is 0 for 0, at least 1 for more, and no more than
/// a bound on the quotient.
pub proof fn lemma_rounded_up(total: int, parts: int, bound: int)
    requires
        0 <= total <= parts * bound,
        parts > 0,
    ensures
        0 <= rounded_up(total, parts) <= bound,
        total == 0 ==> rounded_up(total, parts) == 0,
        total > 0 ==> rounded_up(total, parts) >= 1,
{
    assert(0 <= (total + parts - 1) / parts <= bound) by (nonlinear_arith)
        requires
            0 <= total <= parts * bound,
            parts > 0,
    ;
    if total == 0 {
        assert((parts - 1) / parts == 0) by (nonlinear_arith)
            requires
                parts > 0,
        ;
    } else {
        assert((total + parts - 1) / parts >= 1) by (nonlinear_arith)
            requires
                total >= 1,
                parts > 0,
        ;
    }
}

proof fn lemma_square_monotone(a: int, b: int)
    requires
        0 <= a <= b,
    ensures
        (a * a) / (HALF as int) <= (b * b) / (HALF as int),
{
    let h = HALF as int;
    assert(a * a <= b * b) by (nonlinear_arith)
        requires
            0 <= a <= b,
    ;
    assert((a * a) / h <= (b * b) / h) by (nonlinear_arith)
        requires
            a * a <= b * b,
            h > 0,
    ;
}

/// The digits of a fraction form a number below `2^k`.
pub proof fn lemma_fraction_digits_bounds(m: int, k: nat)
    ensures
        0 <= fraction_digits(m, k) < pow2(k),
    decreases k,
{
    lemma_pow2_pos(k);
    if k > 0 {
        lemma_pow2_unfold(k);
        let sq = (m * m) / (HALF as int);
        lemma_fraction_digits_bounds(sq / 2, (k - 1) as nat);
        lemma_fraction_digits_bounds(sq, (k - 1) as nat);
    }
}

/// A larger mantissa never has a smaller fraction.
pub proof fn lemma_fraction_digits_monotone(a: int, b: int, k: nat)
    requires
        0 <= a <= b,
    ensures
        fraction_digits(a, k) <= fraction_digits(b, k),
    decreases k,
{
    if k > 0 {
        let h = HALF as int;
        let sa = (a * a) / h;
        let sb = (b * b) / h;
        lemma_square_monotone(a, b);
        assert(0 <= sa) by (nonlinear_arith)
            requires
                sa == (a * a) / h,
                h > 0,
        ;
        let j = (k - 1) as nat;
        if sa >= 2 * h {
            lemma_fraction_digits_monotone(sa / 2, sb / 2, j);
        } else if sb >= 2 * h {
            lemma_fraction_digits_bounds(sa, j);
            lemma_fraction_digits_bounds(sb / 2, j);
        } else {
            lemma_fraction_digits_monotone(sa, sb, j);
        }
    }
}

/// The scaled fraction lies in `[0, MICRO)`.
proof fn lemma_scaled_fraction_bounds(m: int)
    ensures
        0 <= (fraction_digits(m, FRACTION_DIGITS as nat) * MICRO) / (FRACTION_RANGE as int) < MICRO,
{
    lemma_fraction_digits_bounds(m, FRACTION_DIGITS as nat);
    lemma2_to64();
    assert(pow2(20) == 0x10_0000);
}

/// An unnormalised mantissa has a logarithm below `e` bits.
proof fn lemma_log2_from_below(m: int, e: int)
    requires
        0 < m < HALF,
        e > 0,
    ensures
        0 <= log2_from(m, e) < e * MICRO,
    decreases e,
{
    reveal_with_fuel(log2_from, 2);
    if 2 * m >= HALF || e - 1 <= 0 {
        lemma_scaled_fraction_bounds(2 * m);
    } else {
        lemma_log2_from_below(2 * m, e - 1);
    }
}

proof fn lemma_log2_from_monotone(a: int, b: int, e: int)
    requires
        0 < a <= b,
        e >= 0,
    ensures
        log2_from(a, e) <= log2_from(b, e),
    decreases e,
{
    if a >= HALF || e <= 0 {
        lemma_fraction_digits_monotone(a, b, FRACTION_DIGITS as nat);
        let fa = fraction_digits(a, FRACTION_DIGITS as nat);
        let fb = fraction_digits(b, FRACTION_DIGITS as nat);
        assert((fa * MICRO) / (FRACTION_RANGE as int) <= (fb * MICRO) / (FRACTION_RANGE as int))
            by (nonlinear_arith)
            requires
                fa <= fb,
        ;
    } else if b >= HALF {
        lemma_log2_from_below(a, e);
        lemma_scaled_fraction_bounds(b);
    } else {
        lemma_log2_from_monotone(2 * a, 2 * b, e - 1);
    }
}

/// The logarithm never decreases as its argument grows.
pub proof fn lemma_log2_monotone(x: int, y: int)
    requires
        0 < x <= y,
    ensures
        log2_micro(x) <= log2_micro(y),
    decreases y,
{
    if y < 2 * HALF {
        lemma_log2_from_monotone(x, y, 63);
    } else if x < 2 * HALF {
        lemma_log2_bounds(x);
        lemma_log2_bounds(y);
    } else {
        lemma_log2_monotone(x / 2, y / 2);
    }
}

/// The logarithm of a positive number is not negative; it is below 64 bits
/// for a number below `2^64`, and at least 64 bits from there on.
pub proof fn lemma_log2_bounds(x: int)
    requires
        0 < x,
    ensures
        0 <= log2_micro(x),
        x < 2 * HALF ==> log2_micro(x) < 64 * MICRO,
        x >= 2 * HALF ==> log2_micro(x) >= 64 * MICRO,
    decreases x,
{
    if x < HALF {
        lemma_log2_from_below(x, 63);
    } else if x < 2 * HALF {
        lemma_scaled_fraction_bounds(x);
    } else {
        lemma_log2_bounds(x / 2);
        if x / 2 < 2 * HALF {
            lemma_scaled_fraction_bounds(x / 2);
        }
    }
}

/// A character occurs at most once per position.
pub proof fn lemma_occurrences_bound(s: Seq<char>, c: char)
    ensures
        occurrences(s, c) <= s.len(),
    decreases s.len(),
{
    if s.len() > 0 {
        lemma_occurrences_bound(s.drop_last(), c);
    }
}

/// A character that stands at some position occurs at least once.
pub proof fn lemma_occurrences_positive(s: Seq<char>, j: int)
    requires
        0 <= j < s.len(),
    ensures
        occurrences(s, s[j]) >= 1,
    decreases s.len(),
{
    if j < s.len() - 1 {
        lemma_occurrences_positive(s.drop_last(), j);
    }
}

/// A character that stands at no position occurs zero times.
pub proof fn lemma_occurrences_absent(s: Seq<char>, c: char)
    requires
        forall|j: int| 0 <= j < s.len() ==> s[j] != c,
    ensures
        occurrences(s, c) == 0,
    decreases s.len(),
{
    if s.len() > 0 {
        lemma_occurrences_absent(s.drop_last(), c);
    }
}

/// No surprisal is negative, and in a string of fewer than `2^64`
/// characters each is below 64 bits.
pub proof fn lemma_surprisal_bounds(s: Seq<char>, j: int)
    requires
        0 <= j < s.len(),
    ensures
        0 <= surprisal(s, j),
        s.len() < 2 * HALF ==> surprisal(s, j) < 64 * MICRO,
{
    lemma_occurrences_positive(s, j);
    lemma_occurrences_bound(s, s[j]);
    lemma_log2_monotone(occurrences(s, s[j]) as int, s.len() as int);
    lemma_log2_bounds(occurrences(s, s[j]) as int);
    lemma_log2_bounds(s.len() as int);
}

/// The sum of surprisals is not negative, and in a string of fewer than
/// `2^64` characters it is below 64 bits for each position.
pub proof fn lemma_surprisal_sum_bounds(s: Seq<char>, k: nat)
    requires
        k <= s.len(),
    ensures
        0 <= surprisal_sum(s, k),
        s.len() < 2 * HALF ==> surprisal_sum(s, k) <= k * (64 * MICRO),
    decreases k,
{
    if k > 0 {
        lemma_surprisal_sum_bounds(s, (k - 1) as nat);
        lemma_surprisal_bounds(s, k - 1);
        assert(k * (64 * MICRO) == (k - 1) * (64 * MICRO) + 64 * MICRO) by (nonlinear_arith);
    }
}

/// Entropy is never negative, 0 for the empty string, and never above 64
/// bits for a string of fewer than `2^64` characters.
pub proof fn lemma_entropy_bounds(s: Seq<char>)
    ensures
        0 <= entropy_of(s),
        s.len() == 0 ==> entropy_of(s) == 0,
        s.len() < 2 * HALF ==> entropy_of(s) <= 64 * MICRO,
{
    if s.len() > 0 {
        lemma_surprisal_sum_bounds(s, s.len());
        let n = s.len() as int;
        let t = surprisal_sum(s, s.len());
        if s.len() < 2 * HALF {
            lemma_rounded_up(t, n, 64 * MICRO);
        } else {
            assert((t + n - 1) / n >= 0) by (nonlinear_arith)
                requires
                    t >= 0,
                    n > 0,
            ;
        }
    }
}

/// A string that repeats one character has entropy 0.
pub proof fn lemma_entropy_uniform(s: Seq<char>)
    requires
        forall|i: int, j: int| 0 <= i < s.len() && 0 <= j < s.len() ==> s[i] == s[j],
    ensures
        entropy_of(s) == 0,
{
    if s.len() > 0 {
        lemma_uniform_sum(s, s.len());
        lemma_rounded_up(0, s.len() as int, 0);
    }
}

proof fn lemma_uniform_occurrences(s: Seq<char>, c: char)
    requires
        forall|i: int| 0 <= i < s.len() ==> s[i] == c,
    ensures
        occurrences(s, c) == s.len(),
    decreases s.len(),
{
    if s.len() > 0 {
        lemma_uniform_occurrences(s.drop_last(), c);
    }
}

proof fn lemma_uniform_sum(s: Seq<char>, k: nat)
    requires
        k <= s.len(),
        forall|i: int, j: int| 0 <= i < s.len() && 0 <= j < s.len() ==> s[i] == s[j],
    ensures
        surprisal_sum(s, k) == 0,
    decreases k,
{
    if k > 0 {
        lemma_uniform_sum(s, (k - 1) as nat);
        lemma_uniform_occurrences(s, s[k - 1]);
    }
}

/// One more doubling step allowed adds one bit, where the steps allowed
/// suffice to normalise the mantissa.
proof fn lemma_log2_shift(m: int, e: int)
    requires
        m > 0,
        e >= 0,
        m * pow2(e as nat) >= HALF,
    ensures
        log2_from(m, e + 1) == log2_from(m, e) + MICRO,
    decreases e,
{
    if m < HALF {
        lemma2_to64();
        if e == 0 {
            assert(m * pow2(0) == m) by (nonlinear_arith)
                requires
                    pow2(0) == 1,
            ;
        } else {
            lemma_pow2_unfold(e as nat);
            let p = pow2((e - 1) as nat) as int;
            assert((2 * m) * p == m * (2 * p)) by (nonlinear_arith);
            lemma_log2_shift(2 * m, e - 1);
        }
    }
}

/// Twice the argument has one bit more.
pub proof fn lemma_log2_double(x: int)
    requires
        0 < x,
    ensures
        log2_micro(2 * x) == log2_micro(x) + MICRO,
{
    if x >= HALF {
        assert((2 * x) / 2 == x);
        return ;
    }
    lemma2_to64_rest();
    let p = pow2(62) as int;
    assert((2 * x) * p >= HALF) by (nonlinear_arith)
        requires
            x >= 1,
            p == 0x4000_0000_0000_0000,
    ;
    lemma_log2_shift(2 * x, 62);
}

/// Two different characters cannot both fill more than half of a string.
pub proof fn lemma_occurrences_two(s: Seq<char>, a: char, b: char)
    requires
        a != b,
    ensures
        occurrences(s, a) + occurrences(s, b) <= s.len(),
    decreases s.len(),
{
    if s.len() > 0 {
        lemma_occurrences_two(s.drop_last(), a, b);
    }
}

/// The sum of the surprisals is at least each of them.
pub proof fn lemma_surprisal_sum_at_least(s: Seq<char>, k: nat, j: int)
    requires
        0 <= j < k <= s.len(),
    ensures
        surprisal_sum(s, k) >= surprisal(s, j),
    decreases k,
{
    lemma_surprisal_sum_bounds(s, (k - 1) as nat);
    lemma_surprisal_bounds(s, k - 1);
    if j < k - 1 {
        lemma_surprisal_sum_at_least(s, (k - 1) as nat, j);
    }
}

/// A string that holds two different characters has an entropy above 0,
/// and so above that of every string that repeats one character.
pub proof fn lemma_entropy_varied(s: Seq<char>, i: int, j: int)
    requires
        0 <= i < s.len(),
        0 <= j < s.len(),
        s[i] != s[j],
    ensures
        entropy_of(s) > 0,
{
    let n = s.len() as int;
    lemma_occurrences_two(s, s[i], s[j]);
    let at = if occurrences(s, s[i]) <= occurrences(s, s[j]) {
        i
    } else {
        j
    };
    let c = occurrences(s, s[at]) as int;
    lemma_occurrences_positive(s, at);
    assert(2 * c <= n);
    lemma_log2_double(c);
    lemma_log2_monotone(2 * c, n);
    assert(surprisal(s, at) >= MICRO);
    lemma_surprisal_sum_at_least(s, s.len(), at);
    let total = surprisal_sum(s, s.len());
    assert((total + n - 1) / n >= 1) by (nonlinear_arith)
        requires
            total >= 1,
            n > 0,
    ;
}

/// Binary logarithm of `x` in micro-bits; 0 for `x == 0`.
pub fn log2_fixed(x: u64) -> (r: u64)
    ensures
        r == log2_micro(x as int),
        r < 64 * MICRO,
{
    if x == 0 {
        return 0;
    }
    proof {
        lemma_log2_bounds(x as int);
    }
    let mut m: u64 = x;
    let mut e: u64 = 63;
    while m < HALF && e > 0
        invariant
            m >= 1,
            e <= 63,
            log2_from(m as int, e as int) == log2_micro(x as int),
        decreases e,
    {
        m = m * 2;
        e = e - 1;
    }
    let mut digits: u64 = 0;
    let mut cur: u64 = m;
    let mut k: u32 = FRACTION_DIGITS;
    proof {
        lemma_pow2_pos(20);
        lemma_fraction_digits_bounds(m as int, 20);
        lemma2_to64();
    }
    while k > 0
        invariant
            k <= FRACTION_DIGITS,
            fraction_digits(m as int, FRACTION_DIGITS as nat) == digits * pow2(k as nat)
                + fraction_digits(cur as int, k as nat),
            fraction_digits(m as int, FRACTION_DIGITS as nat) < 0x10_0000,
            digits < 0x10_0000,
        decreases k,
    {
        let wide: u128 = widen_square(cur);
        let sq: u128 = wide / (HALF as u128);
        proof {
            lemma_pow2_unfold(k as nat);
            lemma_pow2_pos((k - 1) as nat);
            lemma_fraction_digits_bounds(sq as int, (k - 1) as nat);
            lemma_fraction_digits_bounds(sq as int / 2, (k - 1) as nat);
            let p = pow2((k - 1) as nat) as int;
            let d = digits as int;
            assert(d * (2 * p) == (2 * d) * p) by (nonlinear_arith);
            assert((2 * d + 1) * p == (2 * d) * p + p) by (nonlinear_arith);
            assert(2 * d < 0x10_0000) by (nonlinear_arith)
                requires
                    (2 * d) * p < 0x10_0000,
                    p >= 1,
                    d >= 0,
            ;
            if sq >= 2 * HALF {
                assert(2 * d + 1 < 0x10_0000) by (nonlinear_arith)
                    requires
                        (2 * d + 1) * p < 0x10_0000,
                        p >= 1,
                        d >= 0,
                ;
            }
        }
        if sq >= 2 * (HALF as u128) {
            digits = 2 * digits + 1;
            cur = (sq / 2) as u64;
        } else {
            digits = 2 * digits;
            cur = sq as u64;
        }
        k = k - 1;
    }
    proof {
        lemma_scaled_fraction_bounds(m as int);
        lemma2_to64();
        assert(digits * pow2(0) == digits) by (nonlinear_arith)
            requires
                pow2(0) == 1,
        ;
    }
    e * MICRO + (digits * MICRO) / FRACTION_RANGE
}

/// The square of `m`, which always fits in 128 bits; below `2^128 / 2`
/// divided by `HALF` it is below `4 * HALF`.
fn widen_square(m: u64) -> (r: u128)
    ensures
        r == m * m,
        r / (HALF as u128) < 4 * HALF,
{
    proof {
        let x = m as int;
        assert(0 <= x * x <= 0xFFFF_FFFF_FFFF_FFFF * 0xFFFF_FFFF_FFFF_FFFF) by (nonlinear_arith)
            requires
                0 <= x <= 0xFFFF_FFFF_FFFF_FFFF,
        ;
        assert(0xFFFF_FFFF_FFFF_FFFFint * 0xFFFF_FFFF_FFFF_FFFFint
            == 0xFFFF_FFFF_FFFF_FFFE_0000_0000_0000_0001int);
        assert((x * x) / 0x8000_0000_0000_0000 < 0x2_0000_0000_0000_0000);
    }
    (m as u128) * (m as u128)
}

/// Some tally counts the character `c`.
pub open spec fn tallied(tallies: Seq<Tally>, c: char) -> bool {
    exists|i: int| 0 <= i < tallies.len() && tallies[i].symbol == c
}

/// One character and the number of times it has been seen.
pub struct Tally {
    pub symbol: char,
    pub count: usize,
}

/// Position of `c` among the symbols of `tallies`.
fn tally_position(tallies: &Vec<Tally>, c: char) -> (r: Option<usize>)
    ensures
        match r {
            Some(i) => i < tallies.len() && tallies[i as int].symbol == c,
            None => forall|i: int| 0 <= i < tallies.len() ==> tallies[i].symbol != c,
        },
{
    let mut i: usize = 0;
    while i < tallies.len()
        invariant
            i <= tallies.len(),
            forall|j: int| 0 <= j < i ==> tallies[j].symbol != c,
        decreases tallies.len() - i,
    {
        if tallies[i].symbol == c {
            return Some(i);
        }
        i += 1;
    }
    None
}

/// Counts how often each character of `s` occurs.  Every character of `s`
/// has exactly one tally.
pub fn tally_chars(s: &Vec<char>) -> (tallies: Vec<Tally>)
    ensures
        forall|i: int| 0 <= i < tallies.len() ==> tallies[i].count == occurrences(s@, tallies[i].symbol),
        forall|i: int| 0 <= i < tallies.len() ==> tallies[i].count >= 1,
        forall|j: int| 0 <= j < s.len() ==> tallied(tallies@, #[trigger] s@[j]),
        forall|i: int, j: int| 0 <= i < j < tallies.len() ==> tallies[i].symbol != tallies[j].symbol,
{
    let mut tallies: Vec<Tally> = Vec::new();
    let mut k: usize = 0;
    while k < s.len()
        invariant
            k <= s.len(),
            forall|i: int| 0 <= i < tallies.len() ==> tallies[i].count == occurrences(s@.take(k as int), tallies[i].symbol),
            forall|i: int| 0 <= i < tallies.len() ==> tallies[i].count >= 1,
            forall|j: int| 0 <= j < k ==> tallied(tallies@, #[trigger] s@[j]),
            forall|i: int, j: int| 0 <= i < j < tallies.len() ==> tallies[i].symbol != tallies[j].symbol,
        decreases s.len() - k,
    {
        let c = crate::text::char_at(s, k);
        let ghost before = tallies@;
        let ghost prefix = s@.take(k as int);
        let ghost longer = s@.take(k + 1);
        proof {
            assert(longer.drop_last() =~= prefix);
            assert(longer.last() == c);
        }
        match tally_position(&tallies, c) {
            Some(at) => {
                proof {
                    lemma_occurrences_bound(prefix, c);
                }
                let n = tallies[at].count;
                tallies.set(at, Tally { symbol: c, count: n + 1 });
                assert forall|j: int| 0 <= j < k + 1 implies tallied(tallies@, #[trigger] s@[j]) by {
                    if j < k {
                        assert(tallied(before, s@[j]));
                        let i = choose|i: int| 0 <= i < before.len() && before[i].symbol == s@[j];
                        assert(tallies@[i].symbol == s@[j]);
                    } else {
                        assert(tallies@[at as int].symbol == s@[j]);
                    }
                }
            },
            None => {
                proof {
                    assert forall|j: int| 0 <= j < prefix.len() implies prefix[j] != c by {
                        assert(tallied(before, s@[j]));
                    }
                    lemma_occurrences_absent(prefix, c);
                }
                tallies.push(Tally { symbol: c, count: 1 });
                assert forall|j: int| 0 <= j < k + 1 implies tallied(tallies@, #[trigger] s@[j]) by {
                    if j < k {
                        assert(tallied(before, s@[j]));
                        let i = choose|i: int| 0 <= i < before.len() && before[i].symbol == s@[j];
                        assert(tallies@[i].symbol == s@[j]);
                    } else {
                        assert(tallies@[before.len() as int].symbol == s@[j]);
                    }
                }
            },
        }
        k += 1;
    }
    assert(s@.take(s.len() as int) =~= s@);
    tallies
}

/// Shannon entropy of the characters `s`, in micro-bits per character,
/// rounded up.
pub fn entropy_of_chars(s: &Vec<char>) -> (r: u64)
    ensures
        r == entropy_of(s@),
        r <= 64 * MICRO,
{
    proof {
        lemma_entropy_bounds(s@);
    }
    if s.len() == 0 {
        return 0;
    }
    let n: u64 = s.len() as u64;
    let whole: u64 = log2_fixed(n);
    let tallies = tally_chars(s);
    let mut logs: Vec<u64> = Vec::new();
    let mut i: usize = 0;
    while i < tallies.len()
        invariant
            i <= tallies.len(),
            logs.len() == i,
            forall|t: int| 0 <= t < tallies.len() ==> tallies[t].count == occurrences(s@, tallies[t].symbol),
            forall|t: int| 0 <= t < tallies.len() ==> tallies[t].count >= 1,
            forall|t: int| 0 <= t < i ==> logs[t] == log2_micro(occurrences(s@, tallies[t].symbol) as int),
        decreases tallies.len() - i,
    {
        logs.push(log2_fixed(tallies[i].count as u64));
        i += 1;
    }
    let mut total: u128 = 0;
    let mut j: usize = 0;
    while j < s.len()
        invariant
            j <= s.len(),
            s.len() >= 1,
            logs.len() == tallies.len(),
            whole == log2_micro(s.len() as int),
            total == surprisal_sum(s@, j as nat),
            forall|p: int| 0 <= p < s.len() ==> tallied(tallies@, #[trigger] s@[p]),
            forall|t: int| 0 <= t < tallies.len() ==> logs[t] == log2_micro(occurrences(s@, tallies[t].symbol) as int),
        decreases s.len() - j,
    {
        proof {
            lemma_surprisal_sum_bounds(s@, j as nat);
            lemma_surprisal_sum_bounds(s@, (j + 1) as nat);
            lemma_surprisal_bounds(s@, j as int);
            assert(j * (64 * MICRO) <= usize::MAX * (64 * MICRO)) by (nonlinear_arith)
                requires
                    j <= usize::MAX,
            ;
        }
        match tally_position(&tallies, s[j]) {
            Some(t) => {
                total = total + (whole - logs[t]) as u128;
            },
            None => {
                proof {
                    assert(tallied(tallies@, s@[j as int]));
                    assert(false);
                }
            },
        }
        j += 1;
    }
    proof {
        lemma_surprisal_sum_bounds(s@, s.len() as nat);
        lemma_rounded_up(total as int, s.len() as int, 64 * MICRO);
        assert(s.len() * (64 * MICRO) <= usize::MAX * (64 * MICRO)) by (nonlinear_arith)
            requires
                s.len() <= usize::MAX,
        ;
    }
    ((total + (n as u128 - 1)) / (n as u128)) as u64
}

/// Shannon entropy of `value`, in micro-bits per character, rounded up.
pub fn shannon_entropy(value: &str) -> (r: u64)
    ensures
        r == entropy_of(value@),
        r <= 64 * MICRO,
{
    let chars = crate::text::chars_of(value);
    entropy_of_chars(&chars)
}

} // verus!
