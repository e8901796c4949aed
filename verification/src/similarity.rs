//! How alike two tracked strings are.
//!
//! The similarity of two entries is the mean of up to four factors, each a
//! fraction between 0 and 1: the share of common files, the share of common
//! categories, the closeness of the entropies, and the ratio of the
//! lengths.  The first three count only where they apply.
//!
//! The factors are kept as fractions and added exactly, so whether a mean
//! is above a threshold is decided on the mean itself.  Only the score that
//! is reported is rounded: it is the mean in millionths, rounded up, so
//! that `1_000_000` stands for 1 and only a mean of 0 is reported as 0.

use vstd::prelude::*;
use crate::entropy::rounded_up;
use crate::labels::{count_shared, shared_count, texts};
use crate::model::{byte_len, length_in_bytes, EntryModel, StringEntry};
use crate::wide::{limit, Wide};

verus! {

/// The score that stands for 1.
pub const SCORE_SCALE: u64 = 1_000_000;

/// Strings are related when their score is above this: 0.3.
pub const RELATED_THRESHOLD: u64 = 300_000;

/// Entropies are close when they differ by less than this: 0.5 bits.
pub const ENTROPY_WINDOW: u64 = 500_000;

pub open spec fn smaller(x: int, y: int) -> int {
    if x <= y {
        x
    } else {
        y
    }
}

pub open spec fn larger(x: int, y: int) -> int {
    if x <= y {
        y
    } else {
        x
    }
}

/// A fraction with a positive denominator.
pub struct Fraction {
    pub num: int,
    pub den: int,
}

/// `f` lies between 0 and 1.
pub open spec fn is_share(f: Fraction) -> bool {
    0 <= f.num <= f.den && f.den >= 1
}

/// Share of common texts: the number of texts of `a` that are in `b`, over
/// the length of the shorter list, and 1 at most.  `None` when no text is
/// common.
pub open spec fn overlap_part(a: Seq<Seq<char>>, b: Seq<Seq<char>>) -> Option<Fraction> {
    let shared = shared_count(a, b) as int;
    let least = smaller(a.len() as int, b.len() as int);
    if shared == 0 || least == 0 {
        None
    } else {
        Some(Fraction { num: smaller(shared, least), den: least })
    }
}

/// Closeness of two entropies: 1 when they are equal, falling to 0 as they
/// come to differ by the window.  `None` when they differ by the window or more.
pub open spec fn entropy_part(x: int, y: int) -> Option<Fraction> {
    let diff = larger(x, y) - smaller(x, y);
    if diff < ENTROPY_WINDOW {
        Some(Fraction { num: ENTROPY_WINDOW - diff, den: ENTROPY_WINDOW as int })
    } else {
        None
    }
}

/// Ratio of the shorter to the longer length; 0 when both are 0.
pub open spec fn length_part(x: int, y: int) -> Fraction {
    if larger(x, y) == 0 {
        Fraction { num: 0, den: 1 }
    } else {
        Fraction { num: smaller(x, y), den: larger(x, y) }
    }
}

/// The sum of `sum` and `part`, if there is one.
pub open spec fn with_part(sum: Fraction, part: Option<Fraction>) -> Fraction {
    match part {
        Some(p) => Fraction { num: sum.num * p.den + p.num * sum.den, den: sum.den * p.den },
        None => sum,
    }
}

/// What a factor adds to the number of factors.
pub open spec fn weight(part: Option<Fraction>) -> int {
    match part {
        Some(_) => 1,
        None => 0,
    }
}

/// The sum of the factors that apply to two entries.
pub open spec fn factor_sum(a: EntryModel, b: EntryModel) -> Fraction {
    with_part(
        with_part(
            with_part(
                length_part(byte_len(a.value) as int, byte_len(b.value) as int),
                overlap_part(a.unique_files, b.unique_files),
            ),
            overlap_part(a.categories, b.categories),
        ),
        entropy_part(a.entropy as int, b.entropy as int),
    )
}

/// The number of factors that apply to two entries, from 1 to 4.
pub open spec fn factor_count(a: EntryModel, b: EntryModel) -> int {
    1 + weight(overlap_part(a.unique_files, b.unique_files)) + weight(
        overlap_part(a.categories, b.categories),
    ) + weight(entropy_part(a.entropy as int, b.entropy as int))
}

/// The mean of the factors of two entries is above 0.3.
pub open spec fn is_related(a: EntryModel, b: EntryModel) -> bool {
    10 * factor_sum(a, b).num > 3 * (factor_count(a, b) * factor_sum(a, b).den)
}

/// The similarity score of two entries: the mean of their factors in
/// millionths, rounded up.
pub open spec fn similarity_of(a: EntryModel, b: EntryModel) -> int {
    rounded_up(factor_sum(a, b).num * SCORE_SCALE, factor_sum(a, b).den * factor_count(a, b))
}

/// Every factor lies between 0 and 1.
pub proof fn lemma_factor_bounds(a: EntryModel, b: EntryModel)
    ensures
        is_share(length_part(byte_len(a.value) as int, byte_len(b.value) as int)),
        overlap_part(a.unique_files, b.unique_files) is Some ==> is_share(
            overlap_part(a.unique_files, b.unique_files)->0,
        ),
        overlap_part(a.categories, b.categories) is Some ==> is_share(
            overlap_part(a.categories, b.categories)->0,
        ),
        entropy_part(a.entropy as int, b.entropy as int) is Some ==> is_share(
            entropy_part(a.entropy as int, b.entropy as int)->0,
        ),
{
}

/// Adding a factor to a sum of `k` factors gives a sum of one more.
proof fn lemma_with_part(sum: Fraction, part: Option<Fraction>, k: int)
    requires
        0 <= sum.num <= k * sum.den,
        sum.den >= 1,
        k >= 0,
        part is Some ==> is_share(part->0),
    ensures
        0 <= with_part(sum, part).num <= (k + weight(part)) * with_part(sum, part).den,
        with_part(sum, part).den >= 1,
{
    if let Some(p) = part {
        let n = sum.num;
        let d = sum.den;
        assert(n * p.den + p.num * d >= 0) by (nonlinear_arith)
            requires
                n >= 0,
                d >= 1,
                p.num >= 0,
                p.den >= 1,
        ;
        assert(n * p.den + p.num * d <= (k + 1) * (d * p.den)) by (nonlinear_arith)
            requires
                0 <= n <= k * d,
                d >= 1,
                0 <= p.num <= p.den,
        ;
        assert(d * p.den >= 1) by (nonlinear_arith)
            requires
                d >= 1,
                p.den >= 1,
        ;
    }
}

/// The sum of the factors lies between 0 and their number.
pub proof fn lemma_factor_sum(a: EntryModel, b: EntryModel)
    ensures
        1 <= factor_count(a, b) <= 4,
        factor_sum(a, b).den >= 1,
        0 <= factor_sum(a, b).num <= factor_count(a, b) * factor_sum(a, b).den,
{
    let length = length_part(byte_len(a.value) as int, byte_len(b.value) as int);
    let files = overlap_part(a.unique_files, b.unique_files);
    let categories = overlap_part(a.categories, b.categories);
    let entropy = entropy_part(a.entropy as int, b.entropy as int);
    lemma_with_part(length, files, 1);
    let one = with_part(length, files);
    lemma_with_part(one, categories, 1 + weight(files));
    let two = with_part(one, categories);
    lemma_with_part(two, entropy, 1 + weight(files) + weight(categories));
}

/// A quotient rounded up is above a whole number exactly when the
/// dividend is above that number of divisors.
pub proof fn lemma_rounded_up_above(total: int, parts: int, mark: int)
    requires
        parts > 0,
    ensures
        rounded_up(total, parts) > mark <==> total > mark * parts,
{
    if total > mark * parts {
        assert((total + parts - 1) / parts > mark) by (nonlinear_arith)
            requires
                total > mark * parts,
                parts > 0,
        ;
    } else {
        assert((total + parts - 1) / parts <= mark) by (nonlinear_arith)
            requires
                total <= mark * parts,
                parts > 0,
        ;
    }
}

/// The score lies between 0 and 1, and is 0 only where every factor is 0.
pub proof fn lemma_similarity_bounds(a: EntryModel, b: EntryModel)
    ensures
        0 <= similarity_of(a, b) <= SCORE_SCALE,
        similarity_of(a, b) == 0 <==> factor_sum(a, b).num == 0,
{
    lemma_factor_sum(a, b);
    let sum = factor_sum(a, b);
    let count = factor_count(a, b);
    let total = sum.num * SCORE_SCALE;
    let parts = sum.den * count;
    assert(parts > 0) by (nonlinear_arith)
        requires
            sum.den >= 1,
            count >= 1,
            parts == sum.den * count,
    ;
    assert(0 <= total <= parts * SCORE_SCALE) by (nonlinear_arith)
        requires
            0 <= sum.num <= count * sum.den,
            total == sum.num * SCORE_SCALE,
            parts == sum.den * count,
    ;
    crate::entropy::lemma_rounded_up(total, parts, SCORE_SCALE as int);
    assert(total == 0 <==> sum.num == 0) by (nonlinear_arith)
        requires
            total == sum.num * 1_000_000,
    ;
}

/// The score is above the threshold exactly when the mean of the factors
/// is above 0.3: rounding does not decide which strings are related.
pub proof fn lemma_threshold_exact(a: EntryModel, b: EntryModel)
    ensures
        similarity_of(a, b) > RELATED_THRESHOLD <==> is_related(a, b),
{
    lemma_factor_sum(a, b);
    let sum = factor_sum(a, b);
    let count = factor_count(a, b);
    let parts = sum.den * count;
    assert(parts > 0) by (nonlinear_arith)
        requires
            sum.den >= 1,
            count >= 1,
            parts == sum.den * count,
    ;
    lemma_rounded_up_above(sum.num * SCORE_SCALE, parts, RELATED_THRESHOLD as int);
    assert(sum.num * 1_000_000 > 300_000 * parts <==> 10 * sum.num > 3 * (count * sum.den))
        by (nonlinear_arith)
        requires
            parts == sum.den * count,
    ;
}

/// Where two entries have no file and no category in common and their
/// entropies are not close, the ratio of the lengths alone decides: they
/// are related exactly when ten times the shorter length is above three
/// times the longer.
pub proof fn lemma_length_alone(a: EntryModel, b: EntryModel)
    requires
        overlap_part(a.unique_files, b.unique_files) is None,
        overlap_part(a.categories, b.categories) is None,
        entropy_part(a.entropy as int, b.entropy as int) is None,
    ensures
        factor_count(a, b) == 1,
        factor_sum(a, b) == length_part(byte_len(a.value) as int, byte_len(b.value) as int),
        is_related(a, b) <==> 10 * smaller(byte_len(a.value) as int, byte_len(b.value) as int) > 3
            * larger(byte_len(a.value) as int, byte_len(b.value) as int),
        similarity_of(a, b) > RELATED_THRESHOLD <==> is_related(a, b),
{
    lemma_threshold_exact(a, b);
    let length = length_part(byte_len(a.value) as int, byte_len(b.value) as int);
    assert(factor_sum(a, b) == length);
    assert(1 * length.den == length.den);
}

/// The score is symmetric where neither list of an entry repeats a text.
pub proof fn lemma_similarity_symmetric(a: EntryModel, b: EntryModel)
    requires
        a.unique_files.no_duplicates(),
        b.unique_files.no_duplicates(),
        a.categories.no_duplicates(),
        b.categories.no_duplicates(),
    ensures
        similarity_of(a, b) == similarity_of(b, a),
        is_related(a, b) == is_related(b, a),
{
    lemma_shared_symmetric(a.unique_files, b.unique_files);
    lemma_shared_symmetric(a.categories, b.categories);
}

/// Two lists without repetitions share as many texts one way as the other.
pub proof fn lemma_shared_symmetric(a: Seq<Seq<char>>, b: Seq<Seq<char>>)
    requires
        a.no_duplicates(),
        b.no_duplicates(),
    ensures
        shared_count(a, b) == shared_count(b, a),
    decreases a.len(),
{
    if a.len() == 0 {
        lemma_shared_none(b, a);
    } else {
        let x = a.last();
        let rest = a.drop_last();
        lemma_shared_symmetric(rest, b);
        assert(!rest.contains(x)) by {
            if rest.contains(x) {
                let i = choose|i: int| 0 <= i < rest.len() && rest[i] == x;
                assert(a[i] == a[a.len() - 1]);
            }
        }
        lemma_shared_extend(b, rest, x);
        assert(rest.push(x) =~= a);
    }
}

proof fn lemma_shared_none(a: Seq<Seq<char>>, b: Seq<Seq<char>>)
    requires
        b.len() == 0,
    ensures
        shared_count(a, b) == 0,
    decreases a.len(),
{
    if a.len() > 0 {
        lemma_shared_none(a.drop_last(), b);
    }
}

/// Adding a new text `x` to the second list raises the count by one exactly
/// when the first list, which holds nothing twice, holds `x`.
proof fn lemma_shared_extend(a: Seq<Seq<char>>, b: Seq<Seq<char>>, x: Seq<char>)
    requires
        a.no_duplicates(),
        !b.contains(x),
    ensures
        shared_count(a, b.push(x)) == shared_count(a, b) + if a.contains(x) {
            1nat
        } else {
            0nat
        },
    decreases a.len(),
{
    if a.len() > 0 {
        let rest = a.drop_last();
        let y = a.last();
        lemma_shared_extend(rest, b, x);
        assert(b.push(x).contains(y) <==> b.contains(y) || y == x) by {
            if b.contains(y) {
                let i = choose|i: int| 0 <= i < b.len() && b[i] == y;
                assert(b.push(x)[i] == y);
            }
            if y == x {
                assert(b.push(x)[b.len() as int] == x);
            }
            if b.push(x).contains(y) {
                let i = choose|i: int| 0 <= i < b.push(x).len() && b.push(x)[i] == y;
                if i < b.len() {
                    assert(b[i] == y);
                }
            }
        }
        assert(a.contains(x) <==> rest.contains(x) || y == x) by {
            if rest.contains(x) {
                let i = choose|i: int| 0 <= i < rest.len() && rest[i] == x;
                assert(a[i] == x);
            }
            if y == x {
                assert(a[a.len() - 1] == x);
            }
            if a.contains(x) {
                let i = choose|i: int| 0 <= i < a.len() && a[i] == x;
                if i < rest.len() {
                    assert(rest[i] == x);
                }
            }
        }
        if y == x {
            assert(!rest.contains(x)) by {
                if rest.contains(x) {
                    let i = choose|i: int| 0 <= i < rest.len() && rest[i] == x;
                    assert(a[i] == a[a.len() - 1]);
                }
            }
        }
    }
}

/// `2^64`, `2^128`, `2^192`: bounds on products of one, two and three
/// machine integers.
pub open spec fn bound_one() -> int {
    0x1_0000_0000_0000_0000int
}

pub open spec fn bound_two() -> int {
    0x1_0000_0000_0000_0000_0000_0000_0000_0000int
}

pub open spec fn bound_three() -> int {
    0x1_0000_0000_0000_0000_0000_0000_0000_0000_0000_0000_0000_0000int
}

/// A product of bounded numbers is bounded by the product of the bounds.
proof fn lemma_product_bound(x: int, x_most: int, y: int, y_most: int)
    requires
        0 <= x <= x_most,
        0 <= y <= y_most,
    ensures
        0 <= x * y <= x_most * y_most,
{
    assert(0 <= x * y <= x_most * y_most) by (nonlinear_arith)
        requires
            0 <= x <= x_most,
            0 <= y <= y_most,
    ;
}

/// A fraction of machine integers.
struct Share {
    num: u64,
    den: u64,
}

/// The fraction that an optional share stands for.
spec fn part_of(share: Option<Share>) -> Option<Fraction> {
    match share {
        Some(p) => Some(Fraction { num: p.num as int, den: p.den as int }),
        None => None,
    }
}

/// The share of common strings of two lists, if they have any in common.
fn overlap(a: &Vec<String>, b: &Vec<String>) -> (r: Option<Share>)
    ensures
        part_of(r) == overlap_part(texts(a@), texts(b@)),
        r is Some ==> 1 <= r->0.num <= r->0.den,
{
    let shared = count_shared(a, b);
    let least = if a.len() <= b.len() {
        a.len()
    } else {
        b.len()
    };
    if shared == 0 || least == 0 {
        return None;
    }
    let part = if shared <= least {
        shared
    } else {
        least
    };
    Some(Share { num: part as u64, den: least as u64 })
}

/// The product of a wide number and a machine integer that fits.
fn product(w: &Wide, k: u64) -> (r: Wide)
    requires
        w@ * k < limit(),
    ensures
        r@ == w@ * k,
{
    match w.times(k) {
        Some(p) => p,
        None => Wide::from_u64(0),
    }
}

/// The sum of the fraction `num / den` and, if there is one, the fraction
/// of `part`.
fn add_part(num: Wide, den: Wide, part: Option<Share>, Ghost(most): Ghost<int>) -> (r: (
    Wide,
    Wide,
))
    requires
        1 <= den@ <= most,
        0 <= num@ <= 3 * den@,
        most <= bound_two(),
        part is Some ==> 1 <= part->0.num <= part->0.den,
    ensures
        r.0@ == with_part((Fraction { num: num@, den: den@ }), part_of(part)).num,
        r.1@ == with_part((Fraction { num: num@, den: den@ }), part_of(part)).den,
        r.1@ <= most * bound_one(),
{
    match part {
        Some(share) => {
            let n = share.num;
            let d = share.den;
            proof {
                lemma_product_bound(den@, most, d as int, bound_one());
                lemma_product_bound(num@, 3 * most, d as int, bound_one());
                lemma_product_bound(den@, most, n as int, bound_one());
                lemma_product_bound(most, bound_two(), 1, 1);
                assert(bound_two() * bound_one() == bound_three());
                assert(most * bound_one() <= bound_three()) by (nonlinear_arith)
                    requires
                        most <= bound_two(),
                        bound_two() * bound_one() == bound_three(),
                        bound_one() >= 0,
                ;
                assert(den@ * n == n * den@) by (nonlinear_arith);
            }
            let left = product(&num, d);
            let right = product(&den, n);
            let below = product(&den, d);
            match left.plus(&right) {
                Some(above) => (above, below),
                None => (left, below),
            }
        },
        None => {
            proof {
                lemma_product_bound(den@, most, 1, bound_one());
            }
            (num, den)
        },
    }
}

/// The quotient of `num * SCORE_SCALE` by `den * count`, rounded up, where
/// the fraction is a sum of `count` factors.
fn mean_in_millionths(num: &Wide, den: &Wide, count: u64) -> (q: u64)
    requires
        1 <= count <= 4,
        1 <= den@ <= bound_three() * ENTROPY_WINDOW,
        0 <= num@ <= count * den@,
    ensures
        q == rounded_up(num@ * SCORE_SCALE, den@ * count),
        q <= SCORE_SCALE,
{
    proof {
        lemma_product_bound(den@, bound_three() * ENTROPY_WINDOW, count as int, 4);
        lemma_product_bound(num@, 4 * (bound_three() * ENTROPY_WINDOW), SCORE_SCALE as int, SCORE_SCALE as int);
        assert(num@ <= 4 * den@) by (nonlinear_arith)
            requires
                num@ <= count * den@,
                count <= 4,
                den@ >= 0,
        ;
    }
    let parts = product(den, count);
    let total = product(num, SCORE_SCALE);
    proof {
        assert(total@ <= parts@ * SCORE_SCALE) by (nonlinear_arith)
            requires
                total@ == num@ * SCORE_SCALE,
                parts@ == den@ * count,
                0 <= num@ <= count * den@,
        ;
        assert(parts@ >= 1) by (nonlinear_arith)
            requires
                parts@ == den@ * count,
                den@ >= 1,
                count >= 1,
        ;
    }
    if total.is_zero() {
        proof {
            crate::entropy::lemma_rounded_up(0, parts@, 0);
        }
        return 0;
    }
    let mut low: u64 = 0;
    let mut high: u64 = SCORE_SCALE;
    while high - low > 1
        invariant
            low < high <= SCORE_SCALE,
            parts@ >= 1,
            parts@ <= (bound_three() * ENTROPY_WINDOW) * 4,
            low * parts@ < total@ <= high * parts@,
        decreases high - low,
    {
        let middle = low + (high - low) / 2;
        proof {
            lemma_product_bound(parts@, (bound_three() * ENTROPY_WINDOW) * 4, middle as int, SCORE_SCALE as int);
        }
        let reach = product(&parts, middle);
        if total.exceeds(&reach) {
            proof {
                assert(parts@ * middle == middle * parts@) by (nonlinear_arith);
            }
            low = middle;
        } else {
            proof {
                assert(parts@ * middle == middle * parts@) by (nonlinear_arith);
            }
            high = middle;
        }
    }
    proof {
        lemma_rounded_up_is(total@, parts@, high as int);
    }
    high
}

/// The quotient rounded up is the one number whose multiples of the
/// divisor enclose the dividend.
proof fn lemma_rounded_up_is(total: int, parts: int, q: int)
    requires
        parts > 0,
        (q - 1) * parts < total <= q * parts,
    ensures
        rounded_up(total, parts) == q,
{
    lemma_rounded_up_above(total, parts, q - 1);
    lemma_rounded_up_above(total, parts, q);
}

/// The similarity score of `a` and `b`, between 0 and `SCORE_SCALE`; it is
/// above `RELATED_THRESHOLD` exactly when the mean of the factors is above
/// 0.3.
pub fn similarity(a: &StringEntry, b: &StringEntry) -> (score: u64)
    ensures
        score == similarity_of(a@, b@),
        score <= SCORE_SCALE,
        score > RELATED_THRESHOLD <==> is_related(a@, b@),
{
    proof {
        lemma_similarity_bounds(a@, b@);
        lemma_threshold_exact(a@, b@);
        lemma_factor_sum(a@, b@);
    }
    let len_a = length_in_bytes(&a.value);
    let len_b = length_in_bytes(&b.value);
    let (short, long) = if len_a <= len_b {
        (len_a, len_b)
    } else {
        (len_b, len_a)
    };
    let (num, den) = if long == 0 {
        (Wide::from_u64(0), Wide::from_u64(1))
    } else {
        (Wide::from_u64(short as u64), Wide::from_u64(long as u64))
    };
    let mut count: u64 = 1;
    let files = overlap(&a.unique_files, &b.unique_files);
    if files.is_some() {
        count = count + 1;
    }
    let ghost length = length_part(byte_len(a@.value) as int, byte_len(b@.value) as int);
    let ghost files_part = overlap_part(a@.unique_files, b@.unique_files);
    proof {
        lemma_with_part(length, files_part, 1);
    }
    let (num, den) = add_part(num, den, files, Ghost(bound_one()));
    let categories = overlap(&a.categories, &b.categories);
    if categories.is_some() {
        count = count + 1;
    }
    let ghost categories_part = overlap_part(a@.categories, b@.categories);
    proof {
        lemma_with_part(
            with_part(length, files_part),
            categories_part,
            1 + weight(files_part),
        );
        assert(bound_one() * bound_one() == bound_two());
    }
    let (num, den) = add_part(num, den, categories, Ghost(bound_two()));
    let diff = if a.entropy <= b.entropy {
        b.entropy - a.entropy
    } else {
        a.entropy - b.entropy
    };
    let ghost two = with_part(with_part(length, files_part), categories_part);
    let ghost entropy = entropy_part(a@.entropy as int, b@.entropy as int);
    proof {
        lemma_with_part(two, entropy, 1 + weight(files_part) + weight(categories_part));
        assert(bound_two() * bound_one() == bound_three());
    }
    let (num, den) = if diff < ENTROPY_WINDOW {
        count = count + 1;
        proof {
            lemma_product_bound(den@, bound_three(), ENTROPY_WINDOW as int, ENTROPY_WINDOW as int);
            lemma_product_bound(num@, 3 * bound_three(), ENTROPY_WINDOW as int, ENTROPY_WINDOW as int);
            lemma_product_bound(den@, bound_three(), (ENTROPY_WINDOW - diff) as int, ENTROPY_WINDOW as int);
            assert(den@ * (ENTROPY_WINDOW - diff) == (ENTROPY_WINDOW - diff) * den@)
                by (nonlinear_arith);
        }
        let left = product(&num, ENTROPY_WINDOW);
        let right = product(&den, ENTROPY_WINDOW - diff);
        let below = product(&den, ENTROPY_WINDOW);
        match left.plus(&right) {
            Some(above) => (above, below),
            None => (left, below),
        }
    } else {
        proof {
            lemma_product_bound(den@, bound_three(), 1, ENTROPY_WINDOW as int);
        }
        (num, den)
    };
    mean_in_millionths(&num, &den, count)
}

} // verus!
