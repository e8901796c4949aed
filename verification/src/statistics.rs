//! Statistics over the entries that a filter accepts.
//!
//! Everything is stated over the selection: the positions of the accepted
//! entries, in the order of the entries.

use vstd::prelude::*;
use vstd::hash_set::StringHashSet;
use crate::filter::{accepts, matches_filter};
use crate::model::{
    byte_len, entry_models, length_in_bytes, EntryModel, StringEntry, StringFilter,
    StringStatistics,
};
use crate::labels::texts;
use crate::ranking::{is_ranking, lemma_top_ranked, positions, ranks_before, top_k, top_ranked};

verus! {

/// Number of strings listed as most common.
pub const MOST_COMMON_LIMIT: usize = 100;

/// Number of strings listed as suspicious.
pub const SUSPICIOUS_LIMIT: usize = 50;

/// Number of strings listed for their high entropy.
pub const HIGH_ENTROPY_LIMIT: usize = 50;

/// Entropy above which a string is listed for its high entropy: 4 bits.
pub const HIGH_ENTROPY_FLOOR: u64 = 4_000_000;

/// Positions of the entries among the first `n` that the filter accepts.
pub open spec fn accepted(entries: Seq<EntryModel>, filter: Option<&StringFilter>, n: nat) -> Seq<
    int,
>
    decreases n,
{
    if n == 0 {
        Seq::empty()
    } else {
        let rest = accepted(entries, filter, (n - 1) as nat);
        if accepts(filter, entries[n - 1]) {
            rest.push(n - 1)
        } else {
            rest
        }
    }
}

/// Positions of the entries that the filter accepts.
pub open spec fn selection(entries: Seq<EntryModel>, filter: Option<&StringFilter>) -> Seq<int> {
    accepted(entries, filter, entries.len())
}

/// Sum of the sightings of the selected entries.
pub open spec fn total_sightings(entries: Seq<EntryModel>, sel: Seq<int>) -> nat
    decreases sel.len(),
{
    if sel.len() == 0 {
        0
    } else {
        total_sightings(entries, sel.drop_last()) + entries[sel.last()].total_occurrences
    }
}

/// `n` as a machine integer, or the largest machine integer if `n` is larger.
pub open spec fn clipped(n: nat) -> usize {
    if n > usize::MAX {
        usize::MAX
    } else {
        n as usize
    }
}

/// The files in which the selected entries were seen.
pub open spec fn file_set(entries: Seq<EntryModel>, sel: Seq<int>) -> Set<Seq<char>>
    decreases sel.len(),
{
    if sel.len() == 0 {
        Set::empty()
    } else {
        file_set(entries, sel.drop_last()).union(entries[sel.last()].unique_files.to_set())
    }
}

/// The numbers of sightings of the selected entries.
pub open spec fn sighting_keys(entries: Seq<EntryModel>, sel: Seq<int>) -> Seq<u64> {
    Seq::new(sel.len(), |j: int| entries[sel[j]].total_occurrences as u64)
}

/// The selected entries seen most often, with their numbers of sightings:
/// most sightings first, equal numbers in the order of the entries.
pub open spec fn most_common_of(entries: Seq<EntryModel>, sel: Seq<int>) -> Seq<
    (Seq<char>, usize),
> {
    let ranks = top_ranked(sighting_keys(entries, sel), sel.len(), MOST_COMMON_LIMIT as nat);
    Seq::new(
        ranks.len(),
        |j: int| (entries[sel[ranks[j]]].value, entries[sel[ranks[j]]].total_occurrences as usize),
    )
}

/// The values of the selected entries that are suspicious.
pub open spec fn suspects(entries: Seq<EntryModel>, sel: Seq<int>) -> Seq<Seq<char>>
    decreases sel.len(),
{
    if sel.len() == 0 {
        Seq::empty()
    } else {
        let rest = suspects(entries, sel.drop_last());
        if entries[sel.last()].is_suspicious {
            rest.push(entries[sel.last()].value)
        } else {
            rest
        }
    }
}

/// The first `k` items of `s`, or all of `s` if it has fewer.
pub open spec fn first_of<T>(s: Seq<T>, k: nat) -> Seq<T> {
    if s.len() <= k {
        s
    } else {
        s.take(k as int)
    }
}

/// Positions of the selected entries whose entropy is above the floor.
pub open spec fn high_entropy_positions(entries: Seq<EntryModel>, sel: Seq<int>) -> Seq<int>
    decreases sel.len(),
{
    if sel.len() == 0 {
        Seq::empty()
    } else {
        let rest = high_entropy_positions(entries, sel.drop_last());
        if entries[sel.last()].entropy > HIGH_ENTROPY_FLOOR {
            rest.push(sel.last())
        } else {
            rest
        }
    }
}

/// The entropies of the entries at the positions `sel`.
pub open spec fn entropy_keys(entries: Seq<EntryModel>, sel: Seq<int>) -> Seq<u64> {
    Seq::new(sel.len(), |j: int| entries[sel[j]].entropy as u64)
}

/// The selected entries of highest entropy above the floor, with their
/// entropies: highest first, equal entropies in the order of the entries.
pub open spec fn high_entropy_of(entries: Seq<EntryModel>, sel: Seq<int>) -> Seq<(Seq<char>, u64)> {
    let hot = high_entropy_positions(entries, sel);
    let ranks = top_ranked(entropy_keys(entries, hot), hot.len(), HIGH_ENTROPY_LIMIT as nat);
    Seq::new(
        ranks.len(),
        |j: int| (entries[hot[ranks[j]]].value, entries[hot[ranks[j]]].entropy as u64),
    )
}

/// Some count of `tally` is for `label`.
pub open spec fn has_label(tally: Seq<(Seq<char>, usize)>, label: Seq<char>) -> bool {
    exists|i: int| 0 <= i < tally.len() && tally[i].0 == label
}

/// Position of the count for `label`.
pub open spec fn position_of_label(tally: Seq<(Seq<char>, usize)>, label: Seq<char>) -> int {
    choose|i: int| 0 <= i < tally.len() && tally[i].0 == label
}

/// No two counts of `tally` are for the same label.
pub open spec fn labels_unique(tally: Seq<(Seq<char>, usize)>) -> bool {
    forall|i: int, j: int| 0 <= i < j < tally.len() ==> tally[i].0 != tally[j].0
}

/// One more, short of overflow.
pub open spec fn one_more(n: usize) -> usize {
    if n < usize::MAX {
        (n + 1) as usize
    } else {
        n
    }
}

/// `tally` with one more counted for `label`; a label not counted before
/// comes last.
pub open spec fn bumped(tally: Seq<(Seq<char>, usize)>, label: Seq<char>) -> Seq<
    (Seq<char>, usize),
> {
    if has_label(tally, label) {
        let at = position_of_label(tally, label);
        tally.update(at, (label, one_more(tally[at].1)))
    } else {
        tally.push((label, 1usize))
    }
}

/// `tally` with one more counted for each of `labels`.
pub open spec fn bumped_all(tally: Seq<(Seq<char>, usize)>, labels: Seq<Seq<char>>) -> Seq<
    (Seq<char>, usize),
>
    decreases labels.len(),
{
    if labels.len() == 0 {
        tally
    } else {
        bumped(bumped_all(tally, labels.drop_last()), labels.last())
    }
}

/// For each category, the number of selected entries that have it, in the
/// order in which the categories are first met.
pub open spec fn category_tally(entries: Seq<EntryModel>, sel: Seq<int>) -> Seq<(Seq<char>, usize)>
    decreases sel.len(),
{
    if sel.len() == 0 {
        Seq::empty()
    } else {
        bumped_all(category_tally(entries, sel.drop_last()), entries[sel.last()].categories)
    }
}

/// The bucket of a string of `len` bytes.
pub open spec fn bucket_label(len: usize) -> Seq<char> {
    if len <= 10 {
        "0-10"@
    } else if len <= 20 {
        "11-20"@
    } else if len <= 50 {
        "21-50"@
    } else if len <= 100 {
        "51-100"@
    } else if len <= 200 {
        "101-200"@
    } else {
        "200+"@
    }
}

/// For each length bucket, the number of selected entries in it, in the
/// order in which the buckets are first met.
pub open spec fn length_tally(entries: Seq<EntryModel>, sel: Seq<int>) -> Seq<(Seq<char>, usize)>
    decreases sel.len(),
{
    if sel.len() == 0 {
        Seq::empty()
    } else {
        bumped(
            length_tally(entries, sel.drop_last()),
            bucket_label(byte_len(entries[sel.last()].value)),
        )
    }
}

/// The texts and counts of a list of counted strings.
pub open spec fn counted(s: Seq<(String, usize)>) -> Seq<(Seq<char>, usize)> {
    Seq::new(s.len(), |i: int| (s[i].0@, s[i].1))
}

/// The texts and scores of a list of scored strings.
pub open spec fn scored(s: Seq<(String, u64)>) -> Seq<(Seq<char>, u64)> {
    Seq::new(s.len(), |i: int| (s[i].0@, s[i].1))
}

/// `stats` are the statistics of the entries that `filter` accepts.
pub open spec fn describes(
    stats: StringStatistics,
    entries: Seq<EntryModel>,
    filter: Option<&StringFilter>,
) -> bool {
    let sel = selection(entries, filter);
    &&& stats.total_unique_strings == sel.len()
    &&& stats.total_occurrences == clipped(total_sightings(entries, sel))
    &&& stats.total_files_analyzed == file_set(entries, sel).len()
    &&& counted(stats.most_common@) == most_common_of(entries, sel)
    &&& texts(stats.suspicious_strings@) == first_of(
        suspects(entries, sel),
        SUSPICIOUS_LIMIT as nat,
    )
    &&& scored(stats.high_entropy_strings@) == high_entropy_of(entries, sel)
    &&& counted(stats.category_distribution@) == category_tally(entries, sel)
    &&& counted(stats.length_distribution@) == length_tally(entries, sel)
}

/// The accepted positions are positions of the first `n` entries, in
/// increasing order, and are exactly those whose entry the filter accepts.
pub proof fn lemma_accepted(entries: Seq<EntryModel>, filter: Option<&StringFilter>, n: nat)
    ensures
        accepted(entries, filter, n).len() <= n,
        forall|j: int|
            0 <= j < accepted(entries, filter, n).len() ==> 0 <= #[trigger] accepted(
                entries,
                filter,
                n,
            )[j] < n && accepts(filter, entries[accepted(entries, filter, n)[j]]),
        forall|a: int, b: int|
            0 <= a < b < accepted(entries, filter, n).len() ==> accepted(entries, filter, n)[a]
                < accepted(entries, filter, n)[b],
        forall|i: int|
            0 <= i < n && accepts(filter, entries[i]) ==> accepted(entries, filter, n).contains(i),
    decreases n,
{
    if n > 0 {
        let rest = accepted(entries, filter, (n - 1) as nat);
        let all = accepted(entries, filter, n);
        lemma_accepted(entries, filter, (n - 1) as nat);
        assert forall|i: int| 0 <= i < n && accepts(filter, entries[i]) implies all.contains(
            i,
        ) by {
            if i < n - 1 {
                assert(rest.contains(i));
                let j = choose|j: int| 0 <= j < rest.len() && rest[j] == i;
                assert(all[j] == i);
            } else {
                assert(all[all.len() - 1] == i);
            }
        }
    }
}

/// A filter that accepts every entry selects every position.
pub proof fn lemma_accepted_all(entries: Seq<EntryModel>, filter: Option<&StringFilter>, n: nat)
    requires
        forall|i: int| 0 <= i < n ==> accepts(filter, #[trigger] entries[i]),
    ensures
        accepted(entries, filter, n) == Seq::new(n, |i: int| i),
    decreases n,
{
    if n > 0 {
        lemma_accepted_all(entries, filter, (n - 1) as nat);
        assert(accepted(entries, filter, n) =~= Seq::new(n, |i: int| i));
    }
}

/// Counting one more keeps the labels of a tally unique.
pub proof fn lemma_bumped_unique(tally: Seq<(Seq<char>, usize)>, label: Seq<char>)
    requires
        labels_unique(tally),
    ensures
        labels_unique(bumped(tally, label)),
        has_label(bumped(tally, label), label),
{
    let after = bumped(tally, label);
    if has_label(tally, label) {
        let at = position_of_label(tally, label);
        assert(after[at].0 == label);
    } else {
        assert(after[tally.len() as int].0 == label);
    }
}

/// Where labels are unique, the position of a label is the one place that holds it.
pub proof fn lemma_label_position(tally: Seq<(Seq<char>, usize)>, at: int)
    requires
        labels_unique(tally),
        0 <= at < tally.len(),
    ensures
        has_label(tally, tally[at].0),
        position_of_label(tally, tally[at].0) == at,
{
    let found = position_of_label(tally, tally[at].0);
    if found < at {
        assert(tally[found].0 != tally[at].0);
    } else if at < found {
        assert(tally[at].0 != tally[found].0);
    }
}

/// The count that `tally` holds for `label`; 0 if it holds none.
pub open spec fn count_of(tally: Seq<(Seq<char>, usize)>, label: Seq<char>) -> nat {
    if has_label(tally, label) {
        tally[position_of_label(tally, label)].1 as nat
    } else {
        0
    }
}

/// Number of the selected entries that have the category `label`.
pub open spec fn holders(entries: Seq<EntryModel>, sel: Seq<int>, label: Seq<char>) -> nat
    decreases sel.len(),
{
    if sel.len() == 0 {
        0
    } else {
        holders(entries, sel.drop_last(), label) + if entries[sel.last()].categories.contains(
            label,
        ) {
            1nat
        } else {
            0nat
        }
    }
}

/// Number of the selected entries whose length falls in the bucket `label`.
pub open spec fn bucket_members(entries: Seq<EntryModel>, sel: Seq<int>, label: Seq<char>) -> nat
    decreases sel.len(),
{
    if sel.len() == 0 {
        0
    } else {
        bucket_members(entries, sel.drop_last(), label) + if bucket_label(
            byte_len(entries[sel.last()].value),
        ) == label {
            1nat
        } else {
            0nat
        }
    }
}

/// Counting one more for a label adds one to its count, short of
/// overflow, and leaves the other counts as they were.
pub proof fn lemma_bumped_count(tally: Seq<(Seq<char>, usize)>, label: Seq<char>, other: Seq<char>)
    requires
        labels_unique(tally),
        count_of(tally, label) < usize::MAX,
    ensures
        count_of(bumped(tally, label), other) == count_of(tally, other) + if other == label {
            1nat
        } else {
            0nat
        },
{
    let after = bumped(tally, label);
    lemma_bumped_unique(tally, label);
    if has_label(tally, label) {
        let at = position_of_label(tally, label);
        assert(after[at].0 == label);
        lemma_label_position(after, at);
        if other != label {
            if has_label(tally, other) {
                let there = position_of_label(tally, other);
                assert(after[there] == tally[there]);
                lemma_label_position(after, there);
            } else {
                assert(!has_label(after, other)) by {
                    if has_label(after, other) {
                        let i = position_of_label(after, other);
                        assert(tally[i].0 == other);
                    }
                }
            }
        }
    } else {
        let last = tally.len() as int;
        assert(after[last].0 == label);
        lemma_label_position(after, last);
        if other != label {
            if has_label(tally, other) {
                let there = position_of_label(tally, other);
                assert(after[there] == tally[there]);
                lemma_label_position(after, there);
            } else {
                assert(!has_label(after, other)) by {
                    if has_label(after, other) {
                        let i = position_of_label(after, other);
                        assert(tally[i].0 == other);
                    }
                }
            }
        }
    }
}

/// Counting one more for each of a list of different labels adds one to
/// the count of each label of the list, short of overflow.
pub proof fn lemma_bumped_all_count(
    tally: Seq<(Seq<char>, usize)>,
    labels: Seq<Seq<char>>,
    other: Seq<char>,
)
    requires
        labels_unique(tally),
        labels.no_duplicates(),
        count_of(tally, other) + 1 < usize::MAX,
    ensures
        labels_unique(bumped_all(tally, labels)),
        count_of(bumped_all(tally, labels), other) == count_of(tally, other) + if labels.contains(
            other,
        ) {
            1nat
        } else {
            0nat
        },
    decreases labels.len(),
{
    if labels.len() > 0 {
        let rest = labels.drop_last();
        let last = labels.last();
        lemma_bumped_all_count(tally, rest, other);
        let before = bumped_all(tally, rest);
        assert(!rest.contains(last)) by {
            if rest.contains(last) {
                let i = choose|i: int| 0 <= i < rest.len() && rest[i] == last;
                assert(labels[i] == labels[labels.len() - 1]);
            }
        }
        lemma_bumped_unique(before, last);
        if other == last {
            lemma_bumped_count(before, last, other);
            assert(labels[labels.len() - 1] == other);
        } else {
            // The count of `last` may be at its ceiling; that of `other` is not touched.
            lemma_bumped_other(before, last, other);
            assert(labels.contains(other) <==> rest.contains(other)) by {
                if labels.contains(other) {
                    let i = choose|i: int| 0 <= i < labels.len() && labels[i] == other;
                    assert(rest[i] == other);
                }
                if rest.contains(other) {
                    let i = choose|i: int| 0 <= i < rest.len() && rest[i] == other;
                    assert(labels[i] == other);
                }
            }
        }
    }
}

/// Counting one more for a label leaves the counts of the other labels as
/// they were.
pub proof fn lemma_bumped_other(tally: Seq<(Seq<char>, usize)>, label: Seq<char>, other: Seq<char>)
    requires
        labels_unique(tally),
        other != label,
    ensures
        count_of(bumped(tally, label), other) == count_of(tally, other),
{
    let after = bumped(tally, label);
    lemma_bumped_unique(tally, label);
    if has_label(tally, other) {
        let there = position_of_label(tally, other);
        assert(after[there] == tally[there]);
        lemma_label_position(after, there);
    } else {
        assert(!has_label(after, other)) by {
            if has_label(after, other) {
                let i = position_of_label(after, other);
                if i < tally.len() {
                    assert(tally[i].0 == other);
                }
            }
        }
    }
}

/// The tally of the categories counts, for each category, the selected
/// entries that have it: as long as fewer than `usize::MAX` entries are
/// selected and none lists a category twice.
pub proof fn lemma_category_tally(entries: Seq<EntryModel>, sel: Seq<int>, label: Seq<char>)
    requires
        sel.len() + 1 < usize::MAX,
        forall|j: int| 0 <= j < sel.len() ==> (#[trigger] entries[sel[j]]).categories.no_duplicates(),
    ensures
        labels_unique(category_tally(entries, sel)),
        count_of(category_tally(entries, sel), label) == holders(entries, sel, label),
        holders(entries, sel, label) <= sel.len(),
    decreases sel.len(),
{
    if sel.len() > 0 {
        let rest = sel.drop_last();
        assert forall|j: int| 0 <= j < rest.len() implies (#[trigger] entries[rest[j]]).categories.no_duplicates() by {
            assert(rest[j] == sel[j]);
        }
        lemma_category_tally(entries, rest, label);
        assert(entries[sel[sel.len() - 1]].categories.no_duplicates());
        lemma_bumped_all_count(
            category_tally(entries, rest),
            entries[sel.last()].categories,
            label,
        );
    }
}

/// The tally of the lengths counts, for each bucket, the selected entries
/// in it: as long as fewer than `usize::MAX` entries are selected.
pub proof fn lemma_length_tally(entries: Seq<EntryModel>, sel: Seq<int>, label: Seq<char>)
    requires
        sel.len() < usize::MAX,
    ensures
        labels_unique(length_tally(entries, sel)),
        count_of(length_tally(entries, sel), label) == bucket_members(entries, sel, label),
        bucket_members(entries, sel, label) <= sel.len(),
    decreases sel.len(),
{
    if sel.len() > 0 {
        let rest = sel.drop_last();
        lemma_length_tally(entries, rest, label);
        let bucket = bucket_label(byte_len(entries[sel.last()].value));
        lemma_length_tally(entries, rest, bucket);
        lemma_bumped_unique(length_tally(entries, rest), bucket);
        if label == bucket {
            lemma_bumped_count(length_tally(entries, rest), bucket, label);
        } else {
            lemma_bumped_other(length_tally(entries, rest), bucket, label);
        }
    }
}

/// The list of the most common strings holds the 100 selected entries
/// seen most often, or all if fewer are selected, most sightings first.
pub proof fn lemma_most_common(entries: Seq<EntryModel>, sel: Seq<int>)
    requires
        forall|j: int|
            0 <= j < sel.len() ==> (#[trigger] entries[sel[j]]).total_occurrences <= usize::MAX,
    ensures
        most_common_of(entries, sel).len() == if sel.len() < MOST_COMMON_LIMIT {
            sel.len()
        } else {
            MOST_COMMON_LIMIT as nat
        },
        is_ranking(
            top_ranked(sighting_keys(entries, sel), sel.len(), MOST_COMMON_LIMIT as nat),
            sighting_keys(entries, sel),
            sel.len(),
            MOST_COMMON_LIMIT as nat,
        ),
        forall|a: int, b: int|
            0 <= a < b < most_common_of(entries, sel).len() ==> most_common_of(entries, sel)[a].1
                >= most_common_of(entries, sel)[b].1,
{
    let keys = sighting_keys(entries, sel);
    lemma_top_ranked(keys, sel.len(), MOST_COMMON_LIMIT as nat);
    let ranks = top_ranked(keys, sel.len(), MOST_COMMON_LIMIT as nat);
    let list = most_common_of(entries, sel);
    assert forall|a: int, b: int| 0 <= a < b < list.len() implies list[a].1 >= list[b].1 by {
        assert(ranks_before(keys, ranks[a], ranks[b]));
        assert(0 <= ranks[a] < sel.len() && 0 <= ranks[b] < sel.len());
        assert(keys[ranks[a]] == entries[sel[ranks[a]]].total_occurrences as u64);
        assert(keys[ranks[b]] == entries[sel[ranks[b]]].total_occurrences as u64);
    }
}

/// The list of the strings of high entropy holds the 50 selected entries
/// of highest entropy above the floor, or all of them if there are fewer,
/// highest first.
pub proof fn lemma_high_entropy(entries: Seq<EntryModel>, sel: Seq<int>)
    requires
        forall|j: int| 0 <= j < sel.len() ==> (#[trigger] entries[sel[j]]).entropy <= u64::MAX,
    ensures
        high_entropy_of(entries, sel).len() <= HIGH_ENTROPY_LIMIT,
        forall|a: int|
            0 <= a < high_entropy_of(entries, sel).len() ==> (#[trigger] high_entropy_of(
                entries,
                sel,
            )[a]).1 > HIGH_ENTROPY_FLOOR,
        forall|a: int, b: int|
            0 <= a < b < high_entropy_of(entries, sel).len() ==> high_entropy_of(entries, sel)[a].1
                >= high_entropy_of(entries, sel)[b].1,
{
    let hot = high_entropy_positions(entries, sel);
    lemma_high_entropy_positions(entries, sel);
    let keys = entropy_keys(entries, hot);
    lemma_top_ranked(keys, hot.len(), HIGH_ENTROPY_LIMIT as nat);
    let ranks = top_ranked(keys, hot.len(), HIGH_ENTROPY_LIMIT as nat);
    let list = high_entropy_of(entries, sel);
    assert forall|a: int| 0 <= a < list.len() implies (#[trigger] list[a]).1
        > HIGH_ENTROPY_FLOOR by {
        assert(0 <= ranks[a] < hot.len());
        let at = hot[ranks[a]];
        assert(entries[at].entropy > HIGH_ENTROPY_FLOOR);
    }
    assert forall|a: int, b: int| 0 <= a < b < list.len() implies list[a].1 >= list[b].1 by {
        assert(ranks_before(keys, ranks[a], ranks[b]));
        assert(0 <= ranks[a] < hot.len() && 0 <= ranks[b] < hot.len());
    }
}

/// Every position of high entropy is a selected position whose entry has
/// an entropy above the floor.
pub proof fn lemma_high_entropy_positions(entries: Seq<EntryModel>, sel: Seq<int>)
    ensures
        high_entropy_positions(entries, sel).len() <= sel.len(),
        forall|k: int|
            0 <= k < high_entropy_positions(entries, sel).len() ==> sel.contains(
                #[trigger] high_entropy_positions(entries, sel)[k],
            ) && entries[high_entropy_positions(entries, sel)[k]].entropy > HIGH_ENTROPY_FLOOR,
    decreases sel.len(),
{
    if sel.len() > 0 {
        let rest = sel.drop_last();
        lemma_high_entropy_positions(entries, rest);
        let all = high_entropy_positions(entries, sel);
        let before = high_entropy_positions(entries, rest);
        assert forall|k: int| 0 <= k < all.len() implies sel.contains(#[trigger] all[k])
            && entries[all[k]].entropy > HIGH_ENTROPY_FLOOR by {
            if k < before.len() {
                assert(all[k] == before[k]);
                let i = choose|i: int| 0 <= i < rest.len() && rest[i] == before[k];
                assert(sel[i] == all[k]);
            } else {
                assert(sel[sel.len() - 1] == all[k]);
            }
        }
    }
}

/// The positions of the entries that `filter` accepts.
pub fn select(entries: &Vec<StringEntry>, filter: Option<&StringFilter>) -> (sel: Vec<usize>)
    ensures
        positions(sel@) == selection(entry_models(entries@), filter),
        forall|j: int| 0 <= j < sel.len() ==> #[trigger] sel[j] < entries.len(),
{
    let ghost models = entry_models(entries@);
    let mut sel: Vec<usize> = Vec::new();
    let mut i: usize = 0;
    assert(positions(sel@) =~= Seq::<int>::empty());
    while i < entries.len()
        invariant
            i <= entries.len(),
            models == entry_models(entries@),
            positions(sel@) == accepted(models, filter, i as nat),
            forall|j: int| 0 <= j < sel.len() ==> #[trigger] sel[j] < i,
        decreases entries.len() - i,
    {
        let ghost before = positions(sel@);
        if matches_filter(&entries[i], filter) {
            sel.push(i);
            assert(positions(sel@) =~= before.push(i as int));
        }
        i += 1;
    }
    sel
}

/// Sum of the sightings of the selected entries, at most `usize::MAX`.
pub(crate) fn sum_sightings(entries: &Vec<StringEntry>, sel: &Vec<usize>) -> (total: usize)
    requires
        forall|j: int| 0 <= j < sel.len() ==> #[trigger] sel[j] < entries.len(),
    ensures
        total == clipped(total_sightings(entry_models(entries@), positions(sel@))),
{
    let ghost models = entry_models(entries@);
    let ghost all = positions(sel@);
    let mut total: usize = 0;
    let mut j: usize = 0;
    while j < sel.len()
        invariant
            j <= sel.len(),
            models == entry_models(entries@),
            all == positions(sel@),
            forall|k: int| 0 <= k < sel.len() ==> #[trigger] sel[k] < entries.len(),
            total == clipped(total_sightings(models, all.take(j as int))),
        decreases sel.len() - j,
    {
        proof {
            assert(all.take(j + 1).drop_last() =~= all.take(j as int));
            assert(all.take(j + 1).last() == sel[j as int]);
            assert(models[sel[j as int] as int] == entries[sel[j as int] as int]@);
        }
        total = total.saturating_add(entries[sel[j]].total_occurrences);
        j += 1;
    }
    assert(all.take(sel.len() as int) =~= all);
    total
}

/// Number of distinct files in which the selected entries were seen.
pub(crate) fn count_files(entries: &Vec<StringEntry>, sel: &Vec<usize>) -> (n: usize)
    requires
        forall|j: int| 0 <= j < sel.len() ==> #[trigger] sel[j] < entries.len(),
    ensures
        n == file_set(entry_models(entries@), positions(sel@)).len(),
{
    let ghost models = entry_models(entries@);
    let ghost all = positions(sel@);
    let mut seen = StringHashSet::new();
    let mut j: usize = 0;
    while j < sel.len()
        invariant
            j <= sel.len(),
            models == entry_models(entries@),
            all == positions(sel@),
            forall|k: int| 0 <= k < sel.len() ==> #[trigger] sel[k] < entries.len(),
            seen@ == file_set(models, all.take(j as int)),
        decreases sel.len() - j,
    {
        let files = &entries[sel[j]].unique_files;
        let ghost base = seen@;
        let ghost names = texts(files@);
        proof {
            assert(all.take(j + 1).drop_last() =~= all.take(j as int));
            assert(all.take(j + 1).last() == sel[j as int]);
            assert(models[sel[j as int] as int] == entries[sel[j as int] as int]@);
        }
        let mut k: usize = 0;
        assert(names.take(0).to_set() =~= Set::<Seq<char>>::empty());
        assert(base.union(Set::<Seq<char>>::empty()) =~= base);
        while k < files.len()
            invariant
                k <= files.len(),
                names == texts(files@),
                seen@ == base.union(names.take(k as int).to_set()),
            decreases files.len() - k,
        {
            let ghost before = seen@;
            seen.insert(files[k].clone());
            proof {
                let longer = names.take(k + 1);
                let shorter = names.take(k as int);
                assert(longer =~= shorter.push(names[k as int]));
                assert(longer.to_set() =~= shorter.to_set().insert(names[k as int])) by {
                    assert forall|x: Seq<char>| longer.to_set().contains(x) <==> shorter.to_set().insert(
                        names[k as int],
                    ).contains(x) by {
                        if longer.contains(x) {
                            let i = choose|i: int| 0 <= i < longer.len() && longer[i] == x;
                            if i < k {
                                assert(shorter[i] == x);
                            }
                        }
                        if shorter.contains(x) {
                            let i = choose|i: int| 0 <= i < shorter.len() && shorter[i] == x;
                            assert(longer[i] == x);
                        }
                        if x == names[k as int] {
                            assert(longer[k as int] == x);
                        }
                    }
                }
                assert(seen@ =~= base.union(longer.to_set()));
            }
            k += 1;
        }
        assert(names.take(files.len() as int) =~= names);
        j += 1;
    }
    assert(all.take(sel.len() as int) =~= all);
    seen.len()
}

/// The selected entries seen most often.
pub(crate) fn most_common(entries: &Vec<StringEntry>, sel: &Vec<usize>) -> (list: Vec<(String, usize)>)
    requires
        forall|j: int| 0 <= j < sel.len() ==> #[trigger] sel[j] < entries.len(),
    ensures
        counted(list@) == most_common_of(entry_models(entries@), positions(sel@)),
{
    let ghost models = entry_models(entries@);
    let ghost all = positions(sel@);
    let mut keys: Vec<u64> = Vec::new();
    let mut j: usize = 0;
    while j < sel.len()
        invariant
            j <= sel.len(),
            keys.len() == j,
            models == entry_models(entries@),
            all == positions(sel@),
            forall|k: int| 0 <= k < sel.len() ==> #[trigger] sel[k] < entries.len(),
            forall|k: int| 0 <= k < j ==> keys[k] == sighting_keys(models, all)[k],
        decreases sel.len() - j,
    {
        proof {
            assert(models[sel[j as int] as int] == entries[sel[j as int] as int]@);
        }
        keys.push(entries[sel[j]].total_occurrences as u64);
        j += 1;
    }
    assert(keys@ =~= sighting_keys(models, all));
    let ranks = top_k(&keys, MOST_COMMON_LIMIT);
    let ghost ranked = positions(ranks@);
    let mut list: Vec<(String, usize)> = Vec::new();
    let mut r: usize = 0;
    while r < ranks.len()
        invariant
            r <= ranks.len(),
            list.len() == r,
            models == entry_models(entries@),
            all == positions(sel@),
            ranked == positions(ranks@),
            keys.len() == sel.len(),
            ranked == top_ranked(sighting_keys(models, all), sel.len() as nat, MOST_COMMON_LIMIT as nat),
            is_ranking(ranked, keys@, keys.len() as nat, MOST_COMMON_LIMIT as nat),
            forall|k: int| 0 <= k < sel.len() ==> #[trigger] sel[k] < entries.len(),
            forall|k: int| 0 <= k < r ==> counted(list@)[k] == most_common_of(models, all)[k],
        decreases ranks.len() - r,
    {
        proof {
            assert(0 <= ranked[r as int] < keys.len());
            assert(ranked[r as int] == ranks[r as int]);
        }
        let at = sel[ranks[r]];
        proof {
            assert(models[at as int] == entries[at as int]@);
        }
        let ghost before = counted(list@);
        list.push((entries[at].value.clone(), entries[at].total_occurrences));
        assert(counted(list@) =~= before.push(
            (entries[at as int].value@, entries[at as int].total_occurrences),
        ));
        r += 1;
    }
    assert(counted(list@) =~= most_common_of(models, all));
    list
}

/// The first selected entries that are suspicious.
pub(crate) fn suspicious_values(entries: &Vec<StringEntry>, sel: &Vec<usize>) -> (list: Vec<String>)
    requires
        forall|j: int| 0 <= j < sel.len() ==> #[trigger] sel[j] < entries.len(),
    ensures
        texts(list@) == first_of(
            suspects(entry_models(entries@), positions(sel@)),
            SUSPICIOUS_LIMIT as nat,
        ),
{
    let ghost models = entry_models(entries@);
    let ghost all = positions(sel@);
    let mut list: Vec<String> = Vec::new();
    let mut j: usize = 0;
    assert(texts(list@) =~= Seq::<Seq<char>>::empty());
    while j < sel.len()
        invariant
            j <= sel.len(),
            models == entry_models(entries@),
            all == positions(sel@),
            forall|k: int| 0 <= k < sel.len() ==> #[trigger] sel[k] < entries.len(),
            texts(list@) == first_of(suspects(models, all.take(j as int)), SUSPICIOUS_LIMIT as nat),
        decreases sel.len() - j,
    {
        proof {
            assert(all.take(j + 1).drop_last() =~= all.take(j as int));
            assert(all.take(j + 1).last() == sel[j as int]);
            assert(models[sel[j as int] as int] == entries[sel[j as int] as int]@);
        }
        let entry = &entries[sel[j]];
        let ghost before = texts(list@);
        let ghost found = suspects(models, all.take(j as int));
        if entry.is_suspicious && list.len() < SUSPICIOUS_LIMIT {
            list.push(entry.value.clone());
            assert(texts(list@) =~= before.push(entry.value@));
            assert(before == found);
        }
        proof {
            if entry.is_suspicious {
                let more = found.push(entry.value@);
                if found.len() >= SUSPICIOUS_LIMIT {
                    assert(more.take(SUSPICIOUS_LIMIT as int) =~= found.take(
                        SUSPICIOUS_LIMIT as int,
                    ));
                    if found.len() == SUSPICIOUS_LIMIT {
                        assert(found.take(SUSPICIOUS_LIMIT as int) =~= found);
                    }
                }
            }
        }
        j += 1;
    }
    assert(all.take(sel.len() as int) =~= all);
    list
}

/// The selected entries of highest entropy above the floor.
pub(crate) fn high_entropy(entries: &Vec<StringEntry>, sel: &Vec<usize>) -> (list: Vec<(String, u64)>)
    requires
        forall|j: int| 0 <= j < sel.len() ==> #[trigger] sel[j] < entries.len(),
    ensures
        scored(list@) == high_entropy_of(entry_models(entries@), positions(sel@)),
{
    let ghost models = entry_models(entries@);
    let ghost all = positions(sel@);
    let mut hot: Vec<usize> = Vec::new();
    let mut keys: Vec<u64> = Vec::new();
    let mut j: usize = 0;
    assert(positions(hot@) =~= Seq::<int>::empty());
    while j < sel.len()
        invariant
            j <= sel.len(),
            models == entry_models(entries@),
            all == positions(sel@),
            forall|k: int| 0 <= k < sel.len() ==> #[trigger] sel[k] < entries.len(),
            positions(hot@) == high_entropy_positions(models, all.take(j as int)),
            forall|k: int| 0 <= k < hot.len() ==> #[trigger] hot[k] < entries.len(),
            keys.len() == hot.len(),
            forall|k: int| 0 <= k < hot.len() ==> keys[k] == entries[hot[k] as int].entropy,
        decreases sel.len() - j,
    {
        proof {
            assert(all.take(j + 1).drop_last() =~= all.take(j as int));
            assert(all.take(j + 1).last() == sel[j as int]);
            assert(models[sel[j as int] as int] == entries[sel[j as int] as int]@);
        }
        let at = sel[j];
        if entries[at].entropy > HIGH_ENTROPY_FLOOR {
            let ghost before = positions(hot@);
            hot.push(at);
            keys.push(entries[at].entropy);
            assert(positions(hot@) =~= before.push(at as int));
        }
        j += 1;
    }
    assert(all.take(sel.len() as int) =~= all);
    let ghost warm = positions(hot@);
    assert(keys@ =~= entropy_keys(models, warm)) by {
        assert forall|k: int| 0 <= k < keys.len() implies keys@[k] == entropy_keys(models, warm)[k] by {
            assert(models[hot[k] as int] == entries[hot[k] as int]@);
        }
    }
    let ranks = top_k(&keys, HIGH_ENTROPY_LIMIT);
    let ghost ranked = positions(ranks@);
    let mut list: Vec<(String, u64)> = Vec::new();
    let mut r: usize = 0;
    while r < ranks.len()
        invariant
            r <= ranks.len(),
            list.len() == r,
            models == entry_models(entries@),
            warm == positions(hot@),
            warm == high_entropy_positions(models, all),
            ranked == positions(ranks@),
            keys.len() == hot.len(),
            ranked == top_ranked(entropy_keys(models, warm), hot.len() as nat, HIGH_ENTROPY_LIMIT as nat),
            is_ranking(ranked, keys@, keys.len() as nat, HIGH_ENTROPY_LIMIT as nat),
            forall|k: int| 0 <= k < hot.len() ==> #[trigger] hot[k] < entries.len(),
            forall|k: int| 0 <= k < r ==> scored(list@)[k] == high_entropy_of(models, all)[k],
        decreases ranks.len() - r,
    {
        proof {
            assert(0 <= ranked[r as int] < keys.len());
            assert(ranked[r as int] == ranks[r as int]);
        }
        let at = hot[ranks[r]];
        proof {
            assert(models[at as int] == entries[at as int]@);
            assert(warm[ranked[r as int]] == at);
        }
        let ghost before = scored(list@);
        list.push((entries[at].value.clone(), entries[at].entropy));
        assert(scored(list@) =~= before.push((entries[at as int].value@, entries[at as int].entropy)));
        r += 1;
    }
    assert(scored(list@) =~= high_entropy_of(models, all));
    list
}

/// Counts one more for `label`.
pub(crate) fn bump(tally: &mut Vec<(String, usize)>, label: &String)
    requires
        labels_unique(counted(old(tally)@)),
    ensures
        counted(final(tally)@) == bumped(counted(old(tally)@), label@),
        labels_unique(counted(final(tally)@)),
{
    let ghost before = counted(tally@);
    proof {
        lemma_bumped_unique(before, label@);
    }
    let mut i: usize = 0;
    while i < tally.len()
        invariant
            i <= tally.len(),
            tally@ == old(tally)@,
            before == counted(tally@),
            labels_unique(before),
            forall|j: int| 0 <= j < i ==> before[j].0 != label@,
        decreases tally.len() - i,
    {
        if tally[i].0 == *label {
            proof {
                assert(before[i as int].0 == label@);
                lemma_label_position(before, i as int);
            }
            let n = tally[i].1;
            let more = if n < usize::MAX {
                n + 1
            } else {
                n
            };
            tally.set(i, (label.clone(), more));
            assert(counted(tally@) =~= before.update(i as int, (label@, one_more(before[i as int].1))));
            return ;
        }
        i += 1;
    }
    tally.push((label.clone(), 1));
    assert(counted(tally@) =~= before.push((label@, 1usize)));
}

/// The bucket of a string of `len` bytes.
pub fn bucket_of(len: usize) -> (label: String)
    ensures
        label@ == bucket_label(len),
{
    if len <= 10 {
        "0-10".to_owned()
    } else if len <= 20 {
        "11-20".to_owned()
    } else if len <= 50 {
        "21-50".to_owned()
    } else if len <= 100 {
        "51-100".to_owned()
    } else if len <= 200 {
        "101-200".to_owned()
    } else {
        "200+".to_owned()
    }
}

/// For each category, the number of selected entries that have it.
pub(crate) fn tally_categories(entries: &Vec<StringEntry>, sel: &Vec<usize>) -> (tally: Vec<
    (String, usize),
>)
    requires
        forall|j: int| 0 <= j < sel.len() ==> #[trigger] sel[j] < entries.len(),
    ensures
        counted(tally@) == category_tally(entry_models(entries@), positions(sel@)),
{
    let ghost models = entry_models(entries@);
    let ghost all = positions(sel@);
    let mut tally: Vec<(String, usize)> = Vec::new();
    let mut j: usize = 0;
    assert(counted(tally@) =~= Seq::<(Seq<char>, usize)>::empty());
    while j < sel.len()
        invariant
            j <= sel.len(),
            models == entry_models(entries@),
            all == positions(sel@),
            forall|k: int| 0 <= k < sel.len() ==> #[trigger] sel[k] < entries.len(),
            counted(tally@) == category_tally(models, all.take(j as int)),
            labels_unique(counted(tally@)),
        decreases sel.len() - j,
    {
        proof {
            assert(all.take(j + 1).drop_last() =~= all.take(j as int));
            assert(all.take(j + 1).last() == sel[j as int]);
            assert(models[sel[j as int] as int] == entries[sel[j as int] as int]@);
        }
        let labels = &entries[sel[j]].categories;
        let ghost base = counted(tally@);
        let ghost names = texts(labels@);
        let mut k: usize = 0;
        while k < labels.len()
            invariant
                k <= labels.len(),
                names == texts(labels@),
                counted(tally@) == bumped_all(base, names.take(k as int)),
                labels_unique(counted(tally@)),
            decreases labels.len() - k,
        {
            proof {
                assert(names.take(k + 1).drop_last() =~= names.take(k as int));
                assert(names.take(k + 1).last() == labels[k as int]@);
            }
            bump(&mut tally, &labels[k]);
            k += 1;
        }
        assert(names.take(labels.len() as int) =~= names);
        j += 1;
    }
    assert(all.take(sel.len() as int) =~= all);
    tally
}

/// For each length bucket, the number of selected entries in it.
pub(crate) fn tally_lengths(entries: &Vec<StringEntry>, sel: &Vec<usize>) -> (tally: Vec<(String, usize)>)
    requires
        forall|j: int| 0 <= j < sel.len() ==> #[trigger] sel[j] < entries.len(),
    ensures
        counted(tally@) == length_tally(entry_models(entries@), positions(sel@)),
{
    let ghost models = entry_models(entries@);
    let ghost all = positions(sel@);
    let mut tally: Vec<(String, usize)> = Vec::new();
    let mut j: usize = 0;
    assert(counted(tally@) =~= Seq::<(Seq<char>, usize)>::empty());
    while j < sel.len()
        invariant
            j <= sel.len(),
            models == entry_models(entries@),
            all == positions(sel@),
            forall|k: int| 0 <= k < sel.len() ==> #[trigger] sel[k] < entries.len(),
            counted(tally@) == length_tally(models, all.take(j as int)),
            labels_unique(counted(tally@)),
        decreases sel.len() - j,
    {
        proof {
            assert(all.take(j + 1).drop_last() =~= all.take(j as int));
            assert(all.take(j + 1).last() == sel[j as int]);
            assert(models[sel[j as int] as int] == entries[sel[j as int] as int]@);
        }
        let label = bucket_of(length_in_bytes(&entries[sel[j]].value));
        bump(&mut tally, &label);
        j += 1;
    }
    assert(all.take(sel.len() as int) =~= all);
    tally
}

/// The statistics of the entries that `filter` accepts.
pub fn compute_statistics(entries: &Vec<StringEntry>, filter: Option<&StringFilter>) -> (stats:
    StringStatistics)
    ensures
        describes(stats, entry_models(entries@), filter),
{
    let sel = select(entries, filter);
    StringStatistics {
        total_unique_strings: sel.len(),
        total_occurrences: sum_sightings(entries, &sel),
        total_files_analyzed: count_files(entries, &sel),
        most_common: most_common(entries, &sel),
        suspicious_strings: suspicious_values(entries, &sel),
        high_entropy_strings: high_entropy(entries, &sel),
        category_distribution: tally_categories(entries, &sel),
        length_distribution: tally_lengths(entries, &sel),
    }
}

} // verus!
