//! How a list of entries changes when a string is seen.
//!
//! The entries of a tracker are a sequence in the order of first sighting,
//! with at most one entry per value.  A sighting of a known value updates
//! its entry in place; a sighting of a new value appends an entry.

use vstd::prelude::*;
use crate::analyzer::{AnalysisModel, StringAnalysisResult};
use crate::categorizer::{category_names, Category};
use crate::labels::{
    lemma_with_text_unique, lemma_with_texts_unique, push_unique, texts, with_text, with_texts,
};
use crate::model::{context_label, EntryModel, OccurrenceModel, StringOccurrence};

verus! {

/// Some entry of `entries` is for `value`.
pub open spec fn has_value(entries: Seq<EntryModel>, value: Seq<char>) -> bool {
    exists|i: int| 0 <= i < entries.len() && entries[i].value == value
}

/// Position of the entry for `value`.
pub open spec fn position_of_value(entries: Seq<EntryModel>, value: Seq<char>) -> int {
    choose|i: int| 0 <= i < entries.len() && entries[i].value == value
}

/// No two entries are for the same value.
pub open spec fn values_unique(entries: Seq<EntryModel>) -> bool {
    forall|i: int, j: int| 0 <= i < j < entries.len() ==> entries[i].value != entries[j].value
}

/// The list of sightings once it is held to `cap`: the oldest sighting
/// leaves when the list is longer.
pub open spec fn capped(list: Seq<OccurrenceModel>, cap: nat) -> Seq<OccurrenceModel> {
    if list.len() > cap {
        list.drop_first()
    } else {
        list
    }
}

/// Entry `e` after one more sighting.
pub open spec fn observed(e: EntryModel, cap: nat, sighting: OccurrenceModel) -> EntryModel {
    EntryModel {
        value: e.value,
        first_seen: e.first_seen,
        last_seen: sighting.timestamp,
        total_occurrences: e.total_occurrences + 1,
        unique_files: with_text(e.unique_files, sighting.file_path),
        occurrences: capped(e.occurrences.push(sighting), cap),
        categories: e.categories,
        is_suspicious: e.is_suspicious,
        entropy: e.entropy,
    }
}

/// The categories of a new entry: that of the context of the first
/// sighting, then those of the categorizer, then those of the analysis.
pub open spec fn first_categories(
    sighting: OccurrenceModel,
    labels: Seq<Seq<char>>,
    analysis: AnalysisModel,
) -> Seq<Seq<char>> {
    with_texts(with_texts(seq![context_label(sighting.context)], labels), analysis.categories)
}

/// The entry for a value not seen before, ahead of its first sighting.
pub open spec fn fresh(
    value: Seq<char>,
    sighting: OccurrenceModel,
    labels: Seq<Seq<char>>,
    analysis: AnalysisModel,
) -> EntryModel {
    EntryModel {
        value,
        first_seen: sighting.timestamp,
        last_seen: sighting.timestamp,
        total_occurrences: 0,
        unique_files: Seq::empty(),
        occurrences: Seq::empty(),
        categories: first_categories(sighting, labels, analysis),
        is_suspicious: analysis.is_suspicious,
        entropy: analysis.entropy as nat,
    }
}

/// The entries after one more sighting of `value`, which has an entry.
pub open spec fn resighted(
    entries: Seq<EntryModel>,
    cap: nat,
    value: Seq<char>,
    sighting: OccurrenceModel,
) -> Seq<EntryModel> {
    let at = position_of_value(entries, value);
    entries.update(at, observed(entries[at], cap, sighting))
}

/// The entries after the first sighting of `value`, of which the
/// categorizer gave `labels` and the analyzer `analysis`.
pub open spec fn first_sighted(
    entries: Seq<EntryModel>,
    cap: nat,
    value: Seq<char>,
    sighting: OccurrenceModel,
    labels: Seq<Seq<char>>,
    analysis: AnalysisModel,
) -> Seq<EntryModel> {
    entries.push(observed(fresh(value, sighting, labels, analysis), cap, sighting))
}

/// The entries after a sighting of `value`.  `labels` and `analysis` are
/// what the categorizer and the analyzer say of `value`; they count only if
/// the value was not seen before.
pub open spec fn recorded(
    entries: Seq<EntryModel>,
    cap: nat,
    value: Seq<char>,
    sighting: OccurrenceModel,
    labels: Seq<Seq<char>>,
    analysis: AnalysisModel,
) -> Seq<EntryModel> {
    if has_value(entries, value) {
        resighted(entries, cap, value, sighting)
    } else {
        first_sighted(entries, cap, value, sighting, labels, analysis)
    }
}

/// The counter of the entry for `value` cannot go up.
pub open spec fn is_saturated(entries: Seq<EntryModel>, value: Seq<char>) -> bool {
    has_value(entries, value) && entries[position_of_value(entries, value)].total_occurrences
        >= usize::MAX
}

/// What holds of every entry that sightings have built.
pub open spec fn entry_sound(e: EntryModel) -> bool {
    &&& e.unique_files.no_duplicates()
    &&& e.categories.no_duplicates()
    &&& e.occurrences.len() <= e.total_occurrences
    &&& 1 <= e.unique_files.len() <= e.total_occurrences
}

/// What holds of the entries of every tracker.
pub open spec fn sound(entries: Seq<EntryModel>) -> bool {
    &&& values_unique(entries)
    &&& forall|i: int| 0 <= i < entries.len() ==> entry_sound(#[trigger] entries[i])
}

/// No entry lists more sightings than `cap`.
pub open spec fn within_cap(entries: Seq<EntryModel>, cap: nat) -> bool {
    forall|i: int| 0 <= i < entries.len() ==> (#[trigger] entries[i]).occurrences.len() <= cap
}

/// Where values are unique, the position of a value is the one place that holds it.
pub proof fn lemma_value_position(entries: Seq<EntryModel>, at: int)
    requires
        values_unique(entries),
        0 <= at < entries.len(),
    ensures
        has_value(entries, entries[at].value),
        position_of_value(entries, entries[at].value) == at,
{
    let found = position_of_value(entries, entries[at].value);
    if found < at {
        assert(entries[found].value != entries[at].value);
    } else if at < found {
        assert(entries[at].value != entries[found].value);
    }
}

/// A sighting keeps a sound entry sound.
pub proof fn lemma_observed_sound(e: EntryModel, cap: nat, sighting: OccurrenceModel)
    requires
        e.unique_files.no_duplicates(),
        e.categories.no_duplicates(),
        e.occurrences.len() <= e.total_occurrences,
        e.unique_files.len() <= e.total_occurrences,
    ensures
        entry_sound(observed(e, cap, sighting)),
        observed(e, cap, sighting).occurrences.len() <= e.occurrences.len() + 1,
        e.occurrences.len() <= cap ==> observed(e, cap, sighting).occurrences.len() <= cap,
{
    lemma_with_text_unique(e.unique_files, sighting.file_path);
    let files = with_text(e.unique_files, sighting.file_path);
    assert(files.len() >= 1) by {
        assert(files.contains(sighting.file_path));
    }
}

/// The categories of a new entry hold no text twice, and hold the category
/// of the context, every label of the categorizer and every category of
/// the analysis.
pub proof fn lemma_first_categories(
    sighting: OccurrenceModel,
    labels: Seq<Seq<char>>,
    analysis: AnalysisModel,
)
    ensures
        first_categories(sighting, labels, analysis).no_duplicates(),
        forall|c: Seq<char>|
            first_categories(sighting, labels, analysis).contains(c) <==> (c == context_label(
                sighting.context,
            ) || labels.contains(c) || analysis.categories.contains(c)),
{
    let start = seq![context_label(sighting.context)];
    let middle = with_texts(start, labels);
    let all = with_texts(middle, analysis.categories);
    lemma_with_texts_unique(start, labels);
    lemma_with_texts_unique(middle, analysis.categories);
    assert forall|c: Seq<char>| all.contains(c) <==> (c == context_label(sighting.context)
        || labels.contains(c) || analysis.categories.contains(c)) by {
        assert(all.contains(c) <==> middle.contains(c) || analysis.categories.contains(c));
        assert(middle.contains(c) <==> start.contains(c) || labels.contains(c));
        if c == context_label(sighting.context) {
            assert(start[0] == c);
        }
    }
}

/// Sightings keep the entries sound: one entry per value, no file and no
/// category twice in an entry, and never more sightings listed than counted.
pub proof fn lemma_recorded_sound(
    entries: Seq<EntryModel>,
    cap: nat,
    value: Seq<char>,
    sighting: OccurrenceModel,
    labels: Seq<Seq<char>>,
    analysis: AnalysisModel,
)
    requires
        sound(entries),
    ensures
        sound(recorded(entries, cap, value, sighting, labels, analysis)),
        has_value(recorded(entries, cap, value, sighting, labels, analysis), value),
{
    let after = recorded(entries, cap, value, sighting, labels, analysis);
    if has_value(entries, value) {
        let at = position_of_value(entries, value);
        lemma_observed_sound(entries[at], cap, sighting);
        assert(after[at].value == value);
        assert forall|i: int| 0 <= i < after.len() implies entry_sound(#[trigger] after[i]) by {
            if i != at {
                assert(after[i] == entries[i]);
            }
        }
    } else {
        let e = fresh(value, sighting, labels, analysis);
        lemma_first_categories(sighting, labels, analysis);
        lemma_observed_sound(e, cap, sighting);
        assert(after[entries.len() as int].value == value);
        assert forall|i: int| 0 <= i < after.len() implies entry_sound(#[trigger] after[i]) by {
            if i < entries.len() {
                assert(after[i] == entries[i]);
            }
        }
    }
}

/// A sighting never makes the list of an entry longer than the cap.
pub proof fn lemma_recorded_within_cap(
    entries: Seq<EntryModel>,
    cap: nat,
    value: Seq<char>,
    sighting: OccurrenceModel,
    labels: Seq<Seq<char>>,
    analysis: AnalysisModel,
)
    requires
        within_cap(entries, cap),
    ensures
        within_cap(recorded(entries, cap, value, sighting, labels, analysis), cap),
{
    let after = recorded(entries, cap, value, sighting, labels, analysis);
    if has_value(entries, value) {
        let at = position_of_value(entries, value);
        assert forall|i: int| 0 <= i < after.len() implies (#[trigger] after[i]).occurrences.len()
            <= cap by {
            if i != at {
                assert(after[i] == entries[i]);
            } else {
                assert(entries[at].occurrences.len() <= cap);
            }
        }
    } else {
        assert forall|i: int| 0 <= i < after.len() implies (#[trigger] after[i]).occurrences.len()
            <= cap by {
            if i < entries.len() {
                assert(after[i] == entries[i]);
            }
        }
    }
}

/// The counters of an entry do not depend on the cap: whatever the cap, a
/// sighting adds one to the number of sightings and adds the file to the
/// files unless it is there.
pub proof fn lemma_counters_ignore_cap(e: EntryModel, cap: nat, other_cap: nat, sighting: OccurrenceModel)
    ensures
        observed(e, cap, sighting).total_occurrences == e.total_occurrences + 1,
        observed(e, cap, sighting).total_occurrences == observed(
            e,
            other_cap,
            sighting,
        ).total_occurrences,
        observed(e, cap, sighting).unique_files == with_text(e.unique_files, sighting.file_path),
        observed(e, cap, sighting).unique_files == observed(e, other_cap, sighting).unique_files,
{
}

/// Two sightings of a value not seen before give one entry, counted twice.
pub proof fn lemma_recorded_twice(
    entries: Seq<EntryModel>,
    cap: nat,
    value: Seq<char>,
    first: OccurrenceModel,
    second: OccurrenceModel,
    labels: Seq<Seq<char>>,
    analysis: AnalysisModel,
)
    requires
        values_unique(entries),
        !has_value(entries, value),
    ensures
        ({
            let once = recorded(entries, cap, value, first, labels, analysis);
            let twice = recorded(once, cap, value, second, labels, analysis);
            &&& once.len() == entries.len() + 1
            &&& twice.len() == entries.len() + 1
            &&& twice[entries.len() as int].value == value
            &&& twice[entries.len() as int].total_occurrences == 2
            &&& forall|i: int| 0 <= i < entries.len() ==> twice[i] == entries[i]
        }),
{
    let once = recorded(entries, cap, value, first, labels, analysis);
    let last = entries.len() as int;
    assert(once[last].value == value);
    assert(values_unique(once)) by {
        assert forall|i: int, j: int| 0 <= i < j < once.len() implies once[i].value
            != once[j].value by {
            if j == last {
                assert(once[i] == entries[i]);
            }
        }
    }
    lemma_value_position(once, last);
}

/// A sighting of a known value changes its entry and no other; a sighting
/// of a new value adds one entry and changes no other.
pub proof fn lemma_recorded_frame(
    entries: Seq<EntryModel>,
    cap: nat,
    value: Seq<char>,
    sighting: OccurrenceModel,
    labels: Seq<Seq<char>>,
    analysis: AnalysisModel,
)
    ensures
        ({
            let after = recorded(entries, cap, value, sighting, labels, analysis);
            &&& has_value(entries, value) ==> after.len() == entries.len()
            &&& !has_value(entries, value) ==> after.len() == entries.len() + 1
            &&& forall|i: int|
                0 <= i < entries.len() && entries[i].value != value ==> after[i] == entries[i]
            &&& forall|i: int|
                0 <= i < entries.len() ==> {
                    &&& (#[trigger] after[i]).value == entries[i].value
                    &&& after[i].first_seen == entries[i].first_seen
                    &&& after[i].categories == entries[i].categories
                    &&& after[i].is_suspicious == entries[i].is_suspicious
                    &&& after[i].entropy == entries[i].entropy
                }
        }),
{
}

/// The categories for a new entry.
pub fn collect_categories(
    occurrence: &StringOccurrence,
    categories: &Vec<Category>,
    analysis: &StringAnalysisResult,
) -> (r: Vec<String>)
    ensures
        texts(r@) == first_categories(occurrence@, category_names(categories@), analysis@),
{
    let mut list: Vec<String> = Vec::new();
    list.push(occurrence.context.category_name());
    let ghost start = seq![context_label(occurrence@.context)];
    assert(texts(list@) =~= start);
    let ghost labels = category_names(categories@);
    let mut i: usize = 0;
    while i < categories.len()
        invariant
            i <= categories.len(),
            labels == category_names(categories@),
            texts(list@) == with_texts(start, labels.take(i as int)),
        decreases categories.len() - i,
    {
        proof {
            assert(labels.take(i + 1).drop_last() =~= labels.take(i as int));
            assert(labels.take(i + 1).last() == categories[i as int].name@);
        }
        push_unique(&mut list, &categories[i].name);
        i += 1;
    }
    assert(labels.take(categories.len() as int) =~= labels);
    let ghost middle = with_texts(start, labels);
    let ghost found = texts(analysis.categories@);
    let mut j: usize = 0;
    while j < analysis.categories.len()
        invariant
            j <= analysis.categories.len(),
            found == texts(analysis.categories@),
            texts(list@) == with_texts(middle, found.take(j as int)),
        decreases analysis.categories.len() - j,
    {
        proof {
            assert(found.take(j + 1).drop_last() =~= found.take(j as int));
            assert(found.take(j + 1).last() == analysis.categories[j as int]@);
        }
        push_unique(&mut list, &analysis.categories[j]);
        j += 1;
    }
    assert(found.take(analysis.categories.len() as int) =~= found);
    list
}

} // verus!
