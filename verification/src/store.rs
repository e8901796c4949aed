//! The entry store: the entries in the order of first sighting, and an
//! index from each value to the position of its entry.

use vstd::prelude::*;
use vstd::hash_map::StringHashMap;
use crate::analyzer::StringAnalysisResult;
use crate::categorizer::{category_names, Category};
use crate::labels::{push_unique, texts};
use crate::ledger::{
    collect_categories, fresh, has_value, lemma_value_position, observed, position_of_value,
    values_unique,
};
use crate::model::{
    entry_models, lemma_models_machine_sized, machine_sized, occurrence_models, EntryModel,
    OccurrenceModel, StringEntry, StringOccurrence,
};

verus! {

/// The entries of a tracker with their index.
pub struct Store {
    entries: Vec<StringEntry>,
    index: StringHashMap<usize>,
}

impl View for Store {
    type V = Seq<EntryModel>;

    closed spec fn view(&self) -> Seq<EntryModel> {
        entry_models(self.entries@)
    }
}

impl Store {
    /// The index knows exactly the values of the entries, each with the
    /// position of its entry.
    pub closed spec fn consistent(&self) -> bool {
        &&& forall|v: Seq<char>| #[trigger]
            self.index@.contains_key(v) ==> self.index@[v] < self.entries.len()
                && self.entries[self.index@[v] as int].value@ == v
        &&& forall|i: int|
            0 <= i < self.entries.len() ==> self.index@.contains_key(
                (#[trigger] self.entries[i]).value@,
            ) && self.index@[self.entries[i].value@] == i
    }

    /// A consistent store has one entry per value.
    pub proof fn lemma_consistent_unique(&self)
        requires
            self.consistent(),
        ensures
            values_unique(self@),
    {
        assert forall|i: int, j: int| 0 <= i < j < self@.len() implies self@[i].value
            != self@[j].value by {
            assert(self.index@[self.entries[i].value@] == i);
            assert(self.index@[self.entries[j].value@] == j);
        }
    }

    /// The counters and entropies of a store are of machine size.
    pub proof fn lemma_machine_sized(&self)
        ensures
            machine_sized(self@),
    {
        lemma_models_machine_sized(self.entries@);
    }

    /// The store without entries.
    pub fn new() -> (r: Self)
        ensures
            r.consistent(),
            r@ == Seq::<EntryModel>::empty(),
    {
        let r = Store { entries: Vec::new(), index: StringHashMap::new() };
        assert(r@ =~= Seq::<EntryModel>::empty());
        r
    }

    /// The entries, in the order of first sighting.
    pub fn entries(&self) -> (r: &Vec<StringEntry>)
        ensures
            entry_models(r@) == self@,
    {
        &self.entries
    }

    /// Number of entries.
    pub fn len(&self) -> (n: usize)
        ensures
            n == self@.len(),
    {
        self.entries.len()
    }

    /// Position of the entry for `value`, if there is one.
    pub fn lookup(&self, value: &str) -> (r: Option<usize>)
        requires
            self.consistent(),
        ensures
            match r {
                Some(at) => has_value(self@, value@) && at == position_of_value(self@, value@)
                    && at < self@.len() && self@[at as int].value == value@,
                None => !has_value(self@, value@),
            },
    {
        proof {
            self.lemma_consistent_unique();
        }
        match self.index.get(value) {
            Some(at) => {
                proof {
                    assert(self@[*at as int].value == value@);
                    lemma_value_position(self@, *at as int);
                }
                Some(*at)
            },
            None => {
                assert forall|i: int| 0 <= i < self@.len() implies self@[i].value != value@ by {
                    assert(self.index@.contains_key(self.entries[i].value@));
                }
                None
            },
        }
    }

    /// The number of sightings of the entry at `at`.
    pub fn sightings_at(&self, at: usize) -> (n: usize)
        requires
            at < self@.len(),
        ensures
            n == self@[at as int].total_occurrences,
    {
        self.entries[at].total_occurrences
    }

    /// Adds `occurrence` to the entry at position `at`.
    pub fn note_sighting(&mut self, at: usize, cap: usize, occurrence: StringOccurrence)
        requires
            old(self).consistent(),
            at < old(self)@.len(),
            old(self)@[at as int].total_occurrences < usize::MAX,
        ensures
            final(self).consistent(),
            final(self)@ == old(self)@.update(
                at as int,
                observed(old(self)@[at as int], cap as nat, occurrence@),
            ),
    {
        let ghost before = entry_models(self.entries@);
        let ghost sighting = occurrence@;
        let ghost held = self.entries@;
        let entry = &mut self.entries[at];
        let ghost e = entry@;
        let ghost key = entry.value;
        entry.last_seen = occurrence.timestamp;
        entry.total_occurrences = entry.total_occurrences + 1;
        push_unique(&mut entry.unique_files, &occurrence.file_path);
        entry.occurrences.push(occurrence);
        assert(occurrence_models(entry.occurrences@) =~= e.occurrences.push(sighting));
        if entry.occurrences.len() > cap {
            let ghost full = occurrence_models(entry.occurrences@);
            let _ = entry.occurrences.remove(0);
            assert(occurrence_models(entry.occurrences@) =~= full.drop_first());
        }
        assert(entry@ == observed(e, cap as nat, sighting));
        assert(entry.value == key);
        assert(forall|i: int| 0 <= i < held.len() ==> (#[trigger] self.entries[i]).value == held[i].value);
        assert(entry_models(self.entries@) =~= before.update(
            at as int,
            observed(e, cap as nat, sighting),
        ));
    }

    /// Appends the entry for a value seen for the first time.
    pub fn first_sighting(
        &mut self,
        cap: usize,
        value: String,
        occurrence: StringOccurrence,
        categories: &Vec<Category>,
        analysis: &StringAnalysisResult,
    )
        requires
            old(self).consistent(),
            !has_value(old(self)@, value@),
        ensures
            final(self).consistent(),
            final(self)@ == old(self)@.push(
                observed(
                    fresh(value@, occurrence@, category_names(categories@), analysis@),
                    cap as nat,
                    occurrence@,
                ),
            ),
    {
        let ghost before = entry_models(self.entries@);
        let ghost held = self.entries@;
        let key = value.clone();
        let entry = StringEntry {
            value,
            first_seen: occurrence.timestamp,
            last_seen: occurrence.timestamp,
            total_occurrences: 0,
            unique_files: Vec::new(),
            occurrences: Vec::new(),
            categories: collect_categories(&occurrence, categories, analysis),
            is_suspicious: analysis.is_suspicious,
            entropy: analysis.entropy,
        };
        assert(entry@ =~= fresh(value@, occurrence@, category_names(categories@), analysis@)) by {
            assert(texts(entry.unique_files@) =~= Seq::<Seq<char>>::empty());
            assert(occurrence_models(entry.occurrences@) =~= Seq::<OccurrenceModel>::empty());
        }
        let at = self.entries.len();
        self.entries.push(entry);
        self.index.insert(key, at);
        assert(entry_models(self.entries@) =~= before.push(entry@));
        assert(self.consistent()) by {
            assert forall|i: int| 0 <= i < self.entries.len() implies self.index@.contains_key(
                (#[trigger] self.entries[i]).value@,
            ) && self.index@[self.entries[i].value@] == i by {
                if i < at {
                    assert(self.entries[i] == held[i]);
                    assert(before[i].value == held[i].value@);
                }
            }
        }
        self.note_sighting(at, cap, occurrence);
        assert(self@ =~= before.push(observed(entry@, cap as nat, occurrence@)));
    }

    /// Removes every entry.
    pub fn clear(&mut self)
        ensures
            final(self).consistent(),
            final(self)@ == Seq::<EntryModel>::empty(),
    {
        self.entries.clear();
        self.index.clear();
        assert(self@ =~= Seq::<EntryModel>::empty());
    }
}

} // verus!
