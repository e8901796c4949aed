//! The tracker: it takes in sightings of strings and answers queries over
//! all that it has seen.

use vstd::prelude::*;
use crate::analyzer::{
    analysis_of, AnalysisModel, DefaultStringAnalyzer, StringAnalysisResult, StringAnalyzer,
    DEFAULT_ENTROPY_THRESHOLD, DEFAULT_MAX_OCCURRENCES,
};
use crate::categorizer::{category_names, labels_of, Categorizer, Category, DefaultCategorizer};
use crate::clock::{current_time, Timestamp};
use crate::ledger::{
    first_sighted, has_value, is_saturated, lemma_recorded_sound, lemma_recorded_within_cap,
    position_of_value, recorded, resighted, sound, within_cap,
};
use crate::model::{
    entry_models, machine_sized, ContextModel, EntryModel, OccurrenceModel, StringContext,
    StringEntry, StringFilter, StringOccurrence, StringStatistics,
};
use crate::patterns::{builtin_catalog, loaded, DefaultPatternProvider, PatternProvider};
use crate::queries::{
    lemma_related_ranking, lemma_related_result, related, related_result, rivals, search,
    search_result,
};
use crate::similarity::{RELATED_THRESHOLD, SCORE_SCALE};
use crate::statistics::{compute_statistics, describes, scored};
use crate::store::Store;
use crate::text::{chars_of, contains, contains_text, find, is_first_occurrence, text_before};
use crate::unicode::is_blank;

verus! {

/// Why a sighting could not be taken in.
#[derive(Debug)]
pub enum TrackError {
    /// The string has been seen `usize::MAX` times; its counter cannot go up.
    CounterSaturated,
}

impl TrackError {
    /// A one-line description of the error.
    pub fn message(&self) -> (s: String)
        ensures
            s@ == "occurrence counter is saturated"@,
    {
        "occurrence counter is saturated".to_owned()
    }
}

/// The sighting with the given parts.
pub open spec fn sighting_of(
    file_path: Seq<char>,
    file_hash: Seq<char>,
    tool_name: Seq<char>,
    timestamp: Timestamp,
    context: ContextModel,
) -> OccurrenceModel {
    OccurrenceModel { file_path, file_hash, tool_name, timestamp, context }
}

/// The kind of a path: `system`, `temp` or `general`.
pub open spec fn path_kind(value: Seq<char>) -> Seq<char> {
    if contains_text(value, "\\Windows"@) || contains_text(value, "/usr"@) {
        "system"@
    } else if contains_text(value, "\\Temp"@) || contains_text(value, "/tmp"@) {
        "temp"@
    } else {
        "general"@
    }
}

/// The context that a string gets from its category labels.  Where several
/// labels apply the first of `url`, `path`, `registry`, `library` and
/// `command` decides; a string with none of them is a plain file string.
pub open spec fn context_for(value: Seq<char>, labels: Seq<Seq<char>>) -> ContextModel {
    if labels.contains("url"@) {
        ContextModel::Url { protocol: Some(text_before(value, "://"@)) }
    } else if labels.contains("path"@) {
        ContextModel::Path { path_type: path_kind(value) }
    } else if labels.contains("registry"@) {
        ContextModel::Registry { hive: Some(text_before(value, "\\"@)) }
    } else if labels.contains("library"@) {
        ContextModel::Import { library: value }
    } else if labels.contains("command"@) {
        ContextModel::Command { command_type: "shell"@ }
    } else {
        ContextModel::FileString { offset: None }
    }
}

/// Whether some category of `categories` is named `label`.
fn has_category(categories: &Vec<Category>, label: &str) -> (r: bool)
    ensures
        r == category_names(categories@).contains(label@),
{
    let wanted = label.to_owned();
    let mut i: usize = 0;
    while i < categories.len()
        invariant
            i <= categories.len(),
            wanted@ == label@,
            forall|j: int| 0 <= j < i ==> categories[j].name@ != label@,
        decreases categories.len() - i,
    {
        if categories[i].name == wanted {
            assert(category_names(categories@)[i as int] == label@);
            return true;
        }
        i += 1;
    }
    assert forall|j: int| 0 <= j < category_names(categories@).len() implies category_names(
        categories@,
    )[j] != label@ by {
        assert(category_names(categories@)[j] == categories[j].name@);
    }
    false
}

/// Whether `value` contains the text of `needle`.
fn holds(value: &Vec<char>, needle: &str) -> (r: bool)
    ensures
        r == contains_text(value@, needle@),
{
    let n = chars_of(needle);
    contains(value, &n)
}

/// The part of `value` before the first occurrence of `needle`; all of
/// `value` if `needle` does not occur.
pub fn prefix_before(value: &str, needle: &str) -> (r: String)
    ensures
        r@ == text_before(value@, needle@),
{
    let hay = chars_of(value);
    let n = chars_of(needle);
    match find(&hay, &n) {
        Some(at) => {
            proof {
                let chosen = choose|i: int| is_first_occurrence(hay@, n@, i);
                crate::text::lemma_first_occurrence_unique(hay@, n@, at as int, chosen);
            }
            let part = value.substring_char(0, at);
            assert(part@ =~= value@.take(at as int));
            part.to_owned()
        },
        None => value.to_owned(),
    }
}

/// The context that `value` gets from `categories`.
pub fn derive_context(value: &str, categories: &Vec<Category>) -> (context: StringContext)
    ensures
        context@ == context_for(value@, category_names(categories@)),
{
    if has_category(categories, "url") {
        StringContext::Url { protocol: Some(prefix_before(value, "://")) }
    } else if has_category(categories, "path") {
        let chars = chars_of(value);
        let kind = if holds(&chars, "\\Windows") || holds(&chars, "/usr") {
            "system"
        } else if holds(&chars, "\\Temp") || holds(&chars, "/tmp") {
            "temp"
        } else {
            "general"
        };
        StringContext::Path { path_type: kind.to_owned() }
    } else if has_category(categories, "registry") {
        StringContext::Registry { hive: Some(prefix_before(value, "\\")) }
    } else if has_category(categories, "library") {
        StringContext::Import { library: value.to_owned() }
    } else if has_category(categories, "command") {
        StringContext::Command { command_type: "shell".to_owned() }
    } else {
        StringContext::FileString { offset: None }
    }
}

/// A tracker of strings.  `A` analyses and `C` classifies each string when
/// it is first seen.
pub struct StringTracker<A: StringAnalyzer, C: Categorizer> {
    store: Store,
    analyzer: A,
    categorizer: C,
    max_occurrences_per_string: usize,
}

impl<A: StringAnalyzer, C: Categorizer> View for StringTracker<A, C> {
    type V = Seq<EntryModel>;

    /// The entries, in the order of first sighting.
    closed spec fn view(&self) -> Seq<EntryModel> {
        self.store@
    }
}

impl StringTracker<DefaultStringAnalyzer, DefaultCategorizer> {
    /// A tracker without entries that analyses with the built-in patterns
    /// and the default entropy threshold, classifies with the default
    /// categorizer, and lists 1000 sightings per string at most.
    pub fn new() -> (r: Self)
        ensures
            r@ == Seq::<EntryModel>::empty(),
            r.capacity() == DEFAULT_MAX_OCCURRENCES,
            r.analyzer().patterns() == loaded(builtin_catalog()),
            r.analyzer().threshold() == DEFAULT_ENTROPY_THRESHOLD,
    {
        let provider = DefaultPatternProvider::default();
        let analyzer = DefaultStringAnalyzer::new().with_patterns(provider.get_patterns());
        StringTracker::with_components(analyzer, DefaultCategorizer::new())
    }

    /// With the default components a sighting has one outcome: the
    /// categorizer gives the labels of the built-in rules, and the analyzer
    /// the analysis under its patterns and threshold.
    pub proof fn lemma_default_sighting(
        &self,
        before: Seq<EntryModel>,
        after: Seq<EntryModel>,
        value: &str,
        sighting: OccurrenceModel,
    )
        requires
            self.sighting_reaches(before, after, value, sighting),
        ensures
            after == recorded(
                before,
                self.capacity(),
                value@,
                sighting,
                labels_of(value@),
                analysis_of(self.analyzer().patterns(), self.analyzer().threshold(), value@),
            ),
    {
    }
}

impl Default for StringTracker<DefaultStringAnalyzer, DefaultCategorizer> {
    fn default() -> (r: Self)
        ensures
            r@ == Seq::<EntryModel>::empty(),
            r.capacity() == DEFAULT_MAX_OCCURRENCES,
            r.analyzer().patterns() == loaded(builtin_catalog()),
            r.analyzer().threshold() == DEFAULT_ENTROPY_THRESHOLD,
    {
        StringTracker::new()
    }
}

impl<A: StringAnalyzer, C: Categorizer> StringTracker<A, C> {
    #[verifier::type_invariant]
    spec fn well_formed(self) -> bool {
        self.store.consistent() && sound(self.store@)
    }

    /// The largest number of sightings listed per string.
    pub closed spec fn capacity(&self) -> nat {
        self.max_occurrences_per_string as nat
    }

    /// The analyzer of this tracker.
    pub closed spec fn analyzer(&self) -> A {
        self.analyzer
    }

    /// The categorizer of this tracker.
    pub closed spec fn categorizer(&self) -> C {
        self.categorizer
    }

    /// `after` can be the entries of this tracker after a sighting of
    /// `value` that found the entries `before`, none of them saturated for
    /// `value`.  A known value has one outcome.  For a new value the
    /// outcome is that of the first sighting for some analysis that the
    /// analyzer may return for `value` and some categories that the
    /// categorizer may return for it.
    pub open spec fn sighting_reaches(
        &self,
        before: Seq<EntryModel>,
        after: Seq<EntryModel>,
        value: &str,
        sighting: OccurrenceModel,
    ) -> bool {
        if has_value(before, value@) {
            after == resighted(before, self.capacity(), value@, sighting)
        } else {
            exists|analysis: StringAnalysisResult, categories: Vec<Category>|
                #![trigger first_sighted(before, self.capacity(), value@, sighting, category_names(categories@), analysis@)]
                {
                    &&& call_ensures(A::analyze, (&self.analyzer(), value), analysis)
                    &&& call_ensures(C::categorize, (&self.categorizer(), value), categories)
                    &&& after == first_sighted(
                        before,
                        self.capacity(),
                        value@,
                        sighting,
                        category_names(categories@),
                        analysis@,
                    )
                }
        }
    }

    /// `after` can be the entries of this tracker after a sighting of the
    /// string at position `i` of a batch that found the entries `before`:
    /// the sighting is in the given file by the given tool, at the time
    /// `fixed` if there is one, and in the context that some categories
    /// which the categorizer may return for the string give it.
    pub open spec fn step_reaches(
        &self,
        before: Seq<EntryModel>,
        after: Seq<EntryModel>,
        strings: Seq<String>,
        file_path: Seq<char>,
        file_hash: Seq<char>,
        tool_name: Seq<char>,
        fixed: Option<Timestamp>,
        i: int,
    ) -> bool {
        exists|value: &str, categories: Vec<Category>, now: Timestamp|
            #![trigger sighting_of(file_path, file_hash, tool_name, now, context_for(value@, category_names(categories@)))]
            {
                &&& value@ == strings[i]@
                &&& (fixed is Some ==> now == fixed->0)
                &&& call_ensures(C::categorize, (&self.categorizer(), value), categories)
                &&& !is_saturated(before, value@)
                &&& self.sighting_reaches(
                    before,
                    after,
                    value,
                    sighting_of(
                        file_path,
                        file_hash,
                        tool_name,
                        now,
                        context_for(value@, category_names(categories@)),
                    ),
                )
            }
    }

    /// `trace` lists the entries of this tracker before and after each of
    /// the first `n` sightings of a batch: it begins with `before`, ends
    /// with `after`, and each sighting leads from one item to the next.
    pub open spec fn is_trace(
        &self,
        trace: Seq<Seq<EntryModel>>,
        before: Seq<EntryModel>,
        after: Seq<EntryModel>,
        strings: Seq<String>,
        file_path: Seq<char>,
        file_hash: Seq<char>,
        tool_name: Seq<char>,
        fixed: Option<Timestamp>,
        n: nat,
    ) -> bool {
        &&& trace.len() == n + 1
        &&& trace[0] == before
        &&& trace[n as int] == after
        &&& forall|i: int|
            0 <= i < n ==> #[trigger] self.step_reaches(
                trace[i],
                trace[i + 1],
                strings,
                file_path,
                file_hash,
                tool_name,
                fixed,
                i,
            )
    }

    /// `after` can be the entries of this tracker after sightings of the
    /// first `n` strings of a batch that found the entries `before`.
    pub open spec fn batch_reaches(
        &self,
        before: Seq<EntryModel>,
        after: Seq<EntryModel>,
        strings: Seq<String>,
        file_path: Seq<char>,
        file_hash: Seq<char>,
        tool_name: Seq<char>,
        fixed: Option<Timestamp>,
        n: nat,
    ) -> bool {
        exists|trace: Seq<Seq<EntryModel>>|
            self.is_trace(trace, before, after, strings, file_path, file_hash, tool_name, fixed, n)
    }

    /// A tracker without entries that analyses with `analyzer`, classifies
    /// with `categorizer`, and lists 1000 sightings per string at most.
    pub fn with_components(analyzer: A, categorizer: C) -> (r: Self)
        ensures
            r@ == Seq::<EntryModel>::empty(),
            r.capacity() == DEFAULT_MAX_OCCURRENCES,
            r.analyzer() == analyzer,
            r.categorizer() == categorizer,
    {
        StringTracker {
            store: Store::new(),
            analyzer,
            categorizer,
            max_occurrences_per_string: DEFAULT_MAX_OCCURRENCES,
        }
    }

    /// This tracker with `max` as the largest number of sightings listed
    /// per string.  Sightings already listed stay.
    pub fn with_max_occurrences(self, max: usize) -> (r: Self)
        ensures
            r@ == self@,
            r.capacity() == max,
            r.analyzer() == self.analyzer(),
            r.categorizer() == self.categorizer(),
    {
        proof {
            use_type_invariant(&self);
        }
        StringTracker {
            store: self.store,
            analyzer: self.analyzer,
            categorizer: self.categorizer,
            max_occurrences_per_string: max,
        }
    }

    /// Number of tracked strings.  The entries are sound and of machine size.
    pub fn len(&self) -> (n: usize)
        ensures
            n == self@.len(),
            sound(self@),
            machine_sized(self@),
    {
        proof {
            use_type_invariant(self);
            self.store.lemma_machine_sized();
        }
        self.store.len()
    }

    /// The largest number of sightings listed per string.
    pub fn max_occurrences(&self) -> (n: usize)
        ensures
            n == self.capacity(),
    {
        self.max_occurrences_per_string
    }

    /// Takes in a sighting of `value` at the time `now`.
    ///
    /// A value seen for the first time is analysed and classified, and gets
    /// an entry of its own behind the others; what is found then stays with
    /// the entry.  Every sighting updates the time of the last sighting,
    /// counts, adds the file to the files of the entry and is listed; the
    /// oldest listed sighting leaves when the list is longer than the cap.
    /// Fails, changing nothing, exactly when the counter of the entry is
    /// saturated.  The entries stay sound, and within the cap if they were.
    pub fn track_string_at(
        &mut self,
        value: &str,
        file_path: &str,
        file_hash: &str,
        tool_name: &str,
        context: StringContext,
        now: Timestamp,
    ) -> (r: Result<(), TrackError>)
        ensures
            final(self).capacity() == old(self).capacity(),
            final(self).analyzer() == old(self).analyzer(),
            final(self).categorizer() == old(self).categorizer(),
            sound(old(self)@),
            sound(final(self)@),
            within_cap(old(self)@, old(self).capacity()) ==> within_cap(
                final(self)@,
                final(self).capacity(),
            ),
            is_saturated(old(self)@, value@) ==> r is Err && final(self)@ == old(self)@,
            !is_saturated(old(self)@, value@) ==> r is Ok && old(self).sighting_reaches(
                old(self)@,
                final(self)@,
                value,
                sighting_of(file_path@, file_hash@, tool_name@, now, context@),
            ),
    {
        proof {
            use_type_invariant(&*self);
        }
        let occurrence = StringOccurrence {
            file_path: file_path.to_owned(),
            file_hash: file_hash.to_owned(),
            tool_name: tool_name.to_owned(),
            timestamp: now,
            context,
        };
        let ghost before = self@;
        let ghost sighting = occurrence@;
        let cap = self.max_occurrences_per_string;
        match self.store.lookup(value) {
            Some(at) => {
                if self.store.sightings_at(at) == usize::MAX {
                    return Err(TrackError::CounterSaturated);
                }
                proof {
                    let nothing = AnalysisModel {
                        entropy: 0,
                        is_suspicious: false,
                        suspicious_indicators: Seq::empty(),
                        categories: Seq::empty(),
                    };
                    lemma_recorded_sound(before, cap as nat, value@, sighting, Seq::empty(), nothing);
                    if within_cap(before, cap as nat) {
                        lemma_recorded_within_cap(
                            before,
                            cap as nat,
                            value@,
                            sighting,
                            Seq::empty(),
                            nothing,
                        );
                    }
                }
                let mut store = Store::new();
                std::mem::swap(&mut self.store, &mut store);
                store.note_sighting(at, cap, occurrence);
                self.store = store;
                Ok(())
            },
            None => {
                let analysis = self.analyzer.analyze(value);
                let categories = self.categorizer.categorize(value);
                proof {
                    lemma_recorded_sound(
                        before,
                        cap as nat,
                        value@,
                        sighting,
                        category_names(categories@),
                        analysis@,
                    );
                    if within_cap(before, cap as nat) {
                        lemma_recorded_within_cap(
                            before,
                            cap as nat,
                            value@,
                            sighting,
                            category_names(categories@),
                            analysis@,
                        );
                    }
                }
                let mut store = Store::new();
                std::mem::swap(&mut self.store, &mut store);
                store.first_sighting(cap, value.to_owned(), occurrence, &categories, &analysis);
                self.store = store;
                assert(self@ == first_sighted(
                    before,
                    cap as nat,
                    value@,
                    sighting,
                    category_names(categories@),
                    analysis@,
                ));
                Ok(())
            },
        }
    }

    /// Takes in a sighting of `value` at the time that the system clock
    /// shows.  What `track_string_at` ensures holds for that time.
    pub fn track_string(
        &mut self,
        value: &str,
        file_path: &str,
        file_hash: &str,
        tool_name: &str,
        context: StringContext,
    ) -> (r: Result<(), TrackError>)
        ensures
            final(self).capacity() == old(self).capacity(),
            final(self).analyzer() == old(self).analyzer(),
            final(self).categorizer() == old(self).categorizer(),
            sound(final(self)@),
            within_cap(old(self)@, old(self).capacity()) ==> within_cap(
                final(self)@,
                final(self).capacity(),
            ),
            is_saturated(old(self)@, value@) ==> r is Err && final(self)@ == old(self)@,
            !is_saturated(old(self)@, value@) ==> r is Ok && exists|now: Timestamp|
                old(self).sighting_reaches(
                    old(self)@,
                    final(self)@,
                    value,
                    #[trigger] sighting_of(file_path@, file_hash@, tool_name@, now, context@),
                ),
    {
        let now = current_time();
        let ghost sighting = sighting_of(file_path@, file_hash@, tool_name@, now, context@);
        let r = self.track_string_at(value, file_path, file_hash, tool_name, context, now);
        proof {
            if !is_saturated(old(self)@, value@) {
                assert(old(self).sighting_reaches(old(self)@, self@, value, sighting));
            }
        }
        r
    }

    /// Takes in one sighting of each of `strings`, all in the same file and
    /// by the same tool.  Each sighting is at the time `fixed` if there is
    /// one, and else at the time that the system clock shows when its turn
    /// comes.  Returns the number of strings taken in.
    fn track_batch(
        &mut self,
        strings: &[String],
        file_path: &str,
        file_hash: &str,
        tool_name: &str,
        fixed: Option<Timestamp>,
    ) -> (taken: usize)
        ensures
            final(self).capacity() == old(self).capacity(),
            final(self).analyzer() == old(self).analyzer(),
            final(self).categorizer() == old(self).categorizer(),
            sound(final(self)@),
            within_cap(old(self)@, old(self).capacity()) ==> within_cap(
                final(self)@,
                final(self).capacity(),
            ),
            taken <= strings.len(),
            old(self).batch_reaches(
                old(self)@,
                final(self)@,
                strings@,
                file_path@,
                file_hash@,
                tool_name@,
                fixed,
                taken as nat,
            ),
            taken < strings.len() ==> is_saturated(final(self)@, strings[taken as int]@),
    {
        proof {
            use_type_invariant(&*self);
        }
        let ghost start = self@;
        let ghost mut trace: Seq<Seq<EntryModel>> = seq![start];
        let mut i: usize = 0;
        while i < strings.len()
            invariant
                i <= strings.len(),
                start == old(self)@,
                old(self).is_trace(
                    trace,
                    start,
                    self@,
                    strings@,
                    file_path@,
                    file_hash@,
                    tool_name@,
                    fixed,
                    i as nat,
                ),
                self.capacity() == old(self).capacity(),
                self.analyzer() == old(self).analyzer(),
                self.categorizer() == old(self).categorizer(),
                sound(self@),
                within_cap(old(self)@, old(self).capacity()) ==> within_cap(self@, self.capacity()),
            decreases strings.len() - i,
        {
            let value = strings[i].as_str();
            let categories = self.categorizer.categorize(value);
            let context = derive_context(value, &categories);
            let now = match fixed {
                Some(t) => t,
                None => current_time(),
            };
            let ghost middle = self@;
            match self.track_string_at(value, file_path, file_hash, tool_name, context, now) {
                Ok(()) => {
                    proof {
                        assert(old(self).sighting_reaches(
                            middle,
                            self@,
                            value,
                            sighting_of(
                                file_path@,
                                file_hash@,
                                tool_name@,
                                now,
                                context_for(value@, category_names(categories@)),
                            ),
                        ));
                        assert(old(self).step_reaches(
                            middle,
                            self@,
                            strings@,
                            file_path@,
                            file_hash@,
                            tool_name@,
                            fixed,
                            i as int,
                        ));
                        let longer = trace.push(self@);
                        assert forall|k: int| 0 <= k < i + 1 implies #[trigger] old(
                            self,
                        ).step_reaches(
                            longer[k],
                            longer[k + 1],
                            strings@,
                            file_path@,
                            file_hash@,
                            tool_name@,
                            fixed,
                            k,
                        ) by {
                            if k < i {
                                assert(longer[k] == trace[k] && longer[k + 1] == trace[k + 1]);
                            }
                        }
                        trace = longer;
                    }
                },
                Err(_) => {
                    return i;
                },
            }
            i += 1;
        }
        i
    }

    /// Takes in one sighting of each of `strings`, all in the same file, by
    /// the same tool and at the time `now`.  Each string is classified; its
    /// labels give it its context.  Stops with an error at the first string
    /// whose counter is saturated; the strings before it have been taken in.
    pub fn track_strings_from_results_at(
        &mut self,
        strings: &[String],
        file_path: &str,
        file_hash: &str,
        tool_name: &str,
        now: Timestamp,
    ) -> (r: Result<(), TrackError>)
        ensures
            final(self).capacity() == old(self).capacity(),
            final(self).analyzer() == old(self).analyzer(),
            final(self).categorizer() == old(self).categorizer(),
            sound(final(self)@),
            within_cap(old(self)@, old(self).capacity()) ==> within_cap(
                final(self)@,
                final(self).capacity(),
            ),
            r is Ok ==> old(self).batch_reaches(
                old(self)@,
                final(self)@,
                strings@,
                file_path@,
                file_hash@,
                tool_name@,
                Some(now),
                strings.len() as nat,
            ),
            r is Err ==> exists|taken: nat|
                taken < strings.len() && is_saturated(final(self)@, strings[taken as int]@)
                    && #[trigger] old(self).batch_reaches(
                    old(self)@,
                    final(self)@,
                    strings@,
                    file_path@,
                    file_hash@,
                    tool_name@,
                    Some(now),
                    taken,
                ),
    {
        let taken = self.track_batch(strings, file_path, file_hash, tool_name, Some(now));
        if taken < strings.len() {
            assert(old(self).batch_reaches(
                old(self)@,
                self@,
                strings@,
                file_path@,
                file_hash@,
                tool_name@,
                Some(now),
                taken as nat,
            ));
            Err(TrackError::CounterSaturated)
        } else {
            Ok(())
        }
    }

    /// Takes in one sighting of each of `strings`, each at the time that
    /// the system clock shows when its turn comes.  What
    /// `track_strings_from_results_at` ensures holds with those times in
    /// place of the one time.
    pub fn track_strings_from_results(
        &mut self,
        strings: &[String],
        file_path: &str,
        file_hash: &str,
        tool_name: &str,
    ) -> (r: Result<(), TrackError>)
        ensures
            final(self).capacity() == old(self).capacity(),
            final(self).analyzer() == old(self).analyzer(),
            final(self).categorizer() == old(self).categorizer(),
            sound(final(self)@),
            within_cap(old(self)@, old(self).capacity()) ==> within_cap(
                final(self)@,
                final(self).capacity(),
            ),
            r is Ok ==> old(self).batch_reaches(
                old(self)@,
                final(self)@,
                strings@,
                file_path@,
                file_hash@,
                tool_name@,
                None,
                strings.len() as nat,
            ),
            r is Err ==> exists|taken: nat|
                taken < strings.len() && is_saturated(final(self)@, strings[taken as int]@)
                    && #[trigger] old(self).batch_reaches(
                    old(self)@,
                    final(self)@,
                    strings@,
                    file_path@,
                    file_hash@,
                    tool_name@,
                    None,
                    taken,
                ),
    {
        let taken = self.track_batch(strings, file_path, file_hash, tool_name, None);
        if taken < strings.len() {
            assert(old(self).batch_reaches(
                old(self)@,
                self@,
                strings@,
                file_path@,
                file_hash@,
                tool_name@,
                None,
                taken as nat,
            ));
            Err(TrackError::CounterSaturated)
        } else {
            Ok(())
        }
    }

    /// The statistics of the tracked strings that `filter` accepts; of all
    /// tracked strings if there is no filter.
    pub fn get_statistics(&self, filter: Option<&StringFilter>) -> (stats: StringStatistics)
        ensures
            describes(stats, self@, filter),
            sound(self@),
            machine_sized(self@),
    {
        proof {
            use_type_invariant(self);
            self.store.lemma_machine_sized();
        }
        compute_statistics(self.store.entries(), filter)
    }

    /// A copy of the entry for `value`, if `value` is tracked.
    pub fn get_string_details(&self, value: &str) -> (r: Option<StringEntry>)
        ensures
            has_value(self@, value@) ==> r is Some && r->0@ == self@[position_of_value(
                self@,
                value@,
            )] && r->0@.value == value@,
            !has_value(self@, value@) ==> r is None,
            sound(self@),
            machine_sized(self@),
    {
        proof {
            use_type_invariant(self);
            self.store.lemma_machine_sized();
        }
        match self.store.lookup(value) {
            Some(at) => {
                let entries = self.store.entries();
                assert(entry_models(entries@)[at as int] == entries[at as int]@);
                Some(entries[at].clone())
            },
            None => None,
        }
    }

    /// Copies of the entries whose value contains `query`, letter case
    /// aside: those seen most often first, `limit` at most.  A query that
    /// is empty or holds nothing but white space finds nothing.
    pub fn search_strings(&self, query: &str, limit: usize) -> (list: Vec<StringEntry>)
        ensures
            entry_models(list@) == search_result(self@, query@, limit as nat),
            is_blank(query@) ==> list@.len() == 0,
            list@.len() <= limit,
            sound(self@),
            machine_sized(self@),
    {
        proof {
            use_type_invariant(self);
            self.store.lemma_machine_sized();
            crate::queries::lemma_search_result(self@, query@, limit as nat);
        }
        let list = search(self.store.entries(), query, limit);
        assert(list@.len() == entry_models(list@).len());
        list
    }

    /// The tracked strings related to `value`, with their similarity
    /// scores: most similar first, `limit` at most.  A string is related
    /// when the mean of the factors that it has with `value` is above 0.3;
    /// its score is that mean in millionths, rounded up.  Finds nothing if
    /// `value` is not tracked; never finds `value` itself, never a string
    /// twice, and never a string that is not related; finds all related
    /// strings, or `limit` of them if there are more.
    pub fn get_related_strings(&self, value: &str, limit: usize) -> (list: Vec<(String, u64)>)
        ensures
            scored(list@) == related_result(self@, value@, limit as nat),
            !has_value(self@, value@) ==> list@.len() == 0,
            list@.len() <= limit,
            forall|j: int|
                0 <= j < list@.len() ==> (#[trigger] list@[j]).0@ != value@ && RELATED_THRESHOLD
                    < list@[j].1 <= SCORE_SCALE,
            forall|a: int, b: int|
                0 <= a < b < list@.len() ==> list@[a].0@ != list@[b].0@ && list@[a].1
                    >= list@[b].1,
            has_value(self@, value@) ==> list@.len() == if rivals(
                self@,
                position_of_value(self@, value@),
                self@.len(),
            ).len() < limit {
                rivals(self@, position_of_value(self@, value@), self@.len()).len()
            } else {
                limit as nat
            },
            sound(self@),
            machine_sized(self@),
    {
        proof {
            use_type_invariant(self);
            self.store.lemma_machine_sized();
            lemma_related_result(self@, value@, limit as nat);
            if has_value(self@, value@) {
                lemma_related_ranking(self@, value@, limit as nat);
            }
        }
        let list = match self.store.lookup(value) {
            Some(at) => related(self.store.entries(), at, limit),
            None => {
                let empty: Vec<(String, u64)> = Vec::new();
                assert(scored(empty@) =~= Seq::<(Seq<char>, u64)>::empty());
                empty
            },
        };
        proof {
            assert(list@.len() == scored(list@).len());
            assert forall|j: int| 0 <= j < list@.len() implies (#[trigger] list@[j]).0@ != value@
                && RELATED_THRESHOLD < list@[j].1 <= SCORE_SCALE by {
                assert(scored(list@)[j] == (list@[j].0@, list@[j].1));
            }
            assert forall|a: int, b: int| 0 <= a < b < list@.len() implies list@[a].0@
                != list@[b].0@ && list@[a].1 >= list@[b].1 by {
                assert(scored(list@)[a] == (list@[a].0@, list@[a].1));
                assert(scored(list@)[b] == (list@[b].0@, list@[b].1));
            }
        }
        list
    }

    /// Forgets every tracked string.
    pub fn clear(&mut self)
        ensures
            final(self)@ == Seq::<EntryModel>::empty(),
            final(self).capacity() == old(self).capacity(),
            final(self).analyzer() == old(self).analyzer(),
            final(self).categorizer() == old(self).categorizer(),
    {
        self.store = Store::new();
    }
}

} // verus!
