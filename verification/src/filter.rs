//! Which entries a filter accepts.

use vstd::prelude::*;
use crate::clock::not_after;
use crate::labels::{contains_string, texts};
use crate::matcher::{regex_matches, regex_valid, regex_verdict_on};
use crate::model::{byte_len, length_in_bytes, EntryModel, StringEntry, StringFilter};

verus! {

/// Some text of `wanted` is among `held`.
pub open spec fn intersects(wanted: Seq<Seq<char>>, held: Seq<Seq<char>>) -> bool {
    exists|i: int| 0 <= i < wanted.len() && held.contains(wanted[i])
}

/// The constraint of an optional list: if a list is given, some text of it
/// is among `held`.
pub open spec fn allows(wanted: Option<Vec<String>>, held: Seq<Seq<char>>) -> bool {
    match wanted {
        Some(list) => intersects(texts(list@), held),
        None => true,
    }
}

/// What the regular expression of a filter says of `value`: whether it
/// matches, or nothing if there is no expression or it does not compile.
pub open spec fn regex_verdict(pattern: Option<String>, value: Seq<char>) -> Option<bool> {
    match pattern {
        Some(source) => if regex_valid(source@) {
            Some(regex_matches(source@, value))
        } else {
            None
        },
        None => None,
    }
}

/// Whether filter `f` accepts entry `e`, given what its regular expression
/// says of the value of `e`: every constraint that is present holds, and
/// the expression does not say that the value fails to match.
pub open spec fn accepts_given(f: StringFilter, e: EntryModel, verdict: Option<bool>) -> bool {
    &&& f.min_occurrences matches Some(least) ==> e.total_occurrences >= least
    &&& f.max_occurrences matches Some(most) ==> e.total_occurrences <= most
    &&& f.min_length matches Some(least) ==> byte_len(e.value) >= least
    &&& f.max_length matches Some(most) ==> byte_len(e.value) <= most
    &&& allows(f.categories, e.categories)
    &&& allows(f.file_paths, e.unique_files)
    &&& allows(f.file_hashes, e.unique_files)
    &&& f.suspicious_only == Some(true) ==> e.is_suspicious
    &&& verdict != Some(false)
    &&& f.min_entropy matches Some(least) ==> e.entropy >= least
    &&& f.max_entropy matches Some(most) ==> e.entropy <= most
    &&& f.date_range matches Some(range) ==> not_after(range.0, e.first_seen) && not_after(
        e.first_seen,
        range.1,
    )
}

/// Whether filter `f` accepts entry `e`: every constraint that is present
/// holds.  A regular expression that does not compile is no constraint.
pub open spec fn filter_accepts(f: StringFilter, e: EntryModel) -> bool {
    accepts_given(f, e, regex_verdict(f.regex_pattern, e.value))
}

/// Whether an optional filter accepts entry `e`; no filter accepts every entry.
pub open spec fn accepts(filter: Option<&StringFilter>, e: EntryModel) -> bool {
    match filter {
        Some(f) => filter_accepts(*f, e),
        None => true,
    }
}

/// A filter without constraints accepts every entry.
pub proof fn lemma_empty_filter_accepts(f: StringFilter, e: EntryModel)
    requires
        f.min_occurrences is None,
        f.max_occurrences is None,
        f.min_length is None,
        f.max_length is None,
        f.categories is None,
        f.file_paths is None,
        f.file_hashes is None,
        f.suspicious_only is None,
        f.regex_pattern is None,
        f.min_entropy is None,
        f.max_entropy is None,
        f.date_range is None,
    ensures
        filter_accepts(f, e),
{
}

/// Whether some string of `wanted` is among `held`.
pub fn any_shared(wanted: &Vec<String>, held: &Vec<String>) -> (r: bool)
    ensures
        r == intersects(texts(wanted@), texts(held@)),
{
    let mut i: usize = 0;
    while i < wanted.len()
        invariant
            i <= wanted.len(),
            forall|j: int| 0 <= j < i ==> !texts(held@).contains(texts(wanted@)[j]),
        decreases wanted.len() - i,
    {
        if contains_string(held, &wanted[i]) {
            assert(texts(wanted@)[i as int] == wanted[i as int]@);
            return true;
        }
        assert(texts(wanted@)[i as int] == wanted[i as int]@);
        i += 1;
    }
    false
}

/// Whether an optional list allows the strings `held`.
fn list_allows(wanted: &Option<Vec<String>>, held: &Vec<String>) -> (r: bool)
    ensures
        r == allows(*wanted, texts(held@)),
{
    match wanted {
        Some(list) => any_shared(list, held),
        None => true,
    }
}

/// Whether `filter` accepts `entry`, given what its regular expression
/// says of the value of `entry`.
pub fn matches_filter_given(entry: &StringEntry, f: &StringFilter, verdict: Option<bool>) -> (r:
    bool)
    ensures
        r == accepts_given(*f, entry@, verdict),
{
    if let Some(least) = f.min_occurrences {
        if entry.total_occurrences < least {
            return false;
        }
    }
    if let Some(most) = f.max_occurrences {
        if entry.total_occurrences > most {
            return false;
        }
    }
    if let Some(least) = f.min_length {
        if length_in_bytes(&entry.value) < least {
            return false;
        }
    }
    if let Some(most) = f.max_length {
        if length_in_bytes(&entry.value) > most {
            return false;
        }
    }
    if !list_allows(&f.categories, &entry.categories) {
        return false;
    }
    if !list_allows(&f.file_paths, &entry.unique_files) {
        return false;
    }
    if !list_allows(&f.file_hashes, &entry.unique_files) {
        return false;
    }
    if let Some(only) = f.suspicious_only {
        if only && !entry.is_suspicious {
            return false;
        }
    }
    if let Some(matches) = verdict {
        if !matches {
            return false;
        }
    }
    if let Some(least) = f.min_entropy {
        if entry.entropy < least {
            return false;
        }
    }
    if let Some(most) = f.max_entropy {
        if entry.entropy > most {
            return false;
        }
    }
    if let Some(range) = f.date_range {
        if !range.0.is_not_after(&entry.first_seen) || !entry.first_seen.is_not_after(&range.1) {
            return false;
        }
    }
    true
}

/// Whether `filter` accepts `entry`; no filter accepts every entry.
pub fn matches_filter(entry: &StringEntry, filter: Option<&StringFilter>) -> (r: bool)
    ensures
        r == accepts(filter, entry@),
{
    match filter {
        Some(f) => {
            let verdict = match &f.regex_pattern {
                Some(source) => regex_verdict_on(source.as_str(), entry.value.as_str()),
                None => None,
            };
            matches_filter_given(entry, f, verdict)
        },
        None => true,
    }
}

} // verus!
