//! Search by substring and search for related strings.

use vstd::prelude::*;
use crate::ledger::{has_value, position_of_value, values_unique};
use crate::model::{entry_models, EntryModel, StringEntry};
use crate::ranking::{is_ranking, lemma_top_ranked, positions, ranks_before, top_k, top_ranked};
use crate::similarity::{
    is_related, lemma_similarity_bounds, lemma_threshold_exact, similarity, similarity_of,
    RELATED_THRESHOLD, SCORE_SCALE,
};
use crate::statistics::{scored, sighting_keys};
use crate::text::{contains, contains_text};
use crate::unicode::{blank, is_blank, lowercase_chars, lowercased};

verus! {

/// Positions among the first `n` of the texts of `lowered` that contain `needle`.
pub open spec fn hits(lowered: Seq<Seq<char>>, needle: Seq<char>, n: nat) -> Seq<int>
    decreases n,
{
    if n == 0 {
        Seq::empty()
    } else {
        let rest = hits(lowered, needle, (n - 1) as nat);
        if contains_text(lowered[n - 1], needle) {
            rest.push(n - 1)
        } else {
            rest
        }
    }
}

/// The entries at the positions `found`, those seen most often first,
/// `limit` at most; entries seen equally often in the order of `found`.
pub open spec fn picked(entries: Seq<EntryModel>, found: Seq<int>, limit: nat) -> Seq<EntryModel> {
    let ranks = top_ranked(sighting_keys(entries, found), found.len(), limit);
    Seq::new(ranks.len(), |j: int| entries[found[ranks[j]]])
}

/// The values of the entries in lower case.
pub open spec fn lowered_values(entries: Seq<EntryModel>) -> Seq<Seq<char>> {
    Seq::new(entries.len(), |i: int| lowercased(entries[i].value))
}

/// The texts held by a sequence of character vectors.
pub open spec fn char_texts(s: Seq<Vec<char>>) -> Seq<Seq<char>> {
    Seq::new(s.len(), |i: int| s[i]@)
}

/// What a search for `query` returns: nothing for a blank query; otherwise
/// the entries whose value contains the query, letter case aside, those
/// seen most often first, `limit` at most.
pub open spec fn search_result(entries: Seq<EntryModel>, query: Seq<char>, limit: nat) -> Seq<
    EntryModel,
> {
    if is_blank(query) {
        Seq::empty()
    } else {
        picked(entries, hits(lowered_values(entries), lowercased(query), entries.len()), limit)
    }
}

/// Positions of the entries among the first `n` that are related to the
/// entry at `target`: their value is another and the mean of the factors
/// that they have with it is above 0.3.
pub open spec fn rivals(entries: Seq<EntryModel>, target: int, n: nat) -> Seq<int>
    decreases n,
{
    if n == 0 {
        Seq::empty()
    } else {
        let rest = rivals(entries, target, (n - 1) as nat);
        if entries[n - 1].value != entries[target].value && is_related(
            entries[target],
            entries[n - 1],
        ) {
            rest.push(n - 1)
        } else {
            rest
        }
    }
}

/// The similarities of the entries at `others` to the entry at `target`.
pub open spec fn rival_keys(entries: Seq<EntryModel>, target: int, others: Seq<int>) -> Seq<u64> {
    Seq::new(others.len(), |j: int| similarity_of(entries[target], entries[others[j]]) as u64)
}

/// The entries related to the entry at `target`, with their similarities:
/// most similar first, `limit` at most.
pub open spec fn related_to(entries: Seq<EntryModel>, target: int, limit: nat) -> Seq<
    (Seq<char>, u64),
> {
    let others = rivals(entries, target, entries.len());
    let ranks = top_ranked(rival_keys(entries, target, others), others.len(), limit);
    Seq::new(
        ranks.len(),
        |j: int|
            (
                entries[others[ranks[j]]].value,
                similarity_of(entries[target], entries[others[ranks[j]]]) as u64,
            ),
    )
}

/// What a search for the strings related to `value` returns: nothing if
/// `value` is not tracked.
pub open spec fn related_result(entries: Seq<EntryModel>, value: Seq<char>, limit: nat) -> Seq<
    (Seq<char>, u64),
> {
    if has_value(entries, value) {
        related_to(entries, position_of_value(entries, value), limit)
    } else {
        Seq::empty()
    }
}

/// A blank query finds nothing, whatever is tracked; the empty query is blank.
pub proof fn lemma_blank_search(entries: Seq<EntryModel>, query: Seq<char>, limit: nat)
    ensures
        is_blank(query) ==> search_result(entries, query, limit).len() == 0,
        is_blank(Seq::<char>::empty()),
        search_result(entries, Seq::<char>::empty(), limit).len() == 0,
{
}

/// The rivals are exactly the positions of the entries with another value
/// whose mean with the target is above 0.3, in increasing order; their
/// scores are above the threshold.
pub proof fn lemma_rivals(entries: Seq<EntryModel>, target: int, n: nat)
    ensures
        rivals(entries, target, n).len() <= n,
        forall|j: int|
            0 <= j < rivals(entries, target, n).len() ==> {
                let at = #[trigger] rivals(entries, target, n)[j];
                &&& 0 <= at < n
                &&& entries[at].value != entries[target].value
                &&& is_related(entries[target], entries[at])
                &&& similarity_of(entries[target], entries[at]) > RELATED_THRESHOLD
            },
        forall|a: int, b: int|
            0 <= a < b < rivals(entries, target, n).len() ==> rivals(entries, target, n)[a]
                < rivals(entries, target, n)[b],
        forall|i: int|
            0 <= i < n && entries[i].value != entries[target].value && is_related(
                entries[target],
                entries[i],
            ) ==> rivals(entries, target, n).contains(i),
    decreases n,
{
    if n > 0 {
        let rest = rivals(entries, target, (n - 1) as nat);
        let all = rivals(entries, target, n);
        lemma_rivals(entries, target, (n - 1) as nat);
        lemma_threshold_exact(entries[target], entries[n - 1]);
        assert forall|i: int|
            0 <= i < n && entries[i].value != entries[target].value && is_related(
                entries[target],
                entries[i],
            ) implies all.contains(i) by {
            if i < n - 1 {
                assert(rest.contains(i));
                let j = choose|j: int| 0 <= j < rest.len() && rest[j] == i;
                assert(all[j] == i);
            } else {
                assert(all[all.len() - 1] == i);
            }
        }
    }
}

/// A search for related strings never returns the value itself, never a
/// string whose similarity is at or below the threshold, and never more
/// than `limit` strings.
pub proof fn lemma_related_result(entries: Seq<EntryModel>, value: Seq<char>, limit: nat)
    ensures
        !has_value(entries, value) ==> related_result(entries, value, limit).len() == 0,
        related_result(entries, value, limit).len() <= limit,
        forall|j: int|
            0 <= j < related_result(entries, value, limit).len() ==> {
                let item = #[trigger] related_result(entries, value, limit)[j];
                &&& item.0 != value
                &&& RELATED_THRESHOLD < item.1 <= SCORE_SCALE
            },
{
    if has_value(entries, value) {
        let target = position_of_value(entries, value);
        let others = rivals(entries, target, entries.len());
        let keys = rival_keys(entries, target, others);
        let ranks = top_ranked(keys, others.len(), limit);
        lemma_rivals(entries, target, entries.len());
        lemma_top_ranked(keys, others.len(), limit);
        let result = related_result(entries, value, limit);
        assert forall|j: int| 0 <= j < result.len() implies {
            let item = #[trigger] result[j];
            &&& item.0 != value
            &&& RELATED_THRESHOLD < item.1 <= SCORE_SCALE
        } by {
            let at = others[ranks[j]];
            lemma_similarity_bounds(entries[target], entries[at]);
        }
    }
}

/// What a search for related strings lists, where no two entries have the
/// same value: as many strings as are related, or `limit` if more are; no
/// string twice; scores that never rise along the list; and every related
/// string that is left out has a score no higher than the last one listed.
pub proof fn lemma_related_ranking(entries: Seq<EntryModel>, value: Seq<char>, limit: nat)
    requires
        has_value(entries, value),
        values_unique(entries),
    ensures
        ({
            let target = position_of_value(entries, value);
            let others = rivals(entries, target, entries.len());
            let result = related_result(entries, value, limit);
            &&& result.len() == if others.len() < limit {
                others.len()
            } else {
                limit
            }
            &&& forall|a: int, b: int| 0 <= a < b < result.len() ==> result[a].0 != result[b].0
            &&& forall|a: int, b: int| 0 <= a < b < result.len() ==> result[a].1 >= result[b].1
            &&& forall|k: int|
                0 <= k < others.len() && (forall|j: int|
                    0 <= j < result.len() ==> result[j].0 != entries[others[k]].value)
                    ==> result.len() == limit && (limit > 0 ==> similarity_of(
                    entries[target],
                    entries[#[trigger] others[k]],
                ) <= result.last().1)
        }),
{
    let target = position_of_value(entries, value);
    let others = rivals(entries, target, entries.len());
    let keys = rival_keys(entries, target, others);
    let ranks = top_ranked(keys, others.len(), limit);
    let result = related_result(entries, value, limit);
    lemma_rivals(entries, target, entries.len());
    lemma_top_ranked(keys, others.len(), limit);
    assert forall|k: int| 0 <= k < others.len() implies keys[k] == similarity_of(
        entries[target],
        entries[others[k]],
    ) by {
        lemma_similarity_bounds(entries[target], entries[others[k]]);
    }
    assert forall|a: int, b: int| 0 <= a < b < result.len() implies result[a].0 != result[b].0
        && result[a].1 >= result[b].1 by {
        assert(ranks_before(keys, ranks[a], ranks[b]));
        assert(0 <= ranks[a] < others.len() && 0 <= ranks[b] < others.len());
        assert(ranks[a] != ranks[b]);
        if ranks[a] < ranks[b] {
            assert(others[ranks[a]] < others[ranks[b]]);
        } else {
            assert(others[ranks[b]] < others[ranks[a]]);
        }
    }
    assert forall|k: int|
        0 <= k < others.len() && (forall|j: int|
            0 <= j < result.len() ==> result[j].0 != entries[others[k]].value) implies result.len()
        == limit && (limit > 0 ==> similarity_of(entries[target], entries[#[trigger] others[k]])
        <= result.last().1) by {
        assert(!ranks.contains(k)) by {
            if ranks.contains(k) {
                let j = choose|j: int| 0 <= j < ranks.len() && ranks[j] == k;
                assert(result[j].0 == entries[others[k]].value);
            }
        }
        if limit > 0 {
            assert(ranks_before(keys, ranks.last(), k));
            assert(0 <= ranks.last() < others.len());
        }
    }
}

/// A search finds only entries whose value contains the query, letter case
/// aside, and never more than `limit` of them.
pub proof fn lemma_search_result(entries: Seq<EntryModel>, query: Seq<char>, limit: nat)
    ensures
        search_result(entries, query, limit).len() <= limit,
        forall|j: int|
            0 <= j < search_result(entries, query, limit).len() ==> contains_text(
                lowercased((#[trigger] search_result(entries, query, limit)[j]).value),
                lowercased(query),
            ),
{
    if !is_blank(query) {
        let needle = lowercased(query);
        let lowered = lowered_values(entries);
        let found = hits(lowered, needle, entries.len());
        lemma_hits(lowered, needle, entries.len());
        lemma_top_ranked(sighting_keys(entries, found), found.len(), limit);
    }
}

/// Every hit is a position of a text that contains the needle.
pub proof fn lemma_hits(lowered: Seq<Seq<char>>, needle: Seq<char>, n: nat)
    ensures
        hits(lowered, needle, n).len() <= n,
        forall|j: int|
            0 <= j < hits(lowered, needle, n).len() ==> 0 <= #[trigger] hits(lowered, needle, n)[j]
                < n && contains_text(lowered[hits(lowered, needle, n)[j]], needle),
    decreases n,
{
    if n > 0 {
        lemma_hits(lowered, needle, (n - 1) as nat);
    }
}

/// Of the entries whose text in `lowered` contains `needle`, those seen
/// most often, `limit` at most.  `lowered` holds one text for each entry;
/// entries without a text are passed over.
pub fn search_among(
    entries: &Vec<StringEntry>,
    lowered: &Vec<Vec<char>>,
    needle: &Vec<char>,
    limit: usize,
) -> (list: Vec<StringEntry>)
    ensures
        entry_models(list@) == picked(
            entry_models(entries@),
            hits(
                char_texts(lowered@),
                needle@,
                if lowered.len() < entries.len() {
                    lowered.len() as nat
                } else {
                    entries.len() as nat
                },
            ),
            limit as nat,
        ),
{
    let ghost models = entry_models(entries@);
    let ghost low = char_texts(lowered@);
    let count = if lowered.len() < entries.len() {
        lowered.len()
    } else {
        entries.len()
    };
    let mut list: Vec<StringEntry> = Vec::new();
    let mut found: Vec<usize> = Vec::new();
    let mut keys: Vec<u64> = Vec::new();
    let mut i: usize = 0;
    assert(positions(found@) =~= Seq::<int>::empty());
    while i < count
        invariant
            i <= count,
            count <= entries.len(),
            count <= lowered.len(),
            models == entry_models(entries@),
            low == char_texts(lowered@),
            positions(found@) == hits(low, needle@, i as nat),
            forall|k: int| 0 <= k < found.len() ==> #[trigger] found[k] < entries.len(),
            keys.len() == found.len(),
            forall|k: int| 0 <= k < found.len() ==> keys[k] == entries[found[k] as int].total_occurrences,
        decreases count - i,
    {
        proof {
            assert(low[i as int] == lowered[i as int]@);
        }
        if contains(&lowered[i], needle) {
            let ghost before = positions(found@);
            found.push(i);
            keys.push(entries[i].total_occurrences as u64);
            assert(positions(found@) =~= before.push(i as int));
        }
        i += 1;
    }
    let ghost spots = positions(found@);
    assert(keys@ =~= sighting_keys(models, spots)) by {
        assert forall|k: int| 0 <= k < keys.len() implies keys@[k] == sighting_keys(models, spots)[k] by {
            assert(models[found[k] as int] == entries[found[k] as int]@);
        }
    }
    let ranks = top_k(&keys, limit);
    let ghost ranked = positions(ranks@);
    let mut r: usize = 0;
    assert(entry_models(list@) =~= Seq::<EntryModel>::empty());
    while r < ranks.len()
        invariant
            r <= ranks.len(),
            list.len() == r,
            models == entry_models(entries@),
            spots == positions(found@),
            ranked == positions(ranks@),
            keys.len() == found.len(),
            ranked == top_ranked(sighting_keys(models, spots), found.len() as nat, limit as nat),
            is_ranking(ranked, keys@, keys.len() as nat, limit as nat),
            forall|k: int| 0 <= k < found.len() ==> #[trigger] found[k] < entries.len(),
            forall|k: int| 0 <= k < r ==> entry_models(list@)[k] == picked(models, spots, limit as nat)[k],
        decreases ranks.len() - r,
    {
        proof {
            assert(0 <= ranked[r as int] < keys.len());
            assert(ranked[r as int] == ranks[r as int]);
        }
        let at = found[ranks[r]];
        proof {
            assert(models[at as int] == entries[at as int]@);
            assert(spots[ranked[r as int]] == at);
        }
        let ghost before = entry_models(list@);
        list.push(entries[at].clone());
        assert(entry_models(list@) =~= before.push(entries[at as int]@));
        r += 1;
    }
    assert(entry_models(list@) =~= picked(models, spots, limit as nat));
    list
}

/// The entries whose value contains `query`, letter case aside.
pub fn search(entries: &Vec<StringEntry>, query: &str, limit: usize) -> (list: Vec<StringEntry>)
    ensures
        entry_models(list@) == search_result(entry_models(entries@), query@, limit as nat),
{
    let ghost models = entry_models(entries@);
    if blank(query) {
        let list: Vec<StringEntry> = Vec::new();
        assert(entry_models(list@) =~= Seq::<EntryModel>::empty());
        return list;
    }
    let needle = lowercase_chars(query);
    let mut lowered: Vec<Vec<char>> = Vec::new();
    let mut i: usize = 0;
    while i < entries.len()
        invariant
            i <= entries.len(),
            lowered.len() == i,
            models == entry_models(entries@),
            forall|k: int| 0 <= k < i ==> lowered[k]@ == lowercased(entries[k].value@),
        decreases entries.len() - i,
    {
        lowered.push(lowercase_chars(entries[i].value.as_str()));
        i += 1;
    }
    assert(char_texts(lowered@) =~= lowered_values(models)) by {
        assert forall|k: int| 0 <= k < lowered.len() implies char_texts(lowered@)[k]
            == lowered_values(models)[k] by {
            assert(models[k] == entries[k]@);
        }
    }
    search_among(entries, &lowered, &needle, limit)
}

/// The entries related to the entry at position `target`.
pub(crate) fn related(entries: &Vec<StringEntry>, target: usize, limit: usize) -> (list: Vec<(String, u64)>)
    requires
        target < entries.len(),
    ensures
        scored(list@) == related_to(entry_models(entries@), target as int, limit as nat),
{
    let ghost models = entry_models(entries@);
    let mut others: Vec<usize> = Vec::new();
    let mut keys: Vec<u64> = Vec::new();
    let mut i: usize = 0;
    assert(positions(others@) =~= Seq::<int>::empty());
    proof {
        assert(models[target as int] == entries[target as int]@);
    }
    while i < entries.len()
        invariant
            i <= entries.len(),
            target < entries.len(),
            models == entry_models(entries@),
            positions(others@) == rivals(models, target as int, i as nat),
            forall|k: int| 0 <= k < others.len() ==> #[trigger] others[k] < entries.len(),
            keys.len() == others.len(),
            forall|k: int|
                0 <= k < others.len() ==> keys[k] == similarity_of(
                    entries[target as int]@,
                    entries[others[k] as int]@,
                ),
        decreases entries.len() - i,
    {
        proof {
            assert(models[i as int] == entries[i as int]@);
            assert(models[target as int] == entries[target as int]@);
        }
        if entries[i].value != entries[target].value {
            let score = similarity(&entries[target], &entries[i]);
            if score > RELATED_THRESHOLD {
                let ghost before = positions(others@);
                others.push(i);
                keys.push(score);
                assert(positions(others@) =~= before.push(i as int));
            }
        }
        i += 1;
    }
    let ghost spots = positions(others@);
    assert(keys@ =~= rival_keys(models, target as int, spots)) by {
        assert forall|k: int| 0 <= k < keys.len() implies keys@[k] == rival_keys(
            models,
            target as int,
            spots,
        )[k] by {
            assert(models[others[k] as int] == entries[others[k] as int]@);
            assert(models[target as int] == entries[target as int]@);
        }
    }
    let ranks = top_k(&keys, limit);
    let ghost ranked = positions(ranks@);
    let mut list: Vec<(String, u64)> = Vec::new();
    let mut r: usize = 0;
    while r < ranks.len()
        invariant
            r <= ranks.len(),
            list.len() == r,
            target < entries.len(),
            models == entry_models(entries@),
            spots == positions(others@),
            spots == rivals(models, target as int, entries.len() as nat),
            ranked == positions(ranks@),
            keys.len() == others.len(),
            keys@ == rival_keys(models, target as int, spots),
            ranked == top_ranked(rival_keys(models, target as int, spots), others.len() as nat, limit as nat),
            is_ranking(ranked, keys@, keys.len() as nat, limit as nat),
            forall|k: int| 0 <= k < others.len() ==> #[trigger] others[k] < entries.len(),
            forall|k: int| 0 <= k < r ==> scored(list@)[k] == related_to(models, target as int, limit as nat)[k],
        decreases ranks.len() - r,
    {
        proof {
            assert(0 <= ranked[r as int] < keys.len());
            assert(ranked[r as int] == ranks[r as int]);
        }
        let place = ranks[r];
        let at = others[place];
        proof {
            assert(models[at as int] == entries[at as int]@);
            assert(spots[ranked[r as int]] == at);
            assert(keys@[place as int] == rival_keys(models, target as int, spots)[place as int]);
        }
        let ghost before = scored(list@);
        list.push((entries[at].value.clone(), keys[place]));
        assert(scored(list@) =~= before.push((entries[at as int].value@, keys[place as int])));
        r += 1;
    }
    assert(scored(list@) =~= related_to(models, target as int, limit as nat));
    list
}

} // verus!
