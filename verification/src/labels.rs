//! Lists of strings that are used as sets: each text occurs once, in the
//! order in which it was first added.

use vstd::prelude::*;

verus! {

/// The texts held by a sequence of strings.
pub open spec fn texts(s: Seq<String>) -> Seq<Seq<char>> {
    Seq::new(s.len(), |i: int| s[i]@)
}

/// `s` with `x` added at the end unless it is already there.
pub open spec fn with_text(s: Seq<Seq<char>>, x: Seq<char>) -> Seq<Seq<char>> {
    if s.contains(x) {
        s
    } else {
        s.push(x)
    }
}

/// `s` with each text of `more` added in order unless it is already there.
pub open spec fn with_texts(s: Seq<Seq<char>>, more: Seq<Seq<char>>) -> Seq<Seq<char>>
    decreases more.len(),
{
    if more.len() == 0 {
        s
    } else {
        with_text(with_texts(s, more.drop_last()), more.last())
    }
}

/// Number of texts of `a` that also occur in `b`.
pub open spec fn shared_count(a: Seq<Seq<char>>, b: Seq<Seq<char>>) -> nat
    decreases a.len(),
{
    if a.len() == 0 {
        0
    } else {
        shared_count(a.drop_last(), b) + if b.contains(a.last()) {
            1nat
        } else {
            0nat
        }
    }
}

/// Adding a text to a list without repetitions gives one without repetitions.
pub proof fn lemma_with_text_unique(s: Seq<Seq<char>>, x: Seq<char>)
    requires
        s.no_duplicates(),
    ensures
        with_text(s, x).no_duplicates(),
        with_text(s, x).contains(x),
        forall|y: Seq<char>| s.contains(y) ==> with_text(s, x).contains(y),
        forall|y: Seq<char>| with_text(s, x).contains(y) ==> s.contains(y) || y == x,
{
    let t = with_text(s, x);
    if s.contains(x) {
    } else {
        assert(t[s.len() as int] == x);
        assert forall|y: Seq<char>| s.contains(y) implies t.contains(y) by {
            let i = choose|i: int| 0 <= i < s.len() && s[i] == y;
            assert(t[i] == y);
        }
    }
}

/// Adding texts to a list without repetitions gives one without repetitions
/// that holds exactly the old and the added texts.
pub proof fn lemma_with_texts_unique(s: Seq<Seq<char>>, more: Seq<Seq<char>>)
    requires
        s.no_duplicates(),
    ensures
        with_texts(s, more).no_duplicates(),
        forall|y: Seq<char>| with_texts(s, more).contains(y) <==> s.contains(y) || more.contains(y),
    decreases more.len(),
{
    if more.len() > 0 {
        let rest = more.drop_last();
        lemma_with_texts_unique(s, rest);
        lemma_with_text_unique(with_texts(s, rest), more.last());
        assert forall|y: Seq<char>| more.contains(y) <==> rest.contains(y) || y == more.last() by {
            if more.contains(y) {
                let i = choose|i: int| 0 <= i < more.len() && more[i] == y;
                if i < rest.len() {
                    assert(rest[i] == y);
                }
            }
            if rest.contains(y) {
                let i = choose|i: int| 0 <= i < rest.len() && rest[i] == y;
                assert(more[i] == y);
            }
            if y == more.last() {
                assert(more[more.len() - 1] == y);
            }
        }
    }
}

/// No more texts are shared than the first list holds.
pub proof fn lemma_shared_count_bound(a: Seq<Seq<char>>, b: Seq<Seq<char>>)
    ensures
        shared_count(a, b) <= a.len(),
    decreases a.len(),
{
    if a.len() > 0 {
        lemma_shared_count_bound(a.drop_last(), b);
    }
}

/// Whether `list` holds a string with the text of `item`.
pub fn contains_string(list: &Vec<String>, item: &String) -> (r: bool)
    ensures
        r == texts(list@).contains(item@),
{
    let mut i: usize = 0;
    while i < list.len()
        invariant
            i <= list.len(),
            forall|j: int| 0 <= j < i ==> list[j]@ != item@,
        decreases list.len() - i,
    {
        if list[i] == *item {
            assert(texts(list@)[i as int] == item@);
            return true;
        }
        i += 1;
    }
    assert forall|j: int| 0 <= j < texts(list@).len() implies texts(list@)[j] != item@ by {
        assert(texts(list@)[j] == list[j]@);
    }
    false
}

/// Adds a copy of `item` to `list` unless its text is already there.
pub fn push_unique(list: &mut Vec<String>, item: &String)
    ensures
        texts(final(list)@) == with_text(texts(old(list)@), item@),
{
    if !contains_string(list, item) {
        list.push(item.clone());
        assert(texts(list@) =~= texts(old(list)@).push(item@));
    }
}

/// An independent copy of `list`.
pub fn clone_strings(list: &Vec<String>) -> (r: Vec<String>)
    ensures
        texts(r@) == texts(list@),
{
    let mut r: Vec<String> = Vec::new();
    let mut i: usize = 0;
    while i < list.len()
        invariant
            i <= list.len(),
            r.len() == i,
            forall|j: int| 0 <= j < i ==> r[j]@ == list[j]@,
        decreases list.len() - i,
    {
        r.push(list[i].clone());
        i += 1;
    }
    assert(texts(r@) =~= texts(list@));
    r
}

/// Number of strings of `a` whose text also occurs in `b`.
pub fn count_shared(a: &Vec<String>, b: &Vec<String>) -> (n: usize)
    ensures
        n == shared_count(texts(a@), texts(b@)),
{
    let mut n: usize = 0;
    let mut i: usize = 0;
    while i < a.len()
        invariant
            i <= a.len(),
            n == shared_count(texts(a@).take(i as int), texts(b@)),
            n <= i,
        decreases a.len() - i,
    {
        proof {
            assert(texts(a@).take(i + 1).drop_last() =~= texts(a@).take(i as int));
            assert(texts(a@).take(i + 1).last() == a[i as int]@);
        }
        if contains_string(b, &a[i]) {
            n += 1;
        }
        i += 1;
    }
    assert(texts(a@).take(a.len() as int) =~= texts(a@));
    n
}

} // verus!
