//! Selection of the positions with the largest keys.
//!
//! Positions are ranked by decreasing key; positions with equal keys keep
//! the order in which they stand.  Only the best `k` positions are kept while the
//! keys are read, so ranking `n` keys takes `n * k` steps at most.

use vstd::prelude::*;

verus! {

/// Position `a` ranks before position `b`: its key is larger, or the keys
/// are equal and `a` comes first.
pub open spec fn ranks_before(keys: Seq<u64>, a: int, b: int) -> bool {
    keys[a] > keys[b] || (keys[a] == keys[b] && a < b)
}

/// Where a position with key `key` that follows all positions of `ranked`
/// enters the ranking: behind the last position whose key is not smaller.
pub open spec fn insertion_point(ranked: Seq<int>, keys: Seq<u64>, key: u64) -> int
    decreases ranked.len(),
{
    if ranked.len() == 0 {
        0
    } else if keys[ranked.last()] >= key {
        ranked.len() as int
    } else {
        insertion_point(ranked.drop_last(), keys, key)
    }
}

/// The best `k` of the first `n` positions of `keys`, best first.
pub open spec fn top_ranked(keys: Seq<u64>, n: nat, k: nat) -> Seq<int>
    decreases n,
{
    if n == 0 {
        Seq::empty()
    } else {
        let prev = top_ranked(keys, (n - 1) as nat, k);
        let at = insertion_point(prev, keys, keys[n - 1]);
        if at >= k {
            prev
        } else if prev.len() < k {
            prev.insert(at, n - 1)
        } else {
            prev.drop_last().insert(at, n - 1)
        }
    }
}

/// `r` lists the best `k` of the first `n` positions: it holds `k`
/// positions, or all `n` if there are fewer; each position once, best
/// first; and every position left out ranks behind the last one listed.
pub open spec fn is_ranking(r: Seq<int>, keys: Seq<u64>, n: nat, k: nat) -> bool {
    &&& r.len() == if n < k {
        n
    } else {
        k
    }
    &&& forall|a: int| 0 <= a < r.len() ==> 0 <= #[trigger] r[a] < n
    &&& forall|a: int, b: int| 0 <= a < b < r.len() ==> ranks_before(keys, r[a], r[b])
    &&& forall|j: int|
        0 <= j < n && !r.contains(j) ==> r.len() == k && (k > 0 ==> ranks_before(
            keys,
            r.last(),
            j,
        ))
}

/// The positions of `s` as mathematical integers.
pub open spec fn positions(s: Seq<usize>) -> Seq<int> {
    Seq::new(s.len(), |i: int| s[i] as int)
}

proof fn lemma_insertion_point(ranked: Seq<int>, keys: Seq<u64>, key: u64)
    requires
        forall|a: int, b: int| 0 <= a < b < ranked.len() ==> ranks_before(keys, ranked[a], ranked[b]),
    ensures
        0 <= insertion_point(ranked, keys, key) <= ranked.len(),
        forall|a: int|
            0 <= a < insertion_point(ranked, keys, key) ==> keys[#[trigger] ranked[a]] >= key,
        forall|b: int|
            insertion_point(ranked, keys, key) <= b < ranked.len() ==> keys[#[trigger] ranked[b]]
                < key,
    decreases ranked.len(),
{
    if ranked.len() > 0 {
        if keys[ranked.last()] >= key {
            assert forall|a: int| 0 <= a < ranked.len() implies keys[#[trigger] ranked[a]]
                >= key by {
                if a < ranked.len() - 1 {
                    assert(ranks_before(keys, ranked[a], ranked[ranked.len() - 1]));
                }
            }
        } else {
            let rest = ranked.drop_last();
            assert forall|a: int, b: int| 0 <= a < b < rest.len() implies ranks_before(
                keys,
                rest[a],
                rest[b],
            ) by {
                assert(rest[a] == ranked[a] && rest[b] == ranked[b]);
            }
            lemma_insertion_point(rest, keys, key);
            let at = insertion_point(rest, keys, key);
            assert forall|a: int| 0 <= a < at implies keys[#[trigger] ranked[a]] >= key by {
                assert(rest[a] == ranked[a]);
            }
            assert forall|b: int| at <= b < ranked.len() implies keys[#[trigger] ranked[b]]
                < key by {
                if b < rest.len() {
                    assert(rest[b] == ranked[b]);
                }
            }
        }
    }
}

/// What `top_ranked` computes is the ranking of the best positions.
pub proof fn lemma_top_ranked(keys: Seq<u64>, n: nat, k: nat)
    requires
        n <= keys.len(),
    ensures
        is_ranking(top_ranked(keys, n, k), keys, n, k),
    decreases n,
{
    if n > 0 {
        let m = (n - 1) as nat;
        let i = n - 1;
        let prev = top_ranked(keys, m, k);
        lemma_top_ranked(keys, m, k);
        lemma_insertion_point(prev, keys, keys[i]);
        let at = insertion_point(prev, keys, keys[i]);
        let r = top_ranked(keys, n, k);
        if at >= k {
            assert(r == prev);
            assert forall|j: int| 0 <= j < n && !r.contains(j) implies r.len() == k && (k > 0
                ==> ranks_before(keys, r.last(), j)) by {
                if j == i {
                    if k > 0 {
                        assert(keys[prev[k - 1]] >= keys[i]);
                    }
                }
            }
        } else {
            let base = if prev.len() < k {
                prev
            } else {
                prev.drop_last()
            };
            assert(r == base.insert(at, i));
            assert forall|a: int| 0 <= a < base.len() implies base[a] == prev[a] by {}
            assert forall|a: int| 0 <= a < r.len() implies 0 <= #[trigger] r[a] < n by {
                if a < at {
                    assert(r[a] == base[a]);
                } else if a > at {
                    assert(r[a] == base[a - 1]);
                }
            }
            assert forall|a: int, b: int| 0 <= a < b < r.len() implies ranks_before(
                keys,
                r[a],
                r[b],
            ) by {
                let x = if a < at {
                    a
                } else {
                    a - 1
                };
                let y = if b < at {
                    b
                } else {
                    b - 1
                };
                if a == at {
                    assert(r[b] == prev[y]);
                    assert(keys[prev[y]] < keys[i]);
                } else if b == at {
                    assert(r[a] == prev[x]);
                    assert(keys[prev[x]] >= keys[i]);
                    assert(prev[x] < i);
                } else {
                    assert(r[a] == prev[x] && r[b] == prev[y]);
                    assert(ranks_before(keys, prev[x], prev[y]));
                }
            }
            assert(r[at] == i);
            assert forall|j: int| 0 <= j < n && !r.contains(j) implies r.len() == k && (k > 0
                ==> ranks_before(keys, r.last(), j)) by {
                assert(j != i);
                assert forall|a: int| 0 <= a < base.len() implies base[a] != j by {
                    if a < at {
                        assert(r[a] == base[a]);
                    } else {
                        assert(r[a + 1] == base[a]);
                    }
                }
                if prev.len() < k {
                    assert(!prev.contains(j));
                } else {
                    let last = prev[k - 1];
                    if at == k - 1 {
                        assert(r.last() == i);
                        assert(keys[last] < keys[i]);
                    } else {
                        assert(r.last() == prev[k - 2]);
                        assert(ranks_before(keys, prev[k - 2], prev[k - 1]));
                    }
                    assert(ranks_before(keys, r.last(), last));
                    if j != last {
                        assert(!prev.contains(j)) by {
                            if prev.contains(j) {
                                let a = choose|a: int| 0 <= a < prev.len() && prev[a] == j;
                                assert(base[a] == j);
                            }
                        }
                        assert(ranks_before(keys, prev.last(), j));
                    }
                }
            }
        }
    }
}

/// The positions of the `k` largest keys, largest first; equal keys in the
/// order in which they stand in `keys`.
pub fn top_k(keys: &Vec<u64>, k: usize) -> (best: Vec<usize>)
    ensures
        positions(best@) == top_ranked(keys@, keys.len() as nat, k as nat),
        is_ranking(positions(best@), keys@, keys.len() as nat, k as nat),
{
    let mut best: Vec<usize> = Vec::new();
    let mut i: usize = 0;
    assert(positions(best@) =~= Seq::<int>::empty());
    while i < keys.len()
        invariant
            i <= keys.len(),
            positions(best@) == top_ranked(keys@, i as nat, k as nat),
            is_ranking(positions(best@), keys@, i as nat, k as nat),
        decreases keys.len() - i,
    {
        let key = keys[i];
        let ghost ranked = positions(best@);
        let mut at: usize = best.len();
        assert(ranked.take(at as int) =~= ranked);
        while at > 0 && keys[best[at - 1]] < key
            invariant
                at <= best.len(),
                ranked == positions(best@),
                forall|a: int| 0 <= a < best.len() ==> 0 <= #[trigger] ranked[a] < i,
                i < keys.len(),
                insertion_point(ranked.take(at as int), keys@, key) == insertion_point(
                    ranked,
                    keys@,
                    key,
                ),
            decreases at,
        {
            proof {
                assert(ranked.take(at as int).drop_last() =~= ranked.take(at - 1));
                assert(ranked.take(at as int).last() == best[at - 1]);
            }
            at -= 1;
        }
        proof {
            assert(ranked.take(best.len() as int) =~= ranked);
            if at > 0 {
                assert(ranked.take(at as int).last() == best[at - 1]);
            }
            assert(insertion_point(ranked, keys@, key) == at);
            lemma_top_ranked(keys@, (i + 1) as nat, k as nat);
        }
        if at < k {
            if best.len() == k {
                best.pop();
                assert(positions(best@) =~= ranked.drop_last());
            }
            let ghost base = positions(best@);
            best.insert(at, i);
            assert(positions(best@) =~= base.insert(at as int, i as int));
        }
        i += 1;
    }
    best
}

} // verus!
