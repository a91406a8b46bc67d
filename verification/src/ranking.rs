//! Scoring and ranking.
//!
//! A query gives every entry of a snapshot a score or none. The entries with a
//! score are returned, the higher score first; entries with the same score
//! keep the order in which the snapshot holds them.

use crate::entry::{views, EntryView, IndexEntry};
use crate::matcher::{fuzzy_score, skim_score, MATCH_LIMIT};
use vstd::prelude::*;

verus! {

/// The score of `name` for `query`, or `None` where `name` does not match.
///
/// The empty query matches every name, with score 0. Any other query is put
/// to the skim matcher. A name or a query of more than [`MATCH_LIMIT`]
/// characters is not: it matches nothing.
pub open spec fn score_of(name: Seq<char>, query: Seq<char>) -> Option<i64> {
    if query.len() == 0 {
        Some(0i64)
    } else if name.len() <= MATCH_LIMIT && query.len() <= MATCH_LIMIT {
        skim_score(name, query)
    } else {
        None
    }
}

/// The scores of the entries of `snapshot` for `query`, by position.
pub open spec fn scores_of(snapshot: Seq<EntryView>, query: Seq<char>) -> Seq<Option<i64>> {
    Seq::new(snapshot.len(), |i: int| score_of(snapshot[i].name, query))
}

/// Position `a` is returned before position `b`: its score is higher, or the
/// scores are equal and `a` is the earlier position.
pub open spec fn ranks_before(scores: Seq<Option<i64>>, a: int, b: int) -> bool {
    let score_a = scores[a].unwrap();
    let score_b = scores[b].unwrap();
    score_a > score_b || (score_a == score_b && a < b)
}

/// `order` lists positions of `scores` that have a score, each before all
/// those that it is returned before.
pub open spec fn is_ranked(scores: Seq<Option<i64>>, order: Seq<int>) -> bool {
    &&& forall|k: int|
        0 <= k < order.len() ==> 0 <= #[trigger] order[k] < scores.len() && scores[order[k]]
            is Some
    &&& forall|k: int, l: int|
        0 <= k < l < order.len() ==> ranks_before(scores, #[trigger] order[k], #[trigger] order[l])
}

/// `order` is a ranking of `scores`: it lists the positions that have a score,
/// all of them, each before all those that it is returned before.
pub open spec fn is_ranking(scores: Seq<Option<i64>>, order: Seq<int>) -> bool {
    &&& is_ranked(scores, order)
    &&& forall|i: int| 0 <= i < scores.len() && (#[trigger] scores[i]) is Some ==> order.contains(i)
}

/// The ranking of `scores`. There is one and only one: see
/// [`lemma_ranking_exists`] and [`lemma_ranking_unique`].
pub open spec fn ranking(scores: Seq<Option<i64>>) -> Seq<int> {
    choose|order: Seq<int>| is_ranking(scores, order)
}

/// What a search for `query` returns from `snapshot`: the entries that have a
/// score, in the order of the ranking of their scores.
pub open spec fn ranked(snapshot: Seq<EntryView>, query: Seq<char>) -> Seq<EntryView> {
    ranking(scores_of(snapshot, query)).map_values(|i: int| snapshot[i])
}

/// A list of positions as mathematical integers.
pub open spec fn positions(order: Seq<usize>) -> Seq<int> {
    order.map_values(|i: usize| i as int)
}

/// Two lists of positions that are both in ranked order and hold the same
/// positions are the same list.
proof fn lemma_ranked_same_positions(scores: Seq<Option<i64>>, a: Seq<int>, b: Seq<int>)
    requires
        is_ranked(scores, a),
        is_ranked(scores, b),
        forall|x: int| a.contains(x) <==> b.contains(x),
    ensures
        a == b,
    decreases a.len(),
{
    if a.len() == 0 {
        if b.len() > 0 {
            assert(b.contains(b[0]));
        }
        assert(a =~= b);
    } else {
        assert(a.contains(a[0]));
        let j = choose|j: int| 0 <= j < b.len() && b[j] == a[0];
        assert(b.contains(b[0]));
        let i = choose|i: int| 0 <= i < a.len() && a[i] == b[0];
        if j > 0 && i > 0 {
            assert(ranks_before(scores, b[0], b[j]));
            assert(ranks_before(scores, a[0], a[i]));
        }
        assert(a[0] == b[0]);
        let rest_a = a.subrange(1, a.len() as int);
        let rest_b = b.subrange(1, b.len() as int);
        assert(is_ranked(scores, rest_a)) by {
            assert forall|k: int, l: int| 0 <= k < l < rest_a.len() implies ranks_before(
                scores,
                #[trigger] rest_a[k],
                #[trigger] rest_a[l],
            ) by {
                assert(ranks_before(scores, a[k + 1], a[l + 1]));
            }
            assert forall|k: int| 0 <= k < rest_a.len() implies 0 <= #[trigger] rest_a[k]
                < scores.len() && scores[rest_a[k]] is Some by {
                assert(rest_a[k] == a[k + 1]);
            }
        }
        assert(is_ranked(scores, rest_b)) by {
            assert forall|k: int, l: int| 0 <= k < l < rest_b.len() implies ranks_before(
                scores,
                #[trigger] rest_b[k],
                #[trigger] rest_b[l],
            ) by {
                assert(ranks_before(scores, b[k + 1], b[l + 1]));
            }
            assert forall|k: int| 0 <= k < rest_b.len() implies 0 <= #[trigger] rest_b[k]
                < scores.len() && scores[rest_b[k]] is Some by {
                assert(rest_b[k] == b[k + 1]);
            }
        }
        assert forall|x: int| rest_a.contains(x) <==> rest_b.contains(x) by {
            if rest_a.contains(x) {
                let k = choose|k: int| 0 <= k < rest_a.len() && rest_a[k] == x;
                assert(a[k + 1] == x);
                assert(ranks_before(scores, a[0], a[k + 1]));
                assert(a.contains(x));
                let l = choose|l: int| 0 <= l < b.len() && b[l] == x;
                assert(l != 0);
                assert(rest_b[l - 1] == x);
            }
            if rest_b.contains(x) {
                let k = choose|k: int| 0 <= k < rest_b.len() && rest_b[k] == x;
                assert(b[k + 1] == x);
                assert(ranks_before(scores, b[0], b[k + 1]));
                assert(b.contains(x));
                let l = choose|l: int| 0 <= l < a.len() && a[l] == x;
                assert(l != 0);
                assert(rest_a[l - 1] == x);
            }
        }
        lemma_ranked_same_positions(scores, rest_a, rest_b);
        assert(a =~= seq![a[0]] + rest_a);
        assert(b =~= seq![b[0]] + rest_b);
    }
}

/// Scores have at most one ranking.
pub proof fn lemma_ranking_unique(scores: Seq<Option<i64>>, a: Seq<int>, b: Seq<int>)
    requires
        is_ranking(scores, a),
        is_ranking(scores, b),
    ensures
        a == b,
{
    assert forall|x: int| a.contains(x) <==> b.contains(x) by {
        if a.contains(x) {
            let k = choose|k: int| 0 <= k < a.len() && a[k] == x;
            assert(scores[a[k]] is Some);
        }
        if b.contains(x) {
            let k = choose|k: int| 0 <= k < b.len() && b[k] == x;
            assert(scores[b[k]] is Some);
        }
    }
    lemma_ranked_same_positions(scores, a, b);
}

/// In a ranked list, the positions whose score is at least `score` come first:
/// there is a place `at` with all of them before it and none of them after.
proof fn lemma_slot(scores: Seq<Option<i64>>, order: Seq<int>, score: i64, n: int) -> (at: int)
    requires
        is_ranked(scores, order),
        0 <= n <= order.len(),
    ensures
        0 <= at <= n,
        forall|k: int| 0 <= k < at ==> scores[#[trigger] order[k]].unwrap() >= score,
        forall|k: int| at <= k < n ==> scores[#[trigger] order[k]].unwrap() < score,
    decreases n,
{
    if n == 0 {
        0
    } else {
        let at = lemma_slot(scores, order, score, n - 1);
        if scores[order[n - 1]].unwrap() < score {
            at
        } else {
            assert forall|k: int| 0 <= k < n implies scores[#[trigger] order[k]].unwrap()
                >= score by {
                if k < n - 1 {
                    assert(ranks_before(scores, order[k], order[n - 1]));
                }
            }
            n
        }
    }
}

/// Builds a ranking of `scores`.
proof fn lemma_build_ranking(scores: Seq<Option<i64>>) -> (order: Seq<int>)
    ensures
        is_ranking(scores, order),
    decreases scores.len(),
{
    if scores.len() == 0 {
        Seq::empty()
    } else {
        let last = scores.len() - 1;
        let earlier = scores.drop_last();
        let before = lemma_build_ranking(earlier);
        assert forall|k: int| 0 <= k < before.len() implies 0 <= #[trigger] before[k] < last
            && scores[before[k]] == earlier[before[k]] by {}
        assert(is_ranked(scores, before)) by {
            assert forall|k: int, l: int| 0 <= k < l < before.len() implies ranks_before(
                scores,
                #[trigger] before[k],
                #[trigger] before[l],
            ) by {
                assert(ranks_before(earlier, before[k], before[l]));
            }
        }
        match scores[last] {
            None => {
                assert forall|i: int| 0 <= i < scores.len() && (#[trigger] scores[i])
                    is Some implies before.contains(i) by {
                    assert(earlier[i] is Some);
                }
                before
            },
            Some(score) => {
                let at = lemma_slot(scores, before, score, before.len() as int);
                let order = before.subrange(0, at).push(last) + before.subrange(
                    at,
                    before.len() as int,
                );
                assert forall|k: int| 0 <= k < order.len() implies 0 <= #[trigger] order[k]
                    < scores.len() && scores[order[k]] is Some by {
                    if k < at {
                        assert(order[k] == before[k]);
                    } else if k > at {
                        assert(order[k] == before[k - 1]);
                    }
                }
                assert forall|k: int, l: int| 0 <= k < l < order.len() implies ranks_before(
                    scores,
                    #[trigger] order[k],
                    #[trigger] order[l],
                ) by {
                    if l < at {
                        assert(order[k] == before[k] && order[l] == before[l]);
                        assert(ranks_before(scores, before[k], before[l]));
                    } else if l == at {
                        assert(order[k] == before[k]);
                    } else if k < at {
                        assert(order[k] == before[k] && order[l] == before[l - 1]);
                        assert(ranks_before(scores, before[k], before[l - 1]));
                    } else if k == at {
                        assert(order[l] == before[l - 1]);
                    } else {
                        assert(order[k] == before[k - 1] && order[l] == before[l - 1]);
                        assert(ranks_before(scores, before[k - 1], before[l - 1]));
                    }
                }
                assert forall|i: int| 0 <= i < scores.len() && (#[trigger] scores[i])
                    is Some implies order.contains(i) by {
                    if i == last {
                        assert(order[at] == i);
                    } else {
                        assert(earlier[i] is Some);
                        let k = choose|k: int| 0 <= k < before.len() && before[k] == i;
                        if k < at {
                            assert(order[k] == i);
                        } else {
                            assert(order[k + 1] == i);
                        }
                    }
                }
                order
            },
        }
    }
}

/// Scores have a ranking, and [`ranking`] is one.
pub proof fn lemma_ranking_exists(scores: Seq<Option<i64>>)
    ensures
        is_ranking(scores, ranking(scores)),
{
    let order = lemma_build_ranking(scores);
}

/// A ranking of `scores` is the ranking of `scores`.
pub proof fn lemma_ranking_is(scores: Seq<Option<i64>>, order: Seq<int>)
    requires
        is_ranking(scores, order),
    ensures
        order == ranking(scores),
{
    lemma_ranking_unique(scores, order, ranking(scores));
}

/// A search returns matches only, the better match first, and of two equal
/// matches the one that the snapshot holds first: each result is an entry of
/// the snapshot that has a score, the scores of the results do not rise, and
/// results with the same score stand in the order of the snapshot.
pub proof fn lemma_search_descends(snapshot: Seq<EntryView>, query: Seq<char>, k: int, l: int)
    requires
        0 <= k < l < ranked(snapshot, query).len(),
    ensures
        ({
            let found = ranked(snapshot, query);
            let from = ranking(scores_of(snapshot, query));
            &&& 0 <= from[k] < snapshot.len() && found[k] == snapshot[from[k]]
            &&& 0 <= from[l] < snapshot.len() && found[l] == snapshot[from[l]]
            &&& score_of(found[k].name, query) is Some
            &&& score_of(found[l].name, query) is Some
            &&& score_of(found[k].name, query).unwrap() >= score_of(found[l].name, query).unwrap()
            &&& score_of(found[k].name, query) == score_of(found[l].name, query) ==> from[k]
                < from[l]
        }),
{
    let scores = scores_of(snapshot, query);
    lemma_ranking_exists(scores);
    let from = ranking(scores);
    assert(ranks_before(scores, from[k], from[l]));
}

/// A search returns every match and nothing else: an entry of the snapshot is
/// among the results if and only if it has a score.
pub proof fn lemma_search_filters(snapshot: Seq<EntryView>, query: Seq<char>, i: int)
    requires
        0 <= i < snapshot.len(),
    ensures
        ranked(snapshot, query).contains(snapshot[i]) <==> score_of(snapshot[i].name, query)
            is Some,
{
    let scores = scores_of(snapshot, query);
    lemma_ranking_exists(scores);
    let from = ranking(scores);
    let found = ranked(snapshot, query);
    if score_of(snapshot[i].name, query) is Some {
        assert(scores[i] is Some);
        let k = choose|k: int| 0 <= k < from.len() && from[k] == i;
        assert(found[k] == snapshot[i]);
    }
    if found.contains(snapshot[i]) {
        let k = choose|k: int| 0 <= k < found.len() && found[k] == snapshot[i];
        assert(scores[from[k]] is Some);
    }
}

/// No entry is returned twice over: the results come from different places
/// of the snapshot.
pub proof fn lemma_search_no_repeats(snapshot: Seq<EntryView>, query: Seq<char>, k: int, l: int)
    requires
        0 <= k < ranked(snapshot, query).len(),
        0 <= l < ranked(snapshot, query).len(),
        k != l,
    ensures
        ranking(scores_of(snapshot, query))[k] != ranking(scores_of(snapshot, query))[l],
{
    let scores = scores_of(snapshot, query);
    lemma_ranking_exists(scores);
    let from = ranking(scores);
    if k < l {
        assert(ranks_before(scores, from[k], from[l]));
    } else {
        assert(ranks_before(scores, from[l], from[k]));
    }
}

/// The empty query matches everything: the search returns the snapshot as it
/// stands.
pub proof fn lemma_empty_query_returns_all(snapshot: Seq<EntryView>)
    ensures
        ranked(snapshot, Seq::<char>::empty()) == snapshot,
{
    let query = Seq::<char>::empty();
    let scores = scores_of(snapshot, query);
    let all = Seq::new(snapshot.len(), |i: int| i);
    assert forall|i: int| 0 <= i < scores.len() && (#[trigger] scores[i]) is Some implies all.contains(
        i,
    ) by {
        assert(all[i] == i);
    }
    lemma_ranking_is(scores, all);
    assert(ranked(snapshot, query) =~= snapshot);
}

/// Where no entry has a score, the search returns nothing.
pub proof fn lemma_no_match_returns_none(snapshot: Seq<EntryView>, query: Seq<char>)
    requires
        forall|i: int| 0 <= i < snapshot.len() ==> score_of(#[trigger] snapshot[i].name, query) is None,
    ensures
        ranked(snapshot, query) == Seq::<EntryView>::empty(),
{
    let scores = scores_of(snapshot, query);
    assert forall|i: int| 0 <= i < scores.len() implies !((#[trigger] scores[i]) is Some) by {
        assert(score_of(snapshot[i].name, query) is None);
    }
    lemma_ranking_is(scores, Seq::<int>::empty());
    assert(ranked(snapshot, query) =~= Seq::<EntryView>::empty());
}

/// The score of `name` for `query`.
pub fn match_score(name: &str, query: &str) -> (score: Option<i64>)
    ensures
        score == score_of(name@, query@),
{
    if query.is_empty() {
        Some(0)
    } else if name.unicode_len() <= MATCH_LIMIT && query.unicode_len() <= MATCH_LIMIT {
        fuzzy_score(name, query)
    } else {
        None
    }
}

/// The scores of `entries` for `query`, by position.
pub fn score_all(entries: &Vec<IndexEntry>, query: &str) -> (scores: Vec<Option<i64>>)
    ensures
        scores@ == scores_of(views(entries@), query@),
{
    let mut scores: Vec<Option<i64>> = Vec::with_capacity(entries.len());
    let mut i: usize = 0;
    while i < entries.len()
        invariant
            i <= entries.len(),
            scores.len() == i,
            forall|k: int|
                0 <= k < i ==> #[trigger] scores[k] == score_of(entries[k]@.name, query@),
        decreases entries.len() - i,
    {
        let score = match_score(entries[i].name(), query);
        scores.push(score);
        i += 1;
    }
    assert(scores@ =~= scores_of(views(entries@), query@));
    scores
}

/// A position of a snapshot that has a score, with that score.
#[derive(Clone, Copy)]
struct Scored {
    score: i64,
    at: usize,
}

/// `x` is returned before `y`.
spec fn key_before(x: Scored, y: Scored) -> bool {
    x.score > y.score || (x.score == y.score && x.at < y.at)
}

/// Each key is returned before all that follow it.
spec fn keys_sorted(keys: Seq<Scored>) -> bool {
    forall|k: int, l: int| 0 <= k < l < keys.len() ==> key_before(#[trigger] keys[k], #[trigger] keys[l])
}

/// The positions of the keys rise.
spec fn keys_ascend(keys: Seq<Scored>) -> bool {
    forall|k: int, l: int| 0 <= k < l < keys.len() ==> (#[trigger] keys[k]).at < (#[trigger] keys[l]).at
}

/// No key of `a` has the position of a key of `b`.
spec fn keys_apart(a: Seq<Scored>, b: Seq<Scored>) -> bool {
    forall|p: int, q: int|
        0 <= p < a.len() && 0 <= q < b.len() ==> (#[trigger] a[p]).at != (#[trigger] b[q]).at
}

/// Whether `x` is returned before `y`.
fn comes_before(x: Scored, y: Scored) -> (before: bool)
    ensures
        before == key_before(x, y),
{
    x.score > y.score || (x.score == y.score && x.at < y.at)
}

/// Merges two sorted runs into one.
fn merge_runs(a: &Vec<Scored>, b: &Vec<Scored>) -> (out: Vec<Scored>)
    requires
        keys_sorted(a@),
        keys_sorted(b@),
        keys_apart(a@, b@),
        a.len() + b.len() <= usize::MAX,
    ensures
        keys_sorted(out@),
        out.len() == a.len() + b.len(),
        out@.to_multiset() == a@.to_multiset().add(b@.to_multiset()),
{
    let mut out: Vec<Scored> = Vec::with_capacity(a.len() + b.len());
    let mut i: usize = 0;
    let mut j: usize = 0;
    proof {
        assert(a@.subrange(0, 0) =~= out@);
        assert(b@.subrange(0, 0) =~= out@);
        out@.to_multiset_ensures();
        assert(out@.to_multiset().len() == 0);
        assert(out@.to_multiset() =~= out@.to_multiset().add(out@.to_multiset()));
    }
    while i < a.len() || j < b.len()
        invariant
            keys_sorted(a@),
            keys_sorted(b@),
            keys_apart(a@, b@),
            a.len() + b.len() <= usize::MAX,
            i <= a.len(),
            j <= b.len(),
            out.len() == i + j,
            keys_sorted(out@),
            forall|k: int, p: int|
                0 <= k < out.len() && i <= p < a.len() ==> key_before(
                    #[trigger] out[k],
                    #[trigger] a[p],
                ),
            forall|k: int, q: int|
                0 <= k < out.len() && j <= q < b.len() ==> key_before(
                    #[trigger] out[k],
                    #[trigger] b[q],
                ),
            out@.to_multiset() == a@.subrange(0, i as int).to_multiset().add(
                b@.subrange(0, j as int).to_multiset(),
            ),
        decreases a.len() - i + b.len() - j,
    {
        let from_a = if j >= b.len() {
            true
        } else if i >= a.len() {
            false
        } else {
            comes_before(a[i], b[j])
        };
        let ghost before = out@;
        if from_a {
            let x = a[i];
            out.push(x);
            proof {
                assert(a@.subrange(0, i + 1) =~= a@.subrange(0, i as int).push(x));
                a@.subrange(0, i as int).to_multiset_ensures();
                before.to_multiset_ensures();
                assert(out@.to_multiset() =~= a@.subrange(0, i + 1).to_multiset().add(
                    b@.subrange(0, j as int).to_multiset(),
                ));
                assert forall|k: int, l: int| 0 <= k < l < out.len() implies key_before(
                    #[trigger] out[k],
                    #[trigger] out[l],
                ) by {
                    if l < before.len() {
                        assert(key_before(before[k], before[l]));
                    } else {
                        assert(key_before(before[k], a[i as int]));
                    }
                }
                assert forall|k: int, p: int|
                    0 <= k < out.len() && i + 1 <= p < a.len() implies key_before(
                    #[trigger] out[k],
                    #[trigger] a[p],
                ) by {
                    if k < before.len() {
                        assert(key_before(before[k], a[p]));
                    } else {
                        assert(key_before(a[i as int], a[p]));
                    }
                }
                assert forall|k: int, q: int|
                    0 <= k < out.len() && j <= q < b.len() implies key_before(
                    #[trigger] out[k],
                    #[trigger] b[q],
                ) by {
                    if k < before.len() {
                        assert(key_before(before[k], b[q]));
                    } else {
                        assert(key_before(a[i as int], b[j as int]));
                        if q > j {
                            assert(key_before(b[j as int], b[q]));
                        }
                    }
                }
            }
            i += 1;
        } else {
            let y = b[j];
            out.push(y);
            proof {
                assert(b@.subrange(0, j + 1) =~= b@.subrange(0, j as int).push(y));
                b@.subrange(0, j as int).to_multiset_ensures();
                before.to_multiset_ensures();
                assert(out@.to_multiset() =~= a@.subrange(0, i as int).to_multiset().add(
                    b@.subrange(0, j + 1).to_multiset(),
                ));
                assert forall|k: int, l: int| 0 <= k < l < out.len() implies key_before(
                    #[trigger] out[k],
                    #[trigger] out[l],
                ) by {
                    if l < before.len() {
                        assert(key_before(before[k], before[l]));
                    } else {
                        assert(key_before(before[k], b[j as int]));
                    }
                }
                assert forall|k: int, q: int|
                    0 <= k < out.len() && j + 1 <= q < b.len() implies key_before(
                    #[trigger] out[k],
                    #[trigger] b[q],
                ) by {
                    if k < before.len() {
                        assert(key_before(before[k], b[q]));
                    } else {
                        assert(key_before(b[j as int], b[q]));
                    }
                }
                assert forall|k: int, p: int|
                    0 <= k < out.len() && i <= p < a.len() implies key_before(
                    #[trigger] out[k],
                    #[trigger] a[p],
                ) by {
                    if k < before.len() {
                        assert(key_before(before[k], a[p]));
                    } else {
                        assert(a[i as int].at != b[j as int].at);
                        assert(key_before(b[j as int], a[i as int]));
                        if p > i {
                            assert(key_before(a[i as int], a[p]));
                        }
                    }
                }
            }
            j += 1;
        }
    }
    assert(a@.subrange(0, i as int) =~= a@);
    assert(b@.subrange(0, j as int) =~= b@);
    out
}

/// Sorts the keys from `lo` up to `hi`.
fn sort_keys(keys: &Vec<Scored>, lo: usize, hi: usize) -> (out: Vec<Scored>)
    requires
        lo <= hi <= keys.len(),
        keys_ascend(keys@),
    ensures
        keys_sorted(out@),
        out.len() == hi - lo,
        out@.to_multiset() == keys@.subrange(lo as int, hi as int).to_multiset(),
    decreases hi - lo,
{
    if hi - lo <= 1 {
        let mut out: Vec<Scored> = Vec::new();
        if lo < hi {
            out.push(keys[lo]);
        }
        assert(out@ =~= keys@.subrange(lo as int, hi as int));
        out
    } else {
        let mid = lo + (hi - lo) / 2;
        let left = sort_keys(keys, lo, mid);
        let right = sort_keys(keys, mid, hi);
        proof {
            let first = keys@.subrange(lo as int, mid as int);
            let second = keys@.subrange(mid as int, hi as int);
            left@.to_multiset_ensures();
            right@.to_multiset_ensures();
            first.to_multiset_ensures();
            second.to_multiset_ensures();
            assert forall|p: int, q: int| 0 <= p < left.len() && 0 <= q < right.len() implies (
            #[trigger] left[p]).at != (#[trigger] right[q]).at by {
                assert(left@.contains(left[p]));
                assert(left@.to_multiset().count(left[p]) > 0);
                assert(first.to_multiset().count(left[p]) > 0);
                assert(first.contains(left[p]));
                assert(right@.contains(right[q]));
                assert(right@.to_multiset().count(right[q]) > 0);
                assert(second.to_multiset().count(right[q]) > 0);
                assert(second.contains(right[q]));
                let m = choose|m: int| 0 <= m < first.len() && first[m] == left[p];
                let n = choose|n: int| 0 <= n < second.len() && second[n] == right[q];
                assert(keys[lo + m].at < keys[mid + n].at);
            }
            assert(keys@.subrange(lo as int, hi as int) =~= first + second);
            vstd::seq_lib::lemma_multiset_commutative(first, second);
        }
        merge_runs(&left, &right)
    }
}

/// The ranking of `scores`: the positions that have a score, the higher score
/// first, and of equal scores the earlier position first.
pub fn rank_scores(scores: &Vec<Option<i64>>) -> (order: Vec<usize>)
    ensures
        positions(order@) == ranking(scores@),
        is_ranking(scores@, positions(order@)),
{
    let mut keys: Vec<Scored> = Vec::new();
    let mut i: usize = 0;
    while i < scores.len()
        invariant
            i <= scores.len(),
            keys_ascend(keys@),
            forall|k: int|
                0 <= k < keys.len() ==> (#[trigger] keys[k]).at < i && scores[keys[k].at as int]
                    == Some(keys[k].score),
            forall|m: int|
                0 <= m < i && (#[trigger] scores[m]) is Some ==> exists|k: int|
                    0 <= k < keys.len() && (#[trigger] keys[k]).at == m,
        decreases scores.len() - i,
    {
        let ghost before = keys@;
        match scores[i] {
            Some(score) => {
                keys.push(Scored { score, at: i });
                proof {
                    assert forall|m: int| 0 <= m < i + 1 && (#[trigger] scores[m])
                        is Some implies exists|k: int|
                        0 <= k < keys.len() && (#[trigger] keys[k]).at == m by {
                        if m < i {
                            let k = choose|k: int|
                                0 <= k < before.len() && (#[trigger] before[k]).at == m;
                            assert(keys[k].at == m);
                        } else {
                            assert(keys[keys.len() - 1].at == m);
                        }
                    }
                }
            },
            None => {},
        }
        i += 1;
    }
    let sorted = sort_keys(&keys, 0, keys.len());
    let mut order: Vec<usize> = Vec::with_capacity(sorted.len());
    let mut k: usize = 0;
    while k < sorted.len()
        invariant
            k <= sorted.len(),
            order.len() == k,
            forall|m: int| 0 <= m < k ==> #[trigger] order[m] == sorted[m].at,
        decreases sorted.len() - k,
    {
        order.push(sorted[k].at);
        k += 1;
    }
    proof {
        let listed = positions(order@);
        assert(keys@.subrange(0, keys.len() as int) =~= keys@);
        keys@.to_multiset_ensures();
        sorted@.to_multiset_ensures();
        assert forall|m: int| 0 <= m < sorted.len() implies 0 <= (#[trigger] sorted[m]).at
            < scores.len() && scores[sorted[m].at as int] == Some(sorted[m].score) by {
            assert(sorted@.contains(sorted[m]));
            assert(sorted@.to_multiset().count(sorted[m]) > 0);
            assert(keys@.to_multiset().count(sorted[m]) > 0);
            assert(keys@.contains(sorted[m]));
            let n = choose|n: int| 0 <= n < keys.len() && keys[n] == sorted[m];
            assert(keys[n].at < scores.len());
        }
        assert forall|m: int| 0 <= m < listed.len() implies 0 <= #[trigger] listed[m]
            < scores.len() && scores[listed[m]] is Some by {
            assert(listed[m] == sorted[m].at);
        }
        assert forall|m: int, n: int| 0 <= m < n < listed.len() implies ranks_before(
            scores@,
            #[trigger] listed[m],
            #[trigger] listed[n],
        ) by {
            assert(listed[m] == sorted[m].at && listed[n] == sorted[n].at);
            assert(key_before(sorted[m], sorted[n]));
        }
        assert forall|p: int| 0 <= p < scores.len() && (#[trigger] scores[p])
            is Some implies listed.contains(p) by {
            let n = choose|n: int| 0 <= n < keys.len() && (#[trigger] keys[n]).at == p;
            assert(keys@.contains(keys[n]));
            assert(keys@.to_multiset().count(keys[n]) > 0);
            assert(sorted@.to_multiset().count(keys[n]) > 0);
            assert(sorted@.contains(keys[n]));
            let m = choose|m: int| 0 <= m < sorted.len() && sorted[m] == keys[n];
            assert(listed[m] == p);
        }
        lemma_ranking_is(scores@, listed);
    }
    order
}

/// Copies of the entries at the positions that `order` lists, in that order.
fn pick(entries: &Vec<IndexEntry>, order: &Vec<usize>) -> (chosen: Vec<IndexEntry>)
    requires
        forall|k: int| 0 <= k < order.len() ==> #[trigger] order[k] < entries.len(),
    ensures
        views(chosen@) == positions(order@).map_values(|i: int| views(entries@)[i]),
{
    let mut chosen: Vec<IndexEntry> = Vec::with_capacity(order.len());
    let mut k: usize = 0;
    while k < order.len()
        invariant
            k <= order.len(),
            chosen.len() == k,
            forall|m: int| 0 <= m < order.len() ==> #[trigger] order[m] < entries.len(),
            forall|m: int| 0 <= m < k ==> (#[trigger] chosen[m])@ == entries[order[m] as int]@,
        decreases order.len() - k,
    {
        chosen.push(entries[order[k]].clone());
        k += 1;
    }
    assert(views(chosen@) =~= positions(order@).map_values(|i: int| views(entries@)[i]));
    chosen
}

/// Searches `entries` for `query`: copies of the entries whose name matches,
/// the better match first, and of two equal matches the one that stands first
/// in `entries`.
pub fn rank(entries: &Vec<IndexEntry>, query: &str) -> (results: Vec<IndexEntry>)
    ensures
        views(results@) == ranked(views(entries@), query@),
{
    let scores = score_all(entries, query);
    let order = rank_scores(&scores);
    proof {
        assert forall|k: int| 0 <= k < order.len() implies #[trigger] order[k]
            < entries.len() by {
            assert(positions(order@)[k] == order[k]);
        }
    }
    pick(entries, &order)
}

} // verus!
