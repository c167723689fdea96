//! Top-K selection over integer keys.
//!
//! A corpus vector is known here by its position, and by the key of its score.
//! Positions are ranked by descending key; positions with equal keys keep
//! their corpus order. This is a strict total order, so the ranking of the best
//! `limit` positions is a single sequence.

use vstd::prelude::*;
use vstd::set_lib::{lemma_int_range, lemma_set_subset_finite, lemma_subset_equality, set_int_range};

verus! {

/// Position `a` is ranked ahead of position `b`: it has the larger key, or the
/// same key and the earlier place in the corpus.
pub open spec fn ranks_before(keys: Seq<i32>, a: int, b: int) -> bool {
    keys[a] > keys[b] || (keys[a] == keys[b] && a < b)
}

/// The smaller of two integers.
pub open spec fn lesser(a: int, b: int) -> int {
    if a <= b {
        a
    } else {
        b
    }
}

/// Every pick is a position below `n`.
pub open spec fn within(picks: Seq<usize>, n: int) -> bool {
    forall|i: int| 0 <= i < picks.len() ==> (#[trigger] picks[i]) < n
}

/// Each pick is ranked ahead of every later pick.
pub open spec fn is_ranked(keys: Seq<i32>, picks: Seq<usize>) -> bool {
    forall|i: int, j: int|
        0 <= i < j < picks.len() ==> ranks_before(
            keys,
            #[trigger] picks[i] as int,
            #[trigger] picks[j] as int,
        )
}

/// Each pick is ranked ahead of every position that was not picked.
pub open spec fn leads_the_rest(keys: Seq<i32>, picks: Seq<usize>) -> bool {
    forall|i: int, m: usize|
        0 <= i < picks.len() && m < keys.len() && !picks.contains(m) ==> #[trigger] ranks_before(
            keys,
            picks[i] as int,
            m as int,
        )
}

/// Every position below `n` is among the picks.
pub open spec fn covers(picks: Seq<usize>, n: int) -> bool {
    forall|m: usize| m < n ==> #[trigger] picks.contains(m)
}

/// `picks` is the ranking of the best `limit` positions of `keys`: as many
/// positions as the limit and the corpus allow, best first, and none left out
/// that is ranked ahead of one taken.
pub open spec fn is_top_ranking(keys: Seq<i32>, limit: int, picks: Seq<usize>) -> bool {
    &&& picks.len() == lesser(limit, keys.len() as int)
    &&& within(picks, keys.len() as int)
    &&& is_ranked(keys, picks)
    &&& leads_the_rest(keys, picks)
}

/// Takes the position `candidate` into the ranking of the positions before it.
fn place(keys: &Vec<i32>, picks: &mut Vec<usize>, limit: usize, candidate: usize)
    requires
        candidate < keys.len(),
        is_top_ranking(keys@.take(candidate as int), limit as int, old(picks)@),
        candidate <= limit ==> covers(old(picks)@, candidate as int),
    ensures
        is_top_ranking(keys@.take(candidate + 1), limit as int, final(picks)@),
        candidate + 1 <= limit ==> covers(final(picks)@, candidate + 1),
{
    let ghost before = keys@.take(candidate as int);
    let ghost after = keys@.take(candidate + 1);
    let ghost held = picks@;
    let mut pos: usize = picks.len();
    while pos > 0 && keys[picks[pos - 1]] < keys[candidate]
        invariant
            pos <= picks.len(),
            picks@ == held,
            candidate < keys.len(),
            within(held, candidate as int),
            forall|j: int| pos <= j < held.len() ==> keys@[#[trigger] held[j] as int] < keys@[candidate as int],
        decreases pos,
    {
        pos -= 1;
    }
    assert forall|j: int| 0 <= j < pos implies keys@[#[trigger] held[j] as int] >= keys@[candidate as int] by {
        if j < pos - 1 {
            assert(ranks_before(before, held[j] as int, held[pos - 1] as int));
        }
    }
    if pos < limit {
        if picks.len() == limit {
            picks.pop();
        }
        let ghost kept = picks@;
        picks.insert(pos, candidate);
        proof {
            let now = picks@;
            assert(now.len() == kept.len() + 1);
            assert forall|j: int| 0 <= j < now.len() implies #[trigger] now[j] == (if j < pos {
                kept[j]
            } else if j == pos {
                candidate
            } else {
                kept[j - 1]
            }) by {}
            assert forall|j: int| 0 <= j < kept.len() implies kept[j] == #[trigger] held[j] by {}
            assert(is_ranked(after, now));
            assert(leads_the_rest(after, now)) by {
                assert forall|i: int, m: usize|
                    0 <= i < now.len() && m < after.len() && !now.contains(m) implies #[trigger] ranks_before(
                    after,
                    now[i] as int,
                    m as int,
                ) by {
                    assert(now[pos as int] == candidate);
                    assert(m < candidate);
                    // `m` was dropped just now, or was outside the ranking before.
                    if held.contains(m) {
                        let at = choose|at: int| 0 <= at < held.len() && held[at] == m;
                        if at < kept.len() {
                            if at < pos {
                                assert(now[at] == m);
                            } else {
                                assert(now[at + 1] == m);
                            }
                            assert(false);
                        }
                    } else {
                        let last = held.len() - 1;
                        assert(ranks_before(before, held[last] as int, m as int));
                    }
                }
            }
            if candidate + 1 <= limit {
                assert forall|m: usize| m < candidate + 1 implies #[trigger] now.contains(m) by {
                    if m == candidate {
                        assert(now[pos as int] == m);
                    } else {
                        assert(held.contains(m));
                        let at = choose|at: int| 0 <= at < held.len() && held[at] == m;
                        if at < pos {
                            assert(now[at] == m);
                        } else {
                            assert(now[at + 1] == m);
                        }
                    }
                }
            }
        }
    } else {
        proof {
            assert(is_ranked(after, held));
            assert(leads_the_rest(after, held)) by {
                assert forall|i: int, m: usize|
                    0 <= i < held.len() && m < after.len() && !held.contains(m) implies #[trigger] ranks_before(
                    after,
                    held[i] as int,
                    m as int,
                ) by {
                    if m != candidate {
                        assert(ranks_before(before, held[i] as int, m as int));
                    }
                }
            }
        }
    }
}

/// The ranking of the best `limit` positions of `keys`, best first: by
/// descending key, and by corpus order among equal keys.
pub fn top_positions(keys: &Vec<i32>, limit: usize) -> (picks: Vec<usize>)
    ensures
        is_top_ranking(keys@, limit as int, picks@),
        picks.len() == lesser(limit as int, keys.len() as int),
        limit >= keys.len() ==> covers(picks@, keys.len() as int),
{
    let mut picks: Vec<usize> = Vec::new();
    let mut next: usize = 0;
    while next < keys.len()
        invariant
            next <= keys.len(),
            is_top_ranking(keys@.take(next as int), limit as int, picks@),
            next <= limit ==> covers(picks@, next as int),
        decreases keys.len() - next,
    {
        place(keys, &mut picks, limit, next);
        next += 1;
    }
    assert(keys@.take(next as int) =~= keys@);
    picks
}

/// Of two different positions, one is ranked ahead of the other, never both,
/// and no position is ranked ahead of itself: the ranking order is strict and
/// total.
pub proof fn lemma_ranking_order_is_strict_and_total(keys: Seq<i32>, a: int, b: int)
    ensures
        !ranks_before(keys, a, a),
        a != b ==> (ranks_before(keys, a, b) != ranks_before(keys, b, a)),
{
}

/// The ranking order is transitive.
pub proof fn lemma_ranking_order_is_transitive(keys: Seq<i32>, a: int, b: int, c: int)
    requires
        ranks_before(keys, a, b),
        ranks_before(keys, b, c),
    ensures
        ranks_before(keys, a, c),
{
}

/// Where two rankings agree below place `at`, the pick of the first at that
/// place is not ranked ahead of the pick of the second.
proof fn lemma_not_ahead_at(keys: Seq<i32>, limit: int, first: Seq<usize>, second: Seq<usize>, at: int)
    requires
        is_top_ranking(keys, limit, first),
        is_top_ranking(keys, limit, second),
        0 <= at < first.len(),
        forall|i: int| 0 <= i < at ==> first[i] == second[i],
    ensures
        !ranks_before(keys, first[at] as int, second[at] as int),
{
    let a = first[at];
    let b = second[at];
    if ranks_before(keys, a as int, b as int) {
        if !second.contains(a) {
            assert(ranks_before(keys, second[at] as int, a as int));
        }
    }
}

/// Two rankings of the same keys under the same limit agree in their first
/// `upto` places.
proof fn lemma_rankings_agree(keys: Seq<i32>, limit: int, first: Seq<usize>, second: Seq<usize>, upto: nat)
    requires
        is_top_ranking(keys, limit, first),
        is_top_ranking(keys, limit, second),
        upto <= first.len(),
    ensures
        forall|i: int| 0 <= i < upto ==> first[i] == second[i],
    decreases upto,
{
    if upto > 0 {
        let at = (upto - 1) as int;
        lemma_rankings_agree(keys, limit, first, second, at as nat);
        lemma_not_ahead_at(keys, limit, first, second, at);
        lemma_not_ahead_at(keys, limit, second, first, at);
    }
}

/// The ranking of the best `limit` positions is unique: two sequences that
/// both are such a ranking of the same keys are equal.
pub proof fn lemma_top_ranking_is_unique(keys: Seq<i32>, limit: int, first: Seq<usize>, second: Seq<usize>)
    requires
        is_top_ranking(keys, limit, first),
        is_top_ranking(keys, limit, second),
    ensures
        first == second,
{
    lemma_rankings_agree(keys, limit, first, second, first.len());
}

/// A ranking holds no position twice.
pub proof fn lemma_ranking_has_no_duplicates(keys: Seq<i32>, picks: Seq<usize>)
    requires
        is_ranked(keys, picks),
    ensures
        picks.no_duplicates(),
{
    assert forall|i: int, j: int| 0 <= i < picks.len() && 0 <= j < picks.len() && i != j implies picks[i]
        != picks[j] by {}
}

/// Under a limit that is no smaller than the corpus, the ranking holds every
/// position of the corpus.
pub proof fn lemma_unlimited_ranking_covers(keys: Seq<i32>, limit: int, picks: Seq<usize>)
    requires
        is_top_ranking(keys, limit, picks),
        limit >= keys.len(),
    ensures
        picks.len() == keys.len(),
        covers(picks, keys.len() as int),
{
    let n = keys.len() as int;
    let places = Seq::new(picks.len(), |i: int| picks[i] as int);
    lemma_ranking_has_no_duplicates(keys, picks);
    places.unique_seq_to_set();
    lemma_int_range(0, n);
    assert(places.to_set().subset_of(set_int_range(0, n)));
    lemma_set_subset_finite(set_int_range(0, n), places.to_set());
    lemma_subset_equality(places.to_set(), set_int_range(0, n));
    assert forall|m: usize| m < n implies #[trigger] picks.contains(m) by {
        assert(places.to_set().contains(m as int));
    }
}

/// A ranking under a smaller limit is the beginning of the ranking under a
/// larger one: raising the limit adds positions at the end and moves none.
pub proof fn lemma_smaller_limit_is_prefix(
    keys: Seq<i32>,
    small: int,
    large: int,
    fewer: Seq<usize>,
    more: Seq<usize>,
)
    requires
        0 <= small <= large,
        is_top_ranking(keys, small, fewer),
        is_top_ranking(keys, large, more),
    ensures
        fewer.len() <= more.len(),
        fewer == more.take(fewer.len() as int),
{
    let cut = more.take(fewer.len() as int);
    assert(is_ranked(keys, cut));
    assert(leads_the_rest(keys, cut)) by {
        assert forall|i: int, m: usize|
            0 <= i < cut.len() && m < keys.len() && !cut.contains(m) implies #[trigger] ranks_before(
            keys,
            cut[i] as int,
            m as int,
        ) by {
            if more.contains(m) {
                let j = choose|j: int| 0 <= j < more.len() && more[j] == m;
                if j < cut.len() {
                    assert(cut[j] == m);
                }
            }
        }
    }
    assert(within(cut, keys.len() as int));
    lemma_top_ranking_is_unique(keys, small, fewer, cut);
}

} // verus!
