//! Ranking of a score buffer: the best few valid cells, lowest score first.

use vstd::prelude::*;
use crate::sort::scores_ascend;
use crate::sort::sort_by_score;
use crate::window::cell_of;
use crate::window::split_index;

verus! {

/// How many results a match request reports at most.
pub const TOP_K: usize = 11;

/// A cell takes part in the ranking when its score is not negative.
pub open spec fn is_valid(scores: Seq<i32>, c: usize) -> bool {
    c < scores.len() && scores[c as int] >= 0
}

/// Cell `a` is ranked before cell `b`: its score is lower, or the scores are
/// equal and `a` is the earlier cell.
pub open spec fn ranks_before(scores: Seq<i32>, a: usize, b: usize) -> bool {
    scores[a as int] < scores[b as int] || (scores[a as int] == scores[b as int] && a < b)
}

/// `out` is the ranking of `scores` capped at `k`: valid cells only, each
/// ranked before the next, none left out that is ranked before one that is
/// in, and short of `k` only when every valid cell is in.
pub open spec fn is_ranking(scores: Seq<i32>, k: nat, out: Seq<usize>) -> bool {
    &&& out.len() <= k
    &&& forall|i: int| 0 <= i < out.len() ==> is_valid(scores, #[trigger] out[i])
    &&& forall|i: int, j: int|
        0 <= i < j < out.len() ==> ranks_before(scores, #[trigger] out[i], #[trigger] out[j])
    &&& forall|c: usize, i: int|
        is_valid(scores, c) && !out.contains(c) && 0 <= i < out.len() ==> #[trigger] ranks_before(
            scores,
            out[i],
            c,
        )
    &&& out.len() < k ==> forall|c: usize| is_valid(scores, c) ==> #[trigger] out.contains(c)
}

proof fn lemma_ranking_agrees_at(scores: Seq<i32>, k: nat, a: Seq<usize>, b: Seq<usize>, i: int)
    requires
        is_ranking(scores, k, a),
        is_ranking(scores, k, b),
        0 <= i < a.len(),
    ensures
        i < b.len(),
        a[i] == b[i],
    decreases i,
{
    assert forall|p: int| 0 <= p < i implies p < b.len() && a[p] == b[p] by {
        lemma_ranking_agrees_at(scores, k, a, b, p);
    }
    let x = a[i];
    assert(is_valid(scores, x));
    if !b.contains(x) {
        // b is full, and everything in it is ranked before x
        assert(b.len() == k);
        let y = b[i];
        assert(ranks_before(scores, y, x));
        assert(is_valid(scores, y));
        if a.contains(y) {
            let p = choose|p: int| 0 <= p < a.len() && a[p] == y;
            if p < i {
                assert(b[p] == y);
                assert(ranks_before(scores, b[p], b[i]));
            } else if p > i {
                assert(ranks_before(scores, a[i], a[p]));
            }
            assert(false);
        } else {
            assert(ranks_before(scores, a[i], y));
            assert(false);
        }
    }
    let q = choose|q: int| 0 <= q < b.len() && b[q] == x;
    if q < i {
        assert(a[q] == b[q]);
        assert(ranks_before(scores, a[q], a[i]));
        assert(false);
    }
    if q > i {
        let y = b[i];
        assert(ranks_before(scores, b[i], b[q]));
        assert(is_valid(scores, y));
        if a.contains(y) {
            let p = choose|p: int| 0 <= p < a.len() && a[p] == y;
            if p < i {
                assert(b[p] == y);
                assert(ranks_before(scores, b[p], b[i]));
            } else if p > i {
                assert(ranks_before(scores, a[i], a[p]));
            }
            assert(false);
        } else {
            assert(ranks_before(scores, a[i], y));
            assert(false);
        }
    }
}

/// A score buffer has one ranking for each cap: two sequences that both are
/// the ranking of `scores` capped at `k` are the same sequence. Equal scores
/// leave no choice, since the earlier cell goes first.
pub proof fn lemma_ranking_unique(scores: Seq<i32>, k: nat, a: Seq<usize>, b: Seq<usize>)
    requires
        is_ranking(scores, k, a),
        is_ranking(scores, k, b),
    ensures
        a == b,
{
    assert forall|i: int| 0 <= i < a.len() implies i < b.len() && a[i] == b[i] by {
        lemma_ranking_agrees_at(scores, k, a, b, i);
    }
    if a.len() > 0 {
        lemma_ranking_agrees_at(scores, k, a, b, a.len() - 1);
    }
    if b.len() > 0 {
        lemma_ranking_agrees_at(scores, k, b, a, b.len() - 1);
    }
    assert(a =~= b);
}

/// Every cell of `best` is ranked before `y`.
pub open spec fn all_before(scores: Seq<i32>, best: Seq<usize>, y: usize) -> bool {
    forall|i: int| 0 <= i < best.len() ==> ranks_before(scores, #[trigger] best[i], y)
}

/// The cells of `best` are valid, and each is ranked before the next.
pub open spec fn ranked_valid(scores: Seq<i32>, best: Seq<usize>) -> bool {
    &&& forall|i: int| 0 <= i < best.len() ==> is_valid(scores, #[trigger] best[i])
    &&& forall|i: int, j: int|
        0 <= i < j < best.len() ==> ranks_before(scores, #[trigger] best[i], #[trigger] best[j])
}

/// Cell `y` has been dealt with: it is among the best `k`, or the best `k`
/// are complete and all of them are ranked before it.
pub open spec fn settled(scores: Seq<i32>, k: nat, best: Seq<usize>, y: usize) -> bool {
    best.contains(y) || (best.len() == k && all_before(scores, best, y))
}

/// Whether cell `a` is ranked before cell `b`.
fn before(scores: &[i32], a: usize, b: usize) -> (r: bool)
    requires
        a < scores@.len(),
        b < scores@.len(),
    ensures
        r == ranks_before(scores@, a, b),
{
    scores[a] < scores[b] || (scores[a] == scores[b] && a < b)
}

/// Offers cell `c` to the best `k` cells found so far: it takes its place
/// among them if it is ranked before one of them or there is room, and the
/// last of them leaves if that makes one too many.
fn offer(scores: &[i32], best: &mut Vec<usize>, k: usize, c: usize)
    requires
        is_valid(scores@, c),
        ranked_valid(scores@, old(best)@),
        old(best)@.len() <= k,
    ensures
        ranked_valid(scores@, final(best)@),
        final(best)@.len() <= k,
        settled(scores@, k as nat, final(best)@, c),
        forall|y: usize|
            settled(scores@, k as nat, old(best)@, y) ==> #[trigger] settled(
                scores@,
                k as nat,
                final(best)@,
                y,
            ),
{
    let ghost was = best@;
    if k == 0 {
        return;
    }
    let mut p: usize = 0;
    while p < best.len() && before(scores, best[p], c)
        invariant
            p <= best@.len(),
            best@ == was,
            ranked_valid(scores@, was),
            is_valid(scores@, c),
            forall|i: int| 0 <= i < p ==> ranks_before(scores@, #[trigger] was[i], c),
        decreases best@.len() - p,
    {
        p += 1;
    }
    if p < best.len() && best[p] == c {
        return;
    }
    if p == k {
        return;
    }
    best.insert(p, c);
    let ghost grown = best@;
    proof {
        assert(grown.len() == was.len() + 1);
        assert(grown[p as int] == c);
        assert forall|i: int| 0 <= i < p implies grown[i] == was[i] by {}
        assert forall|i: int| p < i < grown.len() implies grown[i] == was[i - 1] by {}
        assert forall|i: int| p < i < grown.len() implies ranks_before(scores@, c, grown[i]) by {
            assert(ranks_before(scores@, was[p as int], was[i - 1]) || i - 1 == p);
        }
        assert(ranked_valid(scores@, grown));
        assert forall|y: usize| was.contains(y) implies grown.contains(y) by {
            let j = choose|j: int| 0 <= j < was.len() && was[j] == y;
            if j < p {
                assert(grown[j] == y);
            } else {
                assert(grown[j + 1] == y);
            }
        }
        assert(grown.contains(c));
    }
    if best.len() > k {
        best.pop();
        proof {
            let kept = best@;
            let gone = grown[k as int];
            assert(kept =~= grown.subrange(0, k as int));
            assert forall|y: usize| grown.contains(y) implies settled(
                scores@,
                k as nat,
                kept,
                y,
            ) by {
                let j = choose|j: int| 0 <= j < grown.len() && grown[j] == y;
                if j < k {
                    assert(kept[j] == y);
                } else {
                    assert(y == gone);
                    assert forall|i: int| 0 <= i < kept.len() implies ranks_before(
                        scores@,
                        #[trigger] kept[i],
                        y,
                    ) by {
                        assert(kept[i] == grown[i]);
                    }
                }
            }
            assert forall|y: usize| settled(scores@, k as nat, was, y) implies settled(
                scores@,
                k as nat,
                kept,
                y,
            ) by {
                if !was.contains(y) {
                    assert(all_before(scores@, was, y));
                    assert forall|i: int| 0 <= i < kept.len() implies ranks_before(
                        scores@,
                        #[trigger] kept[i],
                        y,
                    ) by {
                        assert(kept[i] == grown[i]);
                        if i < p {
                            assert(kept[i] == was[i]);
                        } else if i == p {
                            assert(ranks_before(scores@, c, was[p as int]));
                            assert(ranks_before(scores@, was[p as int], y));
                        } else {
                            assert(kept[i] == was[i - 1]);
                        }
                    }
                }
            }
        }
    } else {
        proof {
            assert forall|y: usize| settled(scores@, k as nat, was, y) implies settled(
                scores@,
                k as nat,
                grown,
                y,
            ) by {
                assert(was.len() < k);
            }
        }
    }
}

/// The valid cells of a score buffer, each with its score, in cell order.
fn valid_entries(scores: &[i32]) -> (v: Vec<(usize, i32)>)
    ensures
        forall|i: int|
            0 <= i < v@.len() ==> is_valid(scores@, (#[trigger] v@[i]).0) && v@[i].1
                == scores@[v@[i].0 as int],
        forall|c: usize| is_valid(scores@, c) ==> v@.contains((c, #[trigger] scores@[c as int])),
{
    let mut v: Vec<(usize, i32)> = Vec::new();
    let n: usize = scores.len();
    let mut i: usize = 0;
    while i < n
        invariant
            i <= n,
            n == scores@.len(),
            forall|j: int|
                0 <= j < v@.len() ==> is_valid(scores@, (#[trigger] v@[j]).0) && v@[j].1
                    == scores@[v@[j].0 as int],
            forall|c: usize|
                c < i && is_valid(scores@, c) ==> v@.contains((c, #[trigger] scores@[c as int])),
        decreases n - i,
    {
        let s: i32 = scores[i];
        if s >= 0 {
            let ghost prev = v@;
            v.push((i, s));
            proof {
                assert(v@[prev.len() as int] == (i, s));
                assert forall|c: usize| c < i && is_valid(scores@, c) implies v@.contains(
                    (c, #[trigger] scores@[c as int]),
                ) by {
                    let e = (c, scores@[c as int]);
                    let j = choose|j: int| 0 <= j < prev.len() && prev[j] == e;
                    assert(v@[j] == e);
                }
            }
        }
        i += 1;
    }
    v
}

/// Ranks the cells of a score buffer: drops every cell whose score is
/// negative, orders the rest by ascending score, the earlier cell first
/// among equal scores, and keeps the first `k`. The result holds the cells'
/// positions in `scores`.
pub fn rank(scores: &[i32], k: usize) -> (out: Vec<usize>)
    ensures
        is_ranking(scores@, k as nat, out@),
{
    let mut entries = valid_entries(scores);
    let ghost unsorted = entries@;
    sort_by_score(&mut entries);
    proof {
        unsorted.to_multiset_ensures();
        entries@.to_multiset_ensures();
        assert forall|i: int| 0 <= i < entries@.len() implies is_valid(
            scores@,
            (#[trigger] entries@[i]).0,
        ) && entries@[i].1 == scores@[entries@[i].0 as int] by {
            let e = entries@[i];
            assert(entries@.contains(e));
            assert(entries@.to_multiset().count(e) > 0);
            assert(unsorted.to_multiset().count(e) > 0);
            assert(unsorted.contains(e));
        }
        assert forall|c: usize| is_valid(scores@, c) implies entries@.contains(
            (c, #[trigger] scores@[c as int]),
        ) by {
            let e = (c, scores@[c as int]);
            assert(unsorted.contains(e));
            assert(unsorted.to_multiset().count(e) > 0);
            assert(entries@.to_multiset().count(e) > 0);
        }
    }
    let n: usize = entries.len();
    let mut best: Vec<usize> = Vec::new();
    let mut pos: usize = 0;
    let mut done: bool = false;
    while pos < n && !done
        invariant
            pos <= n,
            n == entries@.len(),
            scores_ascend(entries@),
            forall|i: int|
                0 <= i < entries@.len() ==> is_valid(scores@, (#[trigger] entries@[i]).0)
                    && entries@[i].1 == scores@[entries@[i].0 as int],
            ranked_valid(scores@, best@),
            best@.len() <= k,
            forall|j: int|
                0 <= j < pos ==> settled(scores@, k as nat, best@, (#[trigger] entries@[j]).0),
            done ==> forall|j: int|
                pos <= j < n ==> settled(scores@, k as nat, best@, (#[trigger] entries@[j]).0),
        decreases n - pos + (if done { 0int } else { 1int }),
    {
        let (c, s) = entries[pos];
        let full: bool = best.len() == k;
        if full && (k == 0 || s > scores[best[k - 1]]) {
            done = true;
            proof {
                assert forall|j: int| pos <= j < n implies settled(
                    scores@,
                    k as nat,
                    best@,
                    (#[trigger] entries@[j]).0,
                ) by {
                    let y = entries@[j].0;
                    assert(entries@[pos as int].1 <= entries@[j].1);
                    assert forall|i: int| 0 <= i < best@.len() implies ranks_before(
                        scores@,
                        #[trigger] best@[i],
                        y,
                    ) by {
                        if i < k - 1 {
                            assert(ranks_before(scores@, best@[i], best@[k - 1]));
                        }
                    }
                }
            }
        } else {
            offer(scores, &mut best, k, c);
            pos += 1;
        }
    }
    proof {
        assert forall|c: usize| is_valid(scores@, c) implies settled(
            scores@,
            k as nat,
            best@,
            c,
        ) by {
            let e = (c, scores@[c as int]);
            assert(entries@.contains(e));
            let j = choose|j: int| 0 <= j < entries@.len() && entries@[j] == e;
            assert(entries@[j].0 == c);
        }
        assert forall|c: usize, i: int|
            is_valid(scores@, c) && !best@.contains(c) && 0 <= i < best@.len() implies ranks_before(
            scores@,
            best@[i],
            c,
        ) by {
            assert(settled(scores@, k as nat, best@, c));
        }
        if best@.len() < k {
            assert forall|c: usize| is_valid(scores@, c) implies best@.contains(c) by {
                assert(settled(scores@, k as nat, best@, c));
            }
        }
    }
    best
}

/// The `(row, column)` offsets, inside a window that is `cols` wide, of the
/// cells of a ranking.
pub fn window_offsets(ranking: &Vec<usize>, cols: usize) -> (cells: Vec<(usize, usize)>)
    requires
        cols > 0,
    ensures
        cells@.len() == ranking@.len(),
        forall|i: int|
            0 <= i < ranking@.len() ==> (cells@[i].0 as int, cells@[i].1 as int) == cell_of(
                #[trigger] ranking@[i] as int,
                cols as int,
            ),
{
    let mut cells: Vec<(usize, usize)> = Vec::new();
    let n: usize = ranking.len();
    let mut i: usize = 0;
    while i < n
        invariant
            i <= n,
            cols > 0,
            n == ranking@.len(),
            cells@.len() == i,
            forall|j: int|
                0 <= j < i ==> (cells@[j].0 as int, cells@[j].1 as int) == cell_of(
                    #[trigger] ranking@[j] as int,
                    cols as int,
                ),
        decreases n - i,
    {
        cells.push(split_index(ranking[i], cols));
        i += 1;
    }
    cells
}

} // verus!
