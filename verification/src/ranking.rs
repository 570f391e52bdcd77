use vstd::prelude::*;

use crate::score_key::{score_key, spec_score_key};
use crate::types::Scores;

verus! {

/// The total-order keys of a list of scored documents, position by position.
pub open spec fn score_keys(scores: Seq<Scores>) -> Seq<int> {
    Seq::new(scores.len(), |i: int| spec_score_key(scores[i].score_bits))
}

/// Positions as mathematical integers.
pub open spec fn positions(s: Seq<usize>) -> Seq<int> {
    s.map_values(|x: usize| x as int)
}

/// `c` is the position that a max-first selection takes next once the
/// positions in `picked` are gone: among the positions left it has the
/// greatest key, and among those with that key it comes first.
pub open spec fn is_first_best(keys: Seq<int>, picked: Seq<int>, c: int) -> bool {
    &&& 0 <= c < keys.len()
    &&& !picked.contains(c)
    &&& forall|u: int|
        0 <= u < keys.len() && !picked.contains(u) ==> keys[u] <= keys[c] && (keys[u] == keys[c]
            ==> c <= u)
}

/// `idx` lists positions of `keys` in the order in which a max-first
/// selection takes them: each is the best of what the earlier ones left.
pub open spec fn is_ranking(keys: Seq<int>, idx: Seq<int>) -> bool {
    forall|j: int| 0 <= j < idx.len() ==> #[trigger] is_first_best(keys, idx.take(j), idx[j])
}

spec fn in_rest(rest: Seq<usize>, u: int) -> bool {
    exists|q: int| 0 <= q < rest.len() && rest[q] as int == u
}

/// The positions of the `k` best-scored entries, best first. Entries with
/// equal scores are taken in the order in which they stand.
pub fn rank_indices(scores: &Vec<Scores>, k: usize) -> (idx: Vec<usize>)
    requires
        k <= scores.len(),
    ensures
        idx.len() == k,
        is_ranking(score_keys(scores@), positions(idx@)),
{
    let n = scores.len();
    let ghost keys = score_keys(scores@);
    let mut rest: Vec<usize> = Vec::new();
    let mut i: usize = 0;
    while i < n
        invariant
            i <= n,
            rest.len() == i,
            forall|q: int| 0 <= q < i ==> rest[q] == q,
        decreases n - i,
    {
        rest.push(i);
        i = i + 1;
    }
    let mut idx: Vec<usize> = Vec::new();
    assert forall|u: int| 0 <= u < n implies (in_rest(rest@, u) <==> !positions(idx@).contains(u)) by {
        assert(rest[u] == u);
    }
    while idx.len() < k
        invariant
            k <= n,
            n == scores.len(),
            keys == score_keys(scores@),
            idx.len() <= k,
            rest.len() + idx.len() == n,
            forall|a: int, b: int| 0 <= a < b < rest.len() ==> rest[a] < rest[b],
            forall|a: int| 0 <= a < rest.len() ==> rest[a] < n,
            forall|u: int| 0 <= u < n ==> (in_rest(rest@, u) <==> !positions(idx@).contains(u)),
            is_ranking(keys, positions(idx@)),
        decreases k - idx.len(),
    {
        let mut best: usize = 0;
        let mut best_key: i32 = score_key(scores[rest[0]].score_bits);
        let mut p: usize = 1;
        while p < rest.len()
            invariant
                n == scores.len(),
                keys == score_keys(scores@),
                forall|a: int| 0 <= a < rest.len() ==> rest[a] < n,
                best < p <= rest.len(),
                best_key == keys[rest[best as int] as int],
                forall|q: int|
                    0 <= q < p ==> keys[rest[q] as int] <= best_key && (keys[rest[q] as int]
                        == best_key ==> best <= q),
            decreases rest.len() - p,
        {
            let kp = score_key(scores[rest[p]].score_bits);
            if kp > best_key {
                best = p;
                best_key = kp;
            }
            p = p + 1;
        }
        let ghost old_rest = rest@;
        let ghost old_idx = positions(idx@);
        assert forall|q: int| 0 <= q < old_rest.len() implies keys[old_rest[q] as int] <= best_key
            && (keys[old_rest[q] as int] == best_key ==> best <= q) by {
            assert(old_rest[q] == rest[q]);
        }
        assert(keys[old_rest[best as int] as int] == best_key);
        assert(forall|u: int| 0 <= u < n ==> (in_rest(old_rest, u) <==> !old_idx.contains(u)));
        let c = rest.remove(best);
        assert(rest@ =~= old_rest.remove(best as int));
        idx.push(c);
        proof {
            let new_idx = positions(idx@);
            assert(new_idx =~= old_idx.push(c as int));
            assert(in_rest(old_rest, c as int));
            assert(is_first_best(keys, old_idx, c as int)) by {
                assert forall|u: int|
                    0 <= u < keys.len() && !old_idx.contains(u) implies keys[u] <= keys[c as int]
                    && (keys[u] == keys[c as int] ==> c <= u) by {
                    assert(in_rest(old_rest, u));
                    let q = choose|q: int| 0 <= q < old_rest.len() && old_rest[q] as int == u;
                    assert(keys[old_rest[q] as int] <= best_key);
                    if q != best as int {
                        if keys[u] == keys[c as int] {
                            assert(best <= q);
                            assert(old_rest[best as int] < old_rest[q]);
                        }
                    }
                }
            }
            assert forall|j: int| 0 <= j < new_idx.len() implies #[trigger] is_first_best(
                keys,
                new_idx.take(j),
                new_idx[j],
            ) by {
                if j < old_idx.len() {
                    assert(new_idx.take(j) =~= old_idx.take(j));
                    assert(is_first_best(keys, old_idx.take(j), old_idx[j]));
                } else {
                    assert(new_idx.take(j) =~= old_idx);
                }
            }
            assert forall|u: int| 0 <= u < n implies (in_rest(rest@, u) <==> !new_idx.contains(
                u,
            )) by {
                if in_rest(rest@, u) {
                    let q = choose|q: int| 0 <= q < rest.len() && rest[q] as int == u;
                    if q < best {
                        assert(rest[q] == old_rest[q]);
                        assert(in_rest(old_rest, u));
                    } else {
                        assert(rest[q] == old_rest[q + 1]);
                        assert(in_rest(old_rest, u));
                    }
                    assert(u != c);
                    assert(!old_idx.contains(u));
                    if new_idx.contains(u) {
                        let w = choose|w: int| 0 <= w < new_idx.len() && new_idx[w] == u;
                        if w < old_idx.len() {
                            assert(old_idx[w] == u);
                        }
                    }
                } else {
                    if !old_idx.contains(u) && u != c {
                        let q = choose|q: int| 0 <= q < old_rest.len() && old_rest[q] as int == u;
                        if q < best {
                            assert(rest@[q] == old_rest[q]);
                        } else {
                            assert(rest[q - 1] == old_rest[q]);
                        }
                        assert(in_rest(rest@, u));
                    }
                    if old_idx.contains(u) {
                        let w = choose|w: int| 0 <= w < old_idx.len() && old_idx[w] == u;
                        assert(new_idx[w] == u);
                    } else {
                        assert(new_idx[old_idx.len() as int] == u);
                    }
                }
            }
        }
    }
    idx
}

/// The documents of the `k` best-scored entries, best first; entries with
/// equal scores are taken in the order in which they stand.
pub fn top_k(scores: &Vec<Scores>, k: usize) -> (top: Vec<String>)
    requires
        k <= scores.len(),
    ensures
        top.len() == k,
        exists|idx: Seq<int>|
            idx.len() == k && is_ranking(score_keys(scores@), idx) && forall|j: int|
                0 <= j < k ==> #[trigger] top[j]@ == scores@[idx[j]].document@,
{
    let idx = rank_indices(scores, k);
    let ghost keys = score_keys(scores@);
    assert forall|a: int| 0 <= a < k implies idx[a] < scores.len() by {
        assert(is_first_best(keys, positions(idx@).take(a), positions(idx@)[a]));
    }
    let mut top: Vec<String> = Vec::new();
    let mut j: usize = 0;
    while j < k
        invariant
            j <= k,
            idx.len() == k,
            k <= scores.len(),
            forall|a: int| 0 <= a < k ==> idx[a] < scores.len(),
            top.len() == j,
            forall|a: int| 0 <= a < j ==> top[a]@ == scores@[idx[a] as int].document@,
        decreases k - j,
    {
        let d = scores[idx[j]].document.clone();
        top.push(d);
        j = j + 1;
    }
    assert forall|j: int| 0 <= j < k implies #[trigger] top[j]@ == scores@[positions(idx@)[j]].document@ by {
        assert(top[j]@ == scores@[idx[j] as int].document@);
    }
    assert(positions(idx@).len() == k && is_ranking(keys, positions(idx@)));
    top
}

/// A ranking lists its keys from the greatest down: a position taken earlier
/// never has a smaller key than one taken later.
pub proof fn lemma_ranking_descending(keys: Seq<int>, idx: Seq<int>, a: int, b: int)
    requires
        is_ranking(keys, idx),
        0 <= a < b < idx.len(),
    ensures
        keys[idx[a]] >= keys[idx[b]],
{
    assert(is_first_best(keys, idx.take(a), idx[a]));
    assert(is_first_best(keys, idx.take(b), idx[b]));
    if idx.take(a).contains(idx[b]) {
        let w = choose|w: int| 0 <= w < idx.take(a).len() && idx.take(a)[w] == idx[b];
        assert(idx.take(b)[w] == idx[b]);
    }
}

/// A ranking takes the best: every position it leaves out has a key no
/// greater than that of any position it takes.
pub proof fn lemma_ranking_dominates(keys: Seq<int>, idx: Seq<int>, j: int, u: int)
    requires
        is_ranking(keys, idx),
        0 <= j < idx.len(),
        0 <= u < keys.len(),
        !idx.contains(u),
    ensures
        keys[u] <= keys[idx[j]],
{
    assert(is_first_best(keys, idx.take(j), idx[j]));
    if idx.take(j).contains(u) {
        let w = choose|w: int| 0 <= w < idx.take(j).len() && idx.take(j)[w] == u;
        assert(idx[w] == u);
    }
}

/// A ranking takes no position twice.
pub proof fn lemma_ranking_distinct(keys: Seq<int>, idx: Seq<int>, a: int, b: int)
    requires
        is_ranking(keys, idx),
        0 <= a < b < idx.len(),
    ensures
        idx[a] != idx[b],
{
    assert(is_first_best(keys, idx.take(b), idx[b]));
    assert(idx.take(b)[a] == idx[a]);
}

/// There is only one ranking of each length: the selection is determined by
/// the keys alone.
pub proof fn lemma_ranking_unique(keys: Seq<int>, x: Seq<int>, y: Seq<int>)
    requires
        is_ranking(keys, x),
        is_ranking(keys, y),
        x.len() == y.len(),
    ensures
        x == y,
    decreases x.len(),
{
    if x.len() > 0 {
        let m = x.len() - 1;
        let xs = x.take(m);
        let ys = y.take(m);
        assert forall|j: int| 0 <= j < xs.len() implies #[trigger] is_first_best(keys, xs.take(j), xs[j]) by {
            assert(xs.take(j) =~= x.take(j));
            assert(is_first_best(keys, x.take(j), x[j]));
        }
        assert forall|j: int| 0 <= j < ys.len() implies #[trigger] is_first_best(keys, ys.take(j), ys[j]) by {
            assert(ys.take(j) =~= y.take(j));
            assert(is_first_best(keys, y.take(j), y[j]));
        }
        lemma_ranking_unique(keys, xs, ys);
        assert(is_first_best(keys, x.take(m), x[m]));
        assert(is_first_best(keys, y.take(m), y[m]));
        assert(x.take(m) == y.take(m));
        let cx = x[m];
        let cy = y[m];
        assert(keys[cy] <= keys[cx]);
        assert(keys[cx] <= keys[cy]);
        assert(cx <= cy && cy <= cx);
        assert(x =~= y) by {
            assert forall|j: int| 0 <= j < x.len() implies x[j] == y[j] by {
                if j < m {
                    assert(xs[j] == x[j]);
                    assert(ys[j] == y[j]);
                }
            }
        }
    }
}

} // verus!
