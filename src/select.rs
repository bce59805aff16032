use vstd::prelude::*;
use crate::config::SummaryError;

verus! {

/// Sentence `a` comes before sentence `b` in rank order: a higher score first,
/// and the lower index first among equal scores.
pub open spec fn ranks_before(scores: Seq<u64>, a: int, b: int) -> bool {
    scores[a] > scores[b] || (scores[a] == scores[b] && a < b)
}

/// `r` lists the `min(k, n)` best-ranked of the `n` scored sentences, in rank order.
pub open spec fn is_top_selection(r: Seq<usize>, scores: Seq<u64>, k: nat) -> bool {
    &&& r.len() == if k <= scores.len() { k } else { scores.len() }
    &&& forall|i: int| 0 <= i < r.len() ==> (#[trigger] r[i]) < scores.len()
    &&& forall|i: int, j: int|
        0 <= i < j < r.len() ==> ranks_before(scores, #[trigger] r[i] as int, #[trigger] r[j] as int)
    &&& forall|x: int, i: int|
        0 <= x < scores.len() && !r.contains(x as usize) && 0 <= i < r.len() ==> #[trigger] ranks_before(
            scores,
            r[i] as int,
            x,
        )
}

/// Indices of the `k` best-ranked sentences by score, best first, ties going to
/// the earlier sentence; all of them when `k` exceeds their number. Scores are
/// compared as unsigned integers (the bit patterns of non-negative floats order
/// the same way as their values).
pub fn select_top(scores: &Vec<u64>, k: usize) -> (r: Result<Vec<usize>, SummaryError>)
    ensures
        scores.len() == 0 <==> r == Err::<Vec<usize>, SummaryError>(SummaryError::EmptyInput),
        scores.len() > 0 ==> r is Ok,
        r is Ok ==> is_top_selection(r->Ok_0@, scores@, k as nat),
{
    let n = scores.len();
    if n == 0 {
        return Err(SummaryError::EmptyInput);
    }
    let count: usize = if k <= n { k } else { n };
    let mut taken: Vec<bool> = Vec::new();
    let mut i: usize = 0;
    while i < n
        invariant
            i <= n,
            taken.len() == i,
            forall|x: int| 0 <= x < i ==> !taken[x],
        decreases n - i,
    {
        taken.push(false);
        i = i + 1;
    }
    let mut picked: Vec<usize> = Vec::new();
    while picked.len() < count
        invariant
            n == scores.len(),
            count <= n,
            picked.len() <= count,
            taken.len() == n,
            forall|x: int| 0 <= x < n ==> (taken[x] <==> picked@.contains(x as usize)),
            forall|i: int| 0 <= i < picked.len() ==> (#[trigger] picked[i]) < n,
            forall|i: int, j: int|
                0 <= i < j < picked.len() ==> ranks_before(scores@, #[trigger] picked[i] as int, #[trigger] picked[j] as int),
            forall|x: int, i: int|
                0 <= x < n && !taken[x] && 0 <= i < picked.len() ==> #[trigger] ranks_before(
                    scores@,
                    picked[i] as int,
                    x,
                ),
        decreases count - picked.len(),
    {
        proof {
            // fewer than n are taken, so one is free
            if forall|x: int| 0 <= x < n ==> taken[x] {
                assert forall|x: usize| x < n implies #[trigger] picked@.contains(x) by {
                    assert(taken[x as int]);
                }
                lemma_all_picked(picked@, n as int);
            }
        }
        let mut best: usize = n;
        let mut x: usize = 0;
        while x < n
            invariant
                n == scores.len(),
                taken.len() == n,
                x <= n,
                best == n || (best < x && !taken[best as int]),
                best == n ==> forall|y: int| 0 <= y < x ==> taken[y],
                best < n ==> forall|y: int|
                    0 <= y < x && !taken[y] && y != best ==> ranks_before(scores@, best as int, y),
            decreases n - x,
        {
            if !taken[x] {
                if best == n || scores[x] > scores[best] {
                    best = x;
                }
            }
            x = x + 1;
        }
        assert(best < n);
        let ghost old_picked = picked@;
        taken.set(best, true);
        picked.push(best);
        proof {
            assert(picked@ == old_picked.push(best));
            assert(picked[picked.len() - 1] == best);
            assert forall|y: int| 0 <= y < n implies (taken[y] <==> picked@.contains(y as usize)) by {
                if y != best {
                    if picked@.contains(y as usize) {
                        let q = choose|q: int| 0 <= q < picked.len() && picked[q] == y as usize;
                        assert(old_picked[q] == y as usize);
                    }
                    if old_picked.contains(y as usize) {
                        let q = choose|q: int| 0 <= q < old_picked.len() && old_picked[q] == y as usize;
                        assert(picked[q] == y as usize);
                    }
                }
            }
        }
    }
    Ok(picked)
}

/// A sequence of `m` distinct indices below `n` that holds each index below `n`
/// is at least `n` long.
proof fn lemma_all_picked(picked: Seq<usize>, n: int)
    requires
        0 <= n <= usize::MAX,
        forall|x: usize| (x as int) < n ==> #[trigger] picked.contains(x),
        forall|i: int| 0 <= i < picked.len() ==> (#[trigger] picked[i]) < n,
    ensures
        picked.len() >= n,
{
    let ps = picked.to_set();
    let f = |x: usize| x as int;
    let image = ps.map(f);
    picked.lemma_cardinality_of_set();
    vstd::set_lib::lemma_map_size_bound(ps, image, f);
    vstd::set_lib::lemma_int_range(0, n);
    let range = vstd::set_lib::set_int_range(0, n);
    assert(range.subset_of(image)) by {
        assert forall|y: int| range.contains(y) implies image.contains(y) by {
            assert(picked.contains(y as usize));
            assert(ps.contains(y as usize));
            assert(f(y as usize) == y);
        }
    }
    vstd::set_lib::lemma_len_subset(range, image);
}

/// Where two selections agree on their first `p` entries, the first one's entry
/// at `p` is not ranked before the second one's.
proof fn lemma_no_earlier_choice(r1: Seq<usize>, r2: Seq<usize>, scores: Seq<u64>, k: nat, p: int)
    requires
        is_top_selection(r1, scores, k),
        is_top_selection(r2, scores, k),
        0 <= p < r1.len(),
        forall|q: int| 0 <= q < p ==> r1[q] == r2[q],
    ensures
        !ranks_before(scores, r1[p] as int, r2[p] as int),
{
    let a = r1[p];
    let b = r2[p];
    if !ranks_before(scores, a as int, b as int) {
    } else if r2.contains(a) {
        let q = choose|q: int| 0 <= q < r2.len() && r2[q] == a;
        if q < p {
            assert(r1[q] == a);
            assert(ranks_before(scores, r1[q] as int, r1[p] as int));
        } else if q > p {
            assert(ranks_before(scores, r2[p] as int, r2[q] as int));
        }
    } else {
        assert(ranks_before(scores, r2[p] as int, a as int));
    }
}

proof fn lemma_same_at(r1: Seq<usize>, r2: Seq<usize>, scores: Seq<u64>, k: nat, p: int)
    requires
        is_top_selection(r1, scores, k),
        is_top_selection(r2, scores, k),
        0 <= p < r1.len(),
    ensures
        r1[p] == r2[p],
    decreases p,
{
    assert forall|q: int| 0 <= q < p implies r1[q] == r2[q] by {
        lemma_same_at(r1, r2, scores, k, q);
    }
    if r1[p] != r2[p] {
        lemma_no_earlier_choice(r1, r2, scores, k, p);
        lemma_no_earlier_choice(r2, r1, scores, k, p);
    }
}

/// The selection is determined by the scores and `k`: any two top selections of
/// the same scores are equal, ties included. Running the selector twice on the
/// same input therefore yields the same summary.
pub proof fn lemma_top_selection_unique(r1: Seq<usize>, r2: Seq<usize>, scores: Seq<u64>, k: nat)
    requires
        is_top_selection(r1, scores, k),
        is_top_selection(r2, scores, k),
    ensures
        r1 == r2,
{
    assert forall|p: int| 0 <= p < r1.len() implies r1[p] == r2[p] by {
        lemma_same_at(r1, r2, scores, k, p);
    }
    assert(r1 =~= r2);
}

/// A one-sentence document is summarized by that sentence, whatever positive
/// count is asked for.
pub proof fn lemma_single_sentence(r: Seq<usize>, scores: Seq<u64>, k: nat)
    requires
        scores.len() == 1,
        k > 0,
        is_top_selection(r, scores, k),
    ensures
        r == seq![0usize],
{
    assert(r[0] < 1);
    assert(r =~= seq![0usize]);
}

/// Asking for at least as many sentences as there are yields every sentence,
/// each once.
pub proof fn lemma_all_when_count_exceeds(r: Seq<usize>, scores: Seq<u64>, k: nat)
    requires
        k >= scores.len(),
        is_top_selection(r, scores, k),
    ensures
        r.len() == scores.len(),
        r.no_duplicates(),
        forall|x: usize| (x as int) < scores.len() ==> #[trigger] r.contains(x),
{
    assert forall|i: int, j: int| 0 <= i < r.len() && 0 <= j < r.len() && i != j implies r[i] != r[j] by {
        if i < j {
            assert(ranks_before(scores, r[i] as int, r[j] as int));
        } else {
            assert(ranks_before(scores, r[j] as int, r[i] as int));
        }
    }
    let n = scores.len() as int;
    let range = vstd::set_lib::set_int_range(0, n);
    let f = |y: int| y as usize;
    let image = range.map(f);
    vstd::set_lib::lemma_int_range(0, n);
    vstd::set_lib::lemma_map_size_bound(range, image, f);
    let ps = r.to_set();
    r.unique_seq_to_set();
    assert forall|x: usize| (x as int) < scores.len() implies #[trigger] r.contains(x) by {
        if !r.contains(x) {
            assert(range.contains(x as int));
            assert(f(x as int) == x);
            assert(image.contains(x));
            assert(ps.subset_of(image.remove(x))) by {
                assert forall|y: usize| ps.contains(y) implies image.remove(x).contains(y) by {
                    let q = choose|q: int| 0 <= q < r.len() && r[q] == y;
                    assert(r[q] < n);
                    assert(range.contains(y as int));
                    assert(f(y as int) == y);
                }
            }
            vstd::set_lib::lemma_len_subset(ps, image.remove(x));
            assert(image.remove(x).len() == image.len() - 1);
        }
    }
}

} // verus!
