//! The aggregator: all-pairs comparison of the digests of a batch, neighbor
//! lists, the similar-only filter, the ranking of protocol hints, and the
//! cluster boost of protocol verdicts.

use vstd::prelude::*;
use vstd::string::*;
use crate::distance::penalized;
use crate::fbhash::{aligned_terms, FbHashView};
use crate::lzjd::lzjd_distance;
use crate::similarity::{diff_similarity_hash, same_family, SimilarityHash, SimilarityView};

verus! {

/// A recorded pair `(i, j, distance)` lies within the batch, in order, within
/// the threshold and the distance range, and compares digests of one family.
pub open spec fn valid_pair(hashes: Seq<SimilarityHash>, p: (usize, usize, i32), threshold: i32, include_length: bool) -> bool {
    &&& p.0 < p.1 < hashes.len()
    &&& 0 <= p.2 <= 100
    &&& p.2 <= threshold
    &&& same_family(hashes[p.0 as int]@, hashes[p.1 as int]@)
    &&& (hashes[p.0 as int]@, hashes[p.1 as int]@) matches (SimilarityView::Lzjd(a), SimilarityView::Lzjd(b)) ==> p.2 == lzjd_distance(a, b, include_length)
}

/// `d` is an FBHash distance that the cosine closure can give two digests:
/// the length-penalized value of its answer on their aligned terms.
pub open spec fn fbhash_outcome<F: Fn(&Vec<(u32, u32)>) -> u32>(f: F, a: FbHashView, b: FbHashView, include_length: bool, d: int) -> bool {
    exists|t: &Vec<(u32, u32)>, c: u32| t@ == aligned_terms(a.features, b.features) && #[trigger] f.ensures((t,), c)
        && d == penalized(if c > 100 { 100int } else { c as int }, a.payload_len, b.payload_len, include_length)
}

/// Whether pair `(i, j)` is recorded.
pub open spec fn recorded(r: Seq<(usize, usize, i32)>, i: int, j: int) -> bool {
    exists|k: int| 0 <= k < r.len() && (#[trigger] r[k]).0 == i && r[k].1 == j
}

/// An FBHash pair that is recorded got a distance that the closure allows; one
/// that is not was, by the closure's answer, above the threshold.
pub open spec fn fbhash_pairs_ok<F: Fn(&Vec<(u32, u32)>) -> u32>(
    hashes: Seq<SimilarityHash>,
    r: Seq<(usize, usize, i32)>,
    f: F,
    threshold: i32,
    include_length: bool,
    rows: int,
    row: int,
    cols: int,
) -> bool {
    &&& forall|k: int| 0 <= k < r.len() ==> ((hashes[(#[trigger] r[k]).0 as int]@, hashes[r[k].1 as int]@) matches (SimilarityView::FbHash(a), SimilarityView::FbHash(b))
        ==> fbhash_outcome(f, a, b, include_length, r[k].2 as int))
    &&& forall|i: int, j: int| 0 <= i < j < hashes.len() && (i < rows || (i == row && j < cols)) && !recorded(r, i, j)
        ==> ((#[trigger] hashes[i]@, #[trigger] hashes[j]@) matches (SimilarityView::FbHash(a), SimilarityView::FbHash(b))
        ==> exists|d: int| d > threshold && fbhash_outcome(f, a, b, include_length, d))
}

/// Whether an LZJD pair of the batch is within the threshold.
pub open spec fn lzjd_pair_within(hashes: Seq<SimilarityHash>, i: int, j: int, threshold: i32, include_length: bool) -> bool {
    (hashes[i]@, hashes[j]@) matches (SimilarityView::Lzjd(a), SimilarityView::Lzjd(b)) && lzjd_distance(a, b, include_length) <= threshold
}

/// Compares every unordered pair of digests `(i, j)`, `i < j`, and records
/// the pairs whose distance is at most `distance_threshold`, in order of
/// `i` and then `j`. Pairs of different families are skipped. For FBHash the
/// cosine part comes from `cosine_distance`.
pub fn run_hash_diffs<F: Fn(&Vec<(u32, u32)>) -> u32>(
    hashes: &Vec<SimilarityHash>,
    distance_threshold: i32,
    include_file_length: bool,
    cosine_distance: &F,
) -> (r: Vec<(usize, usize, i32)>)
    requires
        forall|t: &Vec<(u32, u32)>| cosine_distance.requires((t,)),
    ensures
        forall|k: int| 0 <= k < r@.len() ==> valid_pair(hashes@, #[trigger] r@[k], distance_threshold, include_file_length),
        forall|a: int, b: int| 0 <= a < b < r@.len() ==> (r@[a].0 < r@[b].0 || (r@[a].0 == r@[b].0 && r@[a].1 < r@[b].1)),
        forall|i: int, j: int| 0 <= i < j < hashes@.len() && lzjd_pair_within(hashes@, i, j, distance_threshold, include_file_length)
            ==> exists|k: int| 0 <= k < r@.len() && (#[trigger] r@[k]).0 == i && r@[k].1 == j,
        fbhash_pairs_ok(hashes@, r@, cosine_distance, distance_threshold, include_file_length, hashes@.len() as int, 0, 0),
{
    let mut out: Vec<(usize, usize, i32)> = Vec::new();
    let n = hashes.len();
    let mut i: usize = 0;
    while i < n
        invariant
            n == hashes@.len(),
            i <= n,
            forall|t: &Vec<(u32, u32)>| cosine_distance.requires((t,)),
            forall|k: int| 0 <= k < out@.len() ==> valid_pair(hashes@, #[trigger] out@[k], distance_threshold, include_file_length),
            forall|k: int| 0 <= k < out@.len() ==> (#[trigger] out@[k]).0 < i,
            forall|a: int, b: int| 0 <= a < b < out@.len() ==> (out@[a].0 < out@[b].0 || (out@[a].0 == out@[b].0 && out@[a].1 < out@[b].1)),
            forall|a: int, b: int| 0 <= a < i && a < b < n && lzjd_pair_within(hashes@, a, b, distance_threshold, include_file_length)
                ==> exists|k: int| 0 <= k < out@.len() && (#[trigger] out@[k]).0 == a && out@[k].1 == b,
            fbhash_pairs_ok(hashes@, out@, cosine_distance, distance_threshold, include_file_length, i as int, i as int, 0),
        decreases n - i,
    {
        let mut j: usize = i + 1;
        while j < n
            invariant
                n == hashes@.len(),
                i < n,
                i + 1 <= j <= n,
                forall|t: &Vec<(u32, u32)>| cosine_distance.requires((t,)),
                forall|k: int| 0 <= k < out@.len() ==> valid_pair(hashes@, #[trigger] out@[k], distance_threshold, include_file_length),
                forall|k: int| 0 <= k < out@.len() ==> (#[trigger] out@[k]).0 < i || (out@[k].0 == i && out@[k].1 < j),
                forall|a: int, b: int| 0 <= a < b < out@.len() ==> (out@[a].0 < out@[b].0 || (out@[a].0 == out@[b].0 && out@[a].1 < out@[b].1)),
                forall|a: int, b: int| 0 <= a < i && a < b < n && lzjd_pair_within(hashes@, a, b, distance_threshold, include_file_length)
                    ==> exists|k: int| 0 <= k < out@.len() && (#[trigger] out@[k]).0 == a && out@[k].1 == b,
                forall|b: int| i < b < j && lzjd_pair_within(hashes@, i as int, b, distance_threshold, include_file_length)
                    ==> exists|k: int| 0 <= k < out@.len() && (#[trigger] out@[k]).0 == i && out@[k].1 == b,
                fbhash_pairs_ok(hashes@, out@, cosine_distance, distance_threshold, include_file_length, i as int, i as int, j as int),
            decreases n - j,
        {
            let ghost before = out@;
            match diff_similarity_hash(&hashes[i], &hashes[j], include_file_length, cosine_distance) {
                Ok(distance) => {
                    if distance <= distance_threshold {
                        out.push((i, j, distance));
                        proof {
                            assert(out@[before.len() as int] == (i, j, distance));
                            assert forall|k: int| 0 <= k < before.len() implies out@[k] == before[k] by {}
                        }
                    } else {
                        proof {
                            if let (SimilarityView::FbHash(a), SimilarityView::FbHash(b)) = (hashes@[i as int]@, hashes@[j as int]@) {
                                assert(fbhash_outcome(cosine_distance, a, b, include_file_length, distance as int));
                            }
                        }
                    }
                },
                Err(_) => {},
            }
            proof {
                let r = out@;
                assert forall|x: int, y: int| 0 <= x < y < hashes@.len() && (x < i || (x == i && y < j + 1)) && !recorded(r, x, y)
                    implies ((#[trigger] hashes@[x]@, #[trigger] hashes@[y]@) matches (SimilarityView::FbHash(a), SimilarityView::FbHash(b))
                    ==> exists|d: int| d > distance_threshold && fbhash_outcome(cosine_distance, a, b, include_file_length, d)) by {
                    if !(x == i && y == j) {
                        if recorded(before, x, y) {
                            let k = choose|k: int| 0 <= k < before.len() && (#[trigger] before[k]).0 == x && before[k].1 == y;
                            assert(r[k] == before[k]);
                        }
                    } else {
                        if let (SimilarityView::FbHash(a), SimilarityView::FbHash(b)) = (hashes@[x]@, hashes@[y]@) {
                            assert(r.len() == before.len());
                        }
                    }
                }
                assert forall|k: int| 0 <= k < r.len() implies ((hashes@[(#[trigger] r[k]).0 as int]@, hashes@[r[k].1 as int]@) matches (SimilarityView::FbHash(a), SimilarityView::FbHash(b))
                    ==> fbhash_outcome(cosine_distance, a, b, include_file_length, r[k].2 as int)) by {
                    if k < before.len() {
                        assert(r[k] == before[k]);
                    }
                }
            }
            j = j + 1;
        }
        i = i + 1;
    }
    out
}

/// The neighbors that the pairs give digest `i`, in pair order: for a pair
/// `(a, b, d)`, `a` lists `(b, d)` and `b` lists `(a, d)`.
pub open spec fn neighbors_of(pairs: Seq<(usize, usize, i32)>, i: usize) -> Seq<(usize, i32)>
    decreases pairs.len(),
{
    if pairs.len() == 0 {
        Seq::empty()
    } else {
        let p = pairs.last();
        neighbors_of(pairs.drop_last(), i) + (if p.0 == i { seq![(p.1, p.2)] } else { Seq::empty() }) + (if p.1 == i {
            seq![(p.0, p.2)]
        } else {
            Seq::empty()
        })
    }
}

/// The neighbors of every digest.
pub fn neighbor_lists(n: usize, pairs: &Vec<(usize, usize, i32)>) -> (r: Vec<Vec<(usize, i32)>>)
    requires
        forall|k: int| 0 <= k < pairs@.len() ==> (#[trigger] pairs@[k]).0 < n && pairs@[k].1 < n,
    ensures
        r@.len() == n,
        forall|i: int| 0 <= i < n ==> (#[trigger] r@[i])@ == neighbors_of(pairs@, i as usize),
{
    let mut lists: Vec<Vec<(usize, i32)>> = Vec::new();
    let mut i: usize = 0;
    while i < n
        invariant
            i <= n,
            lists@.len() == i,
            forall|x: int| 0 <= x < i ==> (#[trigger] lists@[x])@ == neighbors_of(pairs@.take(0), x as usize),
        decreases n - i,
    {
        lists.push(Vec::new());
        proof {
            assert(lists@[i as int]@ =~= neighbors_of(pairs@.take(0), i));
        }
        i = i + 1;
    }
    let mut k: usize = 0;
    while k < pairs.len()
        invariant
            k <= pairs@.len(),
            lists@.len() == n,
            forall|q: int| 0 <= q < pairs@.len() ==> (#[trigger] pairs@[q]).0 < n && pairs@[q].1 < n,
            forall|x: int| 0 <= x < n ==> (#[trigger] lists@[x])@ == neighbors_of(pairs@.take(k as int), x as usize),
        decreases pairs.len() - k,
    {
        let (a, b, d) = pairs[k];
        let ghost l0 = lists@;
        let mut left = Vec::new();
        lists.set_and_swap(a, &mut left);
        left.push((b, d));
        lists.set_and_swap(a, &mut left);
        let ghost l1 = lists@;
        let mut right = Vec::new();
        lists.set_and_swap(b, &mut right);
        right.push((a, d));
        lists.set_and_swap(b, &mut right);
        proof {
            assert(pairs@.take(k + 1).drop_last() =~= pairs@.take(k as int));
            assert(pairs@.take(k + 1).last() == (a, b, d));
            assert forall|x: int| 0 <= x < n implies (#[trigger] lists@[x])@ == neighbors_of(pairs@.take(k + 1), x as usize) by {
                let prev = neighbors_of(pairs@.take(k as int), x as usize);
                assert(l0[x]@ == prev);
                let after_left = if x == a { prev.push((b, d)) } else { prev };
                assert(l1[x]@ == after_left);
                let after_right = if x == b { after_left.push((a, d)) } else { after_left };
                assert(lists@[x]@ == after_right);
                assert(after_right =~= neighbors_of(pairs@.take(k + 1), x as usize));
            }
        }
        k = k + 1;
    }
    assert(pairs@.take(k as int) =~= pairs@);
    lists
}

/// The reports to emit among the first `i`, in order: all of them, or with
/// `sim_only` those with at least one neighbor.
pub open spec fn emitted(counts: Seq<usize>, sim_only: bool, i: int) -> Seq<usize>
    decreases i,
{
    if i <= 0 {
        Seq::empty()
    } else if !sim_only || counts[i - 1] > 0 {
        emitted(counts, sim_only, i - 1).push((i - 1) as usize)
    } else {
        emitted(counts, sim_only, i - 1)
    }
}

/// With the similar-only filter, every emitted report has a neighbor.
pub proof fn law_sim_only_reports_have_neighbors(counts: Seq<usize>, i: int)
    requires
        0 <= i <= counts.len(),
        counts.len() <= usize::MAX,
    ensures
        forall|k: int| 0 <= k < emitted(counts, true, i).len() ==> (#[trigger] emitted(counts, true, i)[k]) < i
            && counts[emitted(counts, true, i)[k] as int] > 0,
    decreases i,
{
    if i > 0 {
        law_sim_only_reports_have_neighbors(counts, i - 1);
        let prev = emitted(counts, true, i - 1);
        let cur = emitted(counts, true, i);
        assert(cur == if counts[i - 1] > 0 { prev.push((i - 1) as usize) } else { prev });
        assert forall|k: int| 0 <= k < cur.len() implies (#[trigger] cur[k]) < i && counts[cur[k] as int] > 0 by {
            if k < prev.len() {
                assert(cur[k] == prev[k]);
                assert(prev[k] < i - 1);
            }
        }
    }
}

/// Which reports to emit: all of them, or with `sim_only` those with at
/// least one neighbor, in order.
pub fn reports_to_emit(neighbor_counts: &Vec<usize>, sim_only: bool) -> (r: Vec<usize>)
    ensures
        r@ == emitted(neighbor_counts@, sim_only, neighbor_counts@.len() as int),
{
    let mut out: Vec<usize> = Vec::new();
    let mut i: usize = 0;
    while i < neighbor_counts.len()
        invariant
            i <= neighbor_counts@.len(),
            out@ == emitted(neighbor_counts@, sim_only, i as int),
        decreases neighbor_counts.len() - i,
    {
        if !sim_only || neighbor_counts[i] > 0 {
            out.push(i);
        }
        i = i + 1;
    }
    out
}

/// Hint candidates: report indices ordered by neighbor count, largest
/// first (ties in report order), at most `limit` of them.
pub fn rank_hint_candidates(neighbor_counts: &Vec<usize>, limit: usize) -> (r: Vec<usize>)
    ensures
        r@.len() == if limit < neighbor_counts@.len() { limit as int } else { neighbor_counts@.len() as int },
        forall|k: int| 0 <= k < r@.len() ==> (#[trigger] r@[k]) < neighbor_counts@.len(),
        forall|a: int, b: int| 0 <= a < b < r@.len() ==> neighbor_counts@[r@[a] as int] >= neighbor_counts@[r@[b] as int],
        forall|a: int, b: int| 0 <= a < b < r@.len() ==> r@[a] != r@[b],
        forall|i: int| 0 <= i < neighbor_counts@.len() && !r@.contains(i as usize) && r@.len() > 0
            ==> #[trigger] neighbor_counts@[i] <= neighbor_counts@[r@.last() as int],
{
    broadcast use vstd::seq_lib::group_to_multiset_ensures;
    let n = neighbor_counts.len();
    let ghost counts = neighbor_counts@;
    let mut sorted: Vec<usize> = Vec::new();
    let mut i: usize = 0;
    assert(sorted@.to_multiset() =~= Seq::new(0, |k: int| k as usize).to_multiset());
    while i < n
        invariant
            n == counts.len(),
            counts == neighbor_counts@,
            i <= n,
            sorted@.len() == i,
            sorted@.to_multiset() == Seq::new(i as nat, |k: int| k as usize).to_multiset(),
            forall|k: int| 0 <= k < sorted@.len() ==> (#[trigger] sorted@[k]) < i,
            forall|a: int, b: int| 0 <= a < b < sorted@.len() ==> counts[sorted@[a] as int] >= counts[sorted@[b] as int],
        decreases n - i,
    {
        let c = neighbor_counts[i];
        let mut pos: usize = 0;
        while pos < sorted.len() && neighbor_counts[sorted[pos]] >= c
            invariant
                pos <= sorted@.len(),
                n == counts.len(),
                counts == neighbor_counts@,
                forall|k: int| 0 <= k < sorted@.len() ==> (#[trigger] sorted@[k]) < i,
                i < n,
                c == counts[i as int],
                forall|k: int| 0 <= k < pos ==> counts[sorted@[k] as int] >= c,
            decreases sorted.len() - pos,
        {
            pos = pos + 1;
        }
        let ghost before = sorted@;
        sorted.insert(pos, i);
        proof {
            crate::text::lemma_insert_to_multiset(before, pos as int, i);
            let range = Seq::new(i as nat, |k: int| k as usize);
            assert(Seq::new((i + 1) as nat, |k: int| k as usize) =~= range.push(i));
            range.to_multiset_ensures();
            assert forall|k: int| 0 <= k < sorted@.len() implies (#[trigger] sorted@[k]) < i + 1 by {
                if k < pos {
                    assert(sorted@[k] == before[k]);
                } else if k > pos {
                    assert(sorted@[k] == before[k - 1]);
                }
            }
            assert forall|a: int, b: int| 0 <= a < b < sorted@.len() implies counts[sorted@[a] as int] >= counts[sorted@[b] as int] by {
                if a < pos && b == pos {
                    assert(sorted@[a] == before[a]);
                } else if a < pos && b > pos {
                    assert(sorted@[a] == before[a]);
                    assert(sorted@[b] == before[b - 1]);
                } else if a == pos && b > pos {
                    assert(sorted@[b] == before[b - 1]);
                    assert(counts[before[pos as int] as int] < c);
                    if b - 1 > pos {
                        assert(counts[before[pos as int] as int] >= counts[before[b - 1] as int]);
                    }
                } else if a > pos {
                    assert(sorted@[a] == before[a - 1]);
                    assert(sorted@[b] == before[b - 1]);
                } else {
                    assert(sorted@[a] == before[a]);
                    assert(sorted@[b] == before[b]);
                }
            }
        }
        i = i + 1;
    }
    let ghost full = sorted@;
    if sorted.len() > limit {
        sorted.truncate(limit);
    }
    proof {
        let range = Seq::new(n as nat, |k: int| k as usize);
        assert(range.no_duplicates());
        range.lemma_multiset_has_no_duplicates();
        assert forall|a: int, b: int| 0 <= a < b < full.len() implies full[a] != full[b] by {
            if full[a] == full[b] {
                crate::text::lemma_dup_count(full, a, b);
                assert(full.contains(full[a]));
                assert(range.to_multiset().contains(full[a]));
            }
        }
        assert(sorted@ =~= full.take(sorted@.len() as int));
        assert forall|a: int, b: int| 0 <= a < b < sorted@.len() implies sorted@[a] != sorted@[b] by {
            assert(sorted@[a] == full[a]);
            assert(sorted@[b] == full[b]);
        }
        assert forall|x: int| 0 <= x < n && !sorted@.contains(x as usize) && sorted@.len() > 0
            implies #[trigger] counts[x] <= counts[sorted@.last() as int] by {
            let range = Seq::new(n as nat, |k: int| k as usize);
            assert(range[x] == x as usize);
            assert(range.contains(x as usize));
            assert(range.to_multiset().count(x as usize) > 0);
            assert(full.contains(x as usize));
            let w = choose|w: int| 0 <= w < full.len() && full[w] == x as usize;
            if w < sorted@.len() {
                assert(sorted@[w] == full[w]);
            }
            assert(full[sorted@.len() - 1] == sorted@.last());
        }
    }
    sorted
}

} // verus!
