//! Generic matching utilities: a greedy index assignment between two
//! feature sequences, and the adaptive non-max-suppression reordering that
//! clusters detections toward the front before truncation.

use crate::bits::{bv_bits, bv_cap, bv_contains, bv_insert, bv_new};
use bitvector::BitVector;
use vstd::prelude::*;
use vstd::set_lib::lemma_len_subset;

verus! {

broadcast use vstd::seq_lib::group_to_multiset_ensures;

/// A pixel coordinate pair `(x, y)`.
pub type Point = (i32, i32);

/// A pairing of an index into a first sequence with an index into a second.
pub type IndexMatch = (usize, usize);

/// A feature that can measure how far it is from another of its kind.
pub trait Matchable: Sized {
    /// The value `distance` returns.
    spec fn dist_spec(&self, other: &Self) -> int;

    /// What `distance` asks of its arguments (bounds that keep the
    /// arithmetic inside the machine integers).
    spec fn dist_req(&self, other: &Self) -> bool;

    fn distance(&self, other: &Self) -> (r: usize)
        requires
            self.dist_req(other),
        ensures
            r as int == self.dist_spec(other),
    ;
}

/// The running minimum of a left-to-right scan of `s2` over the indices in
/// `[j, s2.len())` that are not claimed, starting from best `(bd, bi)`:
/// the first strict improvement wins, so ties keep the earlier index.
pub open spec fn scan_best<T: Matchable>(
    a: T,
    s2: Seq<T>,
    claimed: Set<int>,
    j: int,
    bd: int,
    bi: int,
) -> (int, int)
    decreases s2.len() - j,
{
    if j < 0 || j >= s2.len() {
        (bd, bi)
    } else {
        let d = a.dist_spec(&s2[j]);
        if !claimed.contains(j) && d < bd {
            scan_best(a, s2, claimed, j + 1, d, j)
        } else {
            scan_best(a, s2, claimed, j + 1, bd, bi)
        }
    }
}

/// The pairs the greedy assignment emits for the indices `i, i+1, ...` of
/// `s1`, given the set of already claimed indices of `s2`.
pub open spec fn greedy_from<T: Matchable>(
    s1: Seq<T>,
    s2: Seq<T>,
    claimed: Set<int>,
    i: int,
) -> Seq<IndexMatch>
    decreases s1.len() - i,
{
    if i < 0 || i >= s1.len() {
        Seq::empty()
    } else {
        let best = scan_best(s1[i], s2, claimed, 0, usize::MAX as int, 0);
        seq![(i as usize, best.1 as usize)] + greedy_from(s1, s2, claimed.insert(best.1), i + 1)
    }
}

proof fn lemma_scan_best_mono<T: Matchable>(
    a: T,
    s2: Seq<T>,
    claimed: Set<int>,
    j: int,
    bd: int,
    bi: int,
)
    ensures
        scan_best(a, s2, claimed, j, bd, bi).0 <= bd,
    decreases s2.len() - j,
{
    if !(j < 0 || j >= s2.len()) {
        let d = a.dist_spec(&s2[j]);
        if !claimed.contains(j) && d < bd {
            lemma_scan_best_mono(a, s2, claimed, j + 1, d, j);
        } else {
            lemma_scan_best_mono(a, s2, claimed, j + 1, bd, bi);
        }
    }
}

/// An unclaimed index in range caps the scan's final minimum.
proof fn lemma_scan_best_le<T: Matchable>(
    a: T,
    s2: Seq<T>,
    claimed: Set<int>,
    j: int,
    bd: int,
    bi: int,
    j0: int,
)
    requires
        0 <= j <= j0 < s2.len(),
        !claimed.contains(j0),
    ensures
        scan_best(a, s2, claimed, j, bd, bi).0 <= a.dist_spec(&s2[j0]),
    decreases s2.len() - j,
{
    let d = a.dist_spec(&s2[j]);
    if j == j0 {
        if !claimed.contains(j) && d < bd {
            lemma_scan_best_mono(a, s2, claimed, j + 1, d, j);
        } else {
            lemma_scan_best_mono(a, s2, claimed, j + 1, bd, bi);
        }
    } else {
        if !claimed.contains(j) && d < bd {
            lemma_scan_best_le(a, s2, claimed, j + 1, d, j, j0);
        } else {
            lemma_scan_best_le(a, s2, claimed, j + 1, bd, bi, j0);
        }
    }
}

/// Greedily pairs each index of `vec1`, in order, with the not-yet-claimed
/// index of `vec2` at the least distance (first minimum wins, scanning in
/// ascending order); the claimed index is then retired.  Unequal lengths
/// give the empty sequence.  With equal lengths the result pairs index `k`
/// of `vec1` with a distinct index of `vec2` for every `k`: a bijection.
pub fn match_indices<T: Matchable>(vec1: &Vec<T>, vec2: &Vec<T>) -> (r: Vec<IndexMatch>)
    requires
        vec1@.len() + 64 <= usize::MAX,
        forall|i: int, j: int|
            0 <= i < vec1@.len() && 0 <= j < vec2@.len() ==> vec1@[i].dist_req(&vec2@[j]),
        forall|i: int, j: int|
            0 <= i < vec1@.len() && 0 <= j < vec2@.len() ==> #[trigger] vec1@[i].dist_spec(
                &vec2@[j],
            ) < usize::MAX,
    ensures
        vec1@.len() != vec2@.len() ==> r@ =~= Seq::<IndexMatch>::empty(),
        vec1@.len() == vec2@.len() ==> {
            &&& r@ == greedy_from(vec1@, vec2@, Set::<int>::empty(), 0)
            &&& r@.len() == vec1@.len()
            &&& forall|k: int|
                0 <= k < r@.len() ==> (#[trigger] r@[k]).0 == k && r@[k].1 < vec2@.len()
            &&& forall|k1: int, k2: int| 0 <= k1 < k2 < r@.len() ==> r@[k1].1 != r@[k2].1
        },
{
    if vec1.len() != vec2.len() {
        let nil: Vec<IndexMatch> = vec![];
        return nil;
    }
    let mut index_vec: Vec<IndexMatch> = vec![];
    let len = vec1.len();
    let mut matched_indices = bv_new(len);
    proof {
        vstd::arithmetic::div_mod::lemma_fundamental_div_mod((len + 63) as int, 64);
        assert(bv_cap(matched_indices) >= len);
        assert(bv_bits(matched_indices) =~= Set::<int>::empty());
        assert(Set::<int>::empty().len() == 0);
    }
    let mut i: usize = 0;
    while i < len
        invariant
            len == vec1@.len() && len == vec2@.len(),
            len + 64 <= usize::MAX,
            0 <= i <= len,
            forall|a: int, b: int|
                0 <= a < len && 0 <= b < len ==> vec1@[a].dist_req(&vec2@[b]),
            forall|a: int, b: int|
                0 <= a < len && 0 <= b < len ==> #[trigger] vec1@[a].dist_spec(&vec2@[b])
                    < usize::MAX,
            bv_cap(matched_indices) >= len,
            bv_bits(matched_indices).finite(),
            bv_bits(matched_indices).len() == i,
            forall|x: int|
                bv_bits(matched_indices).contains(x) ==> 0 <= x < len,
            index_vec@.len() == i,
            forall|k: int|
                0 <= k < i ==> (#[trigger] index_vec@[k]).0 == k && index_vec@[k].1 < len,
            forall|k: int|
                0 <= k < i ==> bv_bits(matched_indices).contains(
                    #[trigger] index_vec@[k].1 as int,
                ),
            forall|k1: int, k2: int| 0 <= k1 < k2 < i ==> index_vec@[k1].1 != index_vec@[k2].1,
            greedy_from(vec1@, vec2@, Set::<int>::empty(), 0) == index_vec@ + greedy_from(
                vec1@,
                vec2@,
                bv_bits(matched_indices),
                i as int,
            ),
        decreases len - i,
    {
        let ghost claimed = bv_bits(matched_indices);
        let mut min_dist: usize = usize::MAX;
        let mut matched_index: usize = 0;
        let mut j: usize = 0;
        while j < len
            invariant
                len == vec1@.len() && len == vec2@.len(),
                0 <= i < len,
                0 <= j <= len,
                forall|a: int, b: int|
                    0 <= a < len && 0 <= b < len ==> vec1@[a].dist_req(&vec2@[b]),
                forall|a: int, b: int|
                    0 <= a < len && 0 <= b < len ==> #[trigger] vec1@[a].dist_spec(&vec2@[b])
                        < usize::MAX,
                claimed == bv_bits(matched_indices),
                bv_cap(matched_indices) >= len,
                matched_index < len || matched_index == 0,
                min_dist < usize::MAX ==> {
                    &&& matched_index < len
                    &&& !claimed.contains(matched_index as int)
                    &&& min_dist as int == vec1@[i as int].dist_spec(&vec2@[matched_index as int])
                },
                scan_best(vec1@[i as int], vec2@, claimed, 0, usize::MAX as int, 0) == scan_best(
                    vec1@[i as int],
                    vec2@,
                    claimed,
                    j as int,
                    min_dist as int,
                    matched_index as int,
                ),
            decreases len - j,
        {
            if !bv_contains(&matched_indices, j) {
                let dist = vec1[i].distance(&vec2[j]);
                if dist < min_dist {
                    min_dist = dist;
                    matched_index = j;
                }
            }
            j += 1;
        }
        proof {
            // Some index of `vec2` is still unclaimed, so the scan found a
            // real minimum below usize::MAX.
            let range = Set::<int>::new(|x: int| 0 <= x < len);
            assert(range =~= vstd::set_lib::set_int_range(0, len as int));
            vstd::set_lib::lemma_int_range(0, len as int);
            if forall|x: int| 0 <= x < len ==> claimed.contains(x) {
                assert(range.subset_of(claimed));
                lemma_len_subset(range, claimed);
                assert(false);
            }
            let j0 = choose|x: int| 0 <= x < len && !claimed.contains(x);
            lemma_scan_best_le(vec1@[i as int], vec2@, claimed, 0, usize::MAX as int, 0, j0);
            assert(min_dist < usize::MAX);
        }
        index_vec.push((i, matched_index));
        bv_insert(&mut matched_indices, matched_index);
        proof {
            assert(bv_bits(matched_indices) =~= claimed.insert(matched_index as int));
            assert(greedy_from(vec1@, vec2@, claimed, i as int) == seq![
                (i, matched_index),
            ] + greedy_from(vec1@, vec2@, claimed.insert(matched_index as int), i as int + 1));
            assert(index_vec@ + greedy_from(
                vec1@,
                vec2@,
                bv_bits(matched_indices),
                i as int + 1,
            ) =~= (index_vec@.drop_last() + greedy_from(vec1@, vec2@, claimed, i as int)));
        }
        i += 1;
    }
    index_vec
}

/// Exchange of the elements at two positions.
pub open spec fn seq_swap<T>(s: Seq<T>, i: int, j: int) -> Seq<T> {
    if 0 <= i < s.len() && 0 <= j < s.len() {
        s.update(i, s[j]).update(j, s[i])
    } else {
        s
    }
}

/// The index `j` in `[0, i)` whose element lies closest to element `i`
/// under the running-minimum scan (first minimum wins).
pub open spec fn nms_best<T: Matchable>(s: Seq<T>, i: int, j: int, bd: int, bi: int) -> (int, int)
    decreases i - j,
{
    if j < 0 || j >= i {
        (bd, bi)
    } else {
        let d = s[j].dist_spec(&s[i]);
        if d < bd {
            nms_best(s, i, j + 1, d, j)
        } else {
            nms_best(s, i, j + 1, bd, bi)
        }
    }
}

/// The suppression reordering: for each index `i` from 1 to `len - 2` in
/// turn, the element at `i` is swapped with the element before `i` that
/// lies closest to it.
pub open spec fn nms_pass<T: Matchable>(s: Seq<T>, i: int) -> Seq<T>
    decreases s.len() - i,
{
    if i < 1 || i >= s.len() - 1 {
        s
    } else {
        let bi = nms_best(s, i, 0, usize::MAX as int, 0).1;
        nms_pass(seq_swap(s, i, bi), i + 1)
    }
}

proof fn lemma_nms_best_range<T: Matchable>(s: Seq<T>, i: int, j: int, bd: int, bi: int)
    requires
        0 <= bi < s.len(),
        0 <= j,
        i < s.len(),
    ensures
        0 <= nms_best(s, i, j, bd, bi).1 < s.len(),
    decreases i - j,
{
    if !(j < 0 || j >= i) {
        let d = s[j].dist_spec(&s[i]);
        if d < bd {
            lemma_nms_best_range(s, i, j + 1, d, j);
        } else {
            lemma_nms_best_range(s, i, j + 1, bd, bi);
        }
    }
}

pub proof fn lemma_swap_multiset<T>(s: Seq<T>, i: int, j: int)
    requires
        0 <= i < s.len(),
        0 <= j < s.len(),
    ensures
        seq_swap(s, i, j).to_multiset() == s.to_multiset(),
        seq_swap(s, i, j).len() == s.len(),
{
    broadcast use vstd::multiset::group_multiset_axioms, vstd::multiset::group_multiset_properties;

    vstd::seq_lib::to_multiset_update(s, i, s[j]);
    vstd::seq_lib::to_multiset_update(s.update(i, s[j]), j, s[i]);
    if i == j {
        assert(seq_swap(s, i, j) =~= s);
    } else {
        assert(s.update(i, s[j])[j] == s[j]);
        assert(s.to_multiset().count(s[j]) > 0 && s.to_multiset().count(s[i]) > 0);
        assert(seq_swap(s, i, j).to_multiset() =~= s.to_multiset());
    }
}

/// The reordering pass only permutes the sequence.
pub proof fn lemma_nms_pass_multiset<T: Matchable>(s: Seq<T>, i: int)
    ensures
        nms_pass(s, i).to_multiset() == s.to_multiset(),
        nms_pass(s, i).len() == s.len(),
    decreases s.len() - i,
{
    if !(i < 1 || i >= s.len() - 1) {
        let bi = nms_best(s, i, 0, usize::MAX as int, 0).1;
        lemma_nms_best_range(s, i, 0, usize::MAX as int, 0);
        lemma_swap_multiset(s, i, bi);
        lemma_nms_pass_multiset(seq_swap(s, i, bi), i + 1);
    }
}

/// Reorders `vec` in place by the suppression pass, then returns its first
/// `n` elements; if `n` exceeds the length, returns the empty vector and
/// leaves `vec` alone.  With `n` equal to the length the result is a
/// permutation of the input: nothing is lost or duplicated.
pub fn adaptive_nonmax_suppression<T: Matchable + Copy>(vec: &mut Vec<T>, n: usize) -> (r: Vec<T>)
    requires
        old(vec)@.len() > 0 || n > 0,
        forall|a: int, b: int|
            0 <= a < old(vec)@.len() && 0 <= b < old(vec)@.len() ==> old(vec)@[a].dist_req(
                &old(vec)@[b],
            ),
    ensures
        n > old(vec)@.len() ==> final(vec)@ == old(vec)@ && r@ =~= Seq::<T>::empty(),
        n <= old(vec)@.len() ==> {
            &&& final(vec)@ == nms_pass(old(vec)@, 1)
            &&& final(vec)@.to_multiset() == old(vec)@.to_multiset()
            &&& r@ == final(vec)@.subrange(0, n as int)
        },
        n == old(vec)@.len() ==> r@.to_multiset() == old(vec)@.to_multiset(),
{
    if n > vec.len() {
        let nil: Vec<T> = vec![];
        return nil;
    }
    let mut maximal_keypoints: Vec<T> = vec![];
    let len = vec.len();
    let mut i: usize = 1;
    proof {
        lemma_nms_pass_multiset(old(vec)@, 1);
    }
    while i + 1 < len
        invariant
            len == vec@.len(),
            len >= 1,
            1 <= i,
            i + 1 <= len || i == 1,
            vec@.to_multiset() == old(vec)@.to_multiset(),
            nms_pass(old(vec)@, 1) == nms_pass(vec@, i as int),
            forall|a: int, b: int|
                0 <= a < len && 0 <= b < len ==> #[trigger] vec@[a].dist_req(&vec@[b]),
        decreases len - i,
    {
        let mut min_dist: usize = usize::MAX;
        let mut min_idx: usize = 0;
        let mut j: usize = 0;
        while j < i
            invariant
                len == vec@.len(),
                1 <= i && i + 1 < len,
                0 <= j <= i,
                min_idx < i || min_idx == 0,
                forall|a: int, b: int|
                    0 <= a < len && 0 <= b < len ==> #[trigger] vec@[a].dist_req(&vec@[b]),
                nms_best(vec@, i as int, 0, usize::MAX as int, 0) == nms_best(
                    vec@,
                    i as int,
                    j as int,
                    min_dist as int,
                    min_idx as int,
                ),
            decreases i - j,
        {
            let dist = vec[j].distance(&vec[i]);
            if dist < min_dist {
                min_dist = dist;
                min_idx = j;
            }
            j += 1;
        }
        let ghost pre = vec@;
        let a = vec[i];
        let b = vec[min_idx];
        vec.set(i, b);
        vec.set(min_idx, a);
        proof {
            assert(vec@ =~= seq_swap(pre, i as int, min_idx as int));
            lemma_swap_multiset(pre, i as int, min_idx as int);
            assert(forall|a: int, b: int|
                0 <= a < len && 0 <= b < len ==> #[trigger] vec@[a].dist_req(&vec@[b])) by {
                assert(forall|k: int|
                    0 <= k < len ==> exists|k2: int|
                        0 <= k2 < len && #[trigger] vec@[k] == pre[k2]);
            }
        }
        i += 1;
    }
    proof {
        assert(nms_pass(vec@, i as int) == vec@);
    }
    let mut k: usize = 0;
    while k < n
        invariant
            n <= len,
            len == vec@.len(),
            0 <= k <= n,
            maximal_keypoints@ == vec@.subrange(0, k as int),
        decreases n - k,
    {
        maximal_keypoints.push(vec[k]);
        proof {
            assert(maximal_keypoints@ =~= vec@.subrange(0, k as int + 1));
        }
        k += 1;
    }
    proof {
        if n == len {
            assert(vec@.subrange(0, n as int) =~= vec@);
        }
    }
    maximal_keypoints
}

} // verus!
