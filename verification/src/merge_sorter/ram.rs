//! In-memory merge sort.
//!
//! The sequential path is a top-down merge sort; the parallel path mirrors
//! it but may offload the left half of each split to the worker pool while
//! the right half is sorted inline, falling back to the sequential path for
//! a whole subtree once no worker is free.  The merge favours the left run
//! on ties, which makes the sort stable.

use crate::thread_pool::ThreadPool;
use vstd::prelude::*;

verus! {

broadcast use vstd::seq_lib::group_to_multiset_ensures;

/// A sequence is in non-decreasing order: every pair of positions, and in
/// particular every adjacent pair, is ordered.
pub open spec fn sorted(s: Seq<u32>) -> bool {
    forall|i: int, j: int| 0 <= i < j < s.len() ==> s[i] <= s[j]
}

/// Mathematical merge of two runs: repeatedly take the smaller head,
/// favouring the left run on ties.
pub open spec fn merge_seqs(left: Seq<u32>, right: Seq<u32>) -> Seq<u32>
    decreases left.len(), right.len(),
{
    if left.len() == 0 {
        right
    } else if right.len() == 0 {
        left
    } else if left[0] <= right[0] {
        seq![left[0]] + merge_seqs(left.drop_first(), right)
    } else {
        seq![right[0]] + merge_seqs(left, right.drop_first())
    }
}

/// Merging never loses or invents a record: the result carries exactly the
/// records of both runs.
pub proof fn lemma_merge_seqs_multiset(left: Seq<u32>, right: Seq<u32>)
    ensures
        merge_seqs(left, right).len() == left.len() + right.len(),
        merge_seqs(left, right).to_multiset() == left.to_multiset().add(right.to_multiset()),
    decreases left.len(), right.len(),
{
    vstd::seq_lib::lemma_multiset_commutative(left, right);
    if left.len() == 0 {
        assert(left + right =~= right);
    } else if right.len() == 0 {
        assert(left + right =~= left);
    } else if left[0] <= right[0] {
        lemma_merge_seqs_multiset(left.drop_first(), right);
        vstd::seq_lib::lemma_multiset_commutative(seq![left[0]], merge_seqs(left.drop_first(), right));
        vstd::seq_lib::lemma_multiset_commutative(left.drop_first(), right);
        assert(seq![left[0]].to_multiset() =~= Seq::<u32>::empty().push(left[0]).to_multiset());
        assert(left =~= seq![left[0]] + left.drop_first());
        vstd::seq_lib::lemma_multiset_commutative(seq![left[0]], left.drop_first());
        assert(merge_seqs(left, right).to_multiset() =~= left.to_multiset().add(
            right.to_multiset(),
        ));
    } else {
        lemma_merge_seqs_multiset(left, right.drop_first());
        vstd::seq_lib::lemma_multiset_commutative(seq![right[0]], merge_seqs(left, right.drop_first()));
        vstd::seq_lib::lemma_multiset_commutative(left, right.drop_first());
        assert(right =~= seq![right[0]] + right.drop_first());
        vstd::seq_lib::lemma_multiset_commutative(seq![right[0]], right.drop_first());
        assert(merge_seqs(left, right).to_multiset() =~= left.to_multiset().add(
            right.to_multiset(),
        ));
    }
}

/// Merging two sorted runs yields a sorted run.
pub proof fn lemma_merge_seqs_sorted(left: Seq<u32>, right: Seq<u32>)
    requires
        sorted(left),
        sorted(right),
    ensures
        sorted(merge_seqs(left, right)),
    decreases left.len(), right.len(),
{
    if left.len() == 0 || right.len() == 0 {
    } else if left[0] <= right[0] {
        let rest = merge_seqs(left.drop_first(), right);
        lemma_merge_seqs_sorted(left.drop_first(), right);
        lemma_merge_seqs_multiset(left.drop_first(), right);
        vstd::seq_lib::lemma_multiset_commutative(left.drop_first(), right);
        assert forall|k: int| 0 <= k < rest.len() implies left[0] <= rest[k] by {
            assert(rest.to_multiset().contains(rest[k]));
            assert((left.drop_first() + right).to_multiset().contains(rest[k]));
            assert((left.drop_first() + right).contains(rest[k]));
            let w = choose|w: int|
                0 <= w < (left.drop_first() + right).len() && (left.drop_first() + right)[w]
                    == rest[k];
            if w < left.drop_first().len() {
                assert(left[0] <= left[w + 1]);
            } else {
                assert(left[0] <= right[0] <= right[w - left.drop_first().len()]);
            }
        }
        let m = merge_seqs(left, right);
        assert(m == seq![left[0]] + rest);
        assert forall|i: int, j: int| 0 <= i < j < m.len() implies m[i] <= m[j] by {
            if i == 0 {
                assert(m[j] == rest[j - 1]);
            } else {
                assert(m[i] == rest[i - 1] && m[j] == rest[j - 1]);
            }
        }
    } else {
        let rest = merge_seqs(left, right.drop_first());
        lemma_merge_seqs_sorted(left, right.drop_first());
        lemma_merge_seqs_multiset(left, right.drop_first());
        vstd::seq_lib::lemma_multiset_commutative(left, right.drop_first());
        assert forall|k: int| 0 <= k < rest.len() implies right[0] <= rest[k] by {
            assert(rest.to_multiset().contains(rest[k]));
            assert((left + right.drop_first()).contains(rest[k]));
            let w = choose|w: int|
                0 <= w < (left + right.drop_first()).len() && (left + right.drop_first())[w]
                    == rest[k];
            if w < left.len() {
                assert(right[0] < left[0] <= left[w]);
            } else {
                assert(right[0] <= right[w - left.len() + 1]);
            }
        }
        let m = merge_seqs(left, right);
        assert(m == seq![right[0]] + rest);
        assert forall|i: int, j: int| 0 <= i < j < m.len() implies m[i] <= m[j] by {
            if i == 0 {
                assert(m[j] == rest[j - 1]);
            } else {
                assert(m[i] == rest[i - 1] && m[j] == rest[j - 1]);
            }
        }
    }
}

/// A sorted run is determined by its records: two sorted runs made of the
/// same records are the same run.
pub proof fn lemma_sorted_unique(a: Seq<u32>, b: Seq<u32>)
    requires
        sorted(a),
        sorted(b),
        a.to_multiset() == b.to_multiset(),
    ensures
        a == b,
    decreases a.len(),
{
    vstd::seq_lib::to_multiset_len(a);
    vstd::seq_lib::to_multiset_len(b);
    if a.len() == 0 {
        assert(b.to_multiset().len() == 0);
        assert(a =~= b);
    } else {
        assert(b.len() == a.len());
        assert(a.to_multiset().contains(a[0]));
        assert(b.to_multiset().contains(a[0]));
        assert(b.contains(a[0]));
        let i = choose|i: int| 0 <= i < b.len() && b[i] == a[0];
        assert(b[0] <= a[0]);
        assert(a.contains(b[0])) by {
            assert(b.to_multiset().contains(b[0]));
            assert(a.to_multiset().contains(b[0]));
        }
        let j = choose|j: int| 0 <= j < a.len() && a[j] == b[0];
        assert(a[0] <= b[0]);
        assert(a[0] == b[0]);
        assert(a.remove(0).to_multiset() == a.to_multiset().remove(a[0]));
        assert(b.remove(0).to_multiset() == b.to_multiset().remove(b[0]));
        assert(a.remove(0) =~= a.drop_first());
        assert(b.remove(0) =~= b.drop_first());
        assert(sorted(a.drop_first()));
        assert(sorted(b.drop_first()));
        lemma_sorted_unique(a.drop_first(), b.drop_first());
        assert forall|k: int| 0 <= k < a.len() implies a[k] == b[k] by {
            if k > 0 {
                assert(a[k] == a.drop_first()[k - 1]);
                assert(b[k] == b.drop_first()[k - 1]);
            }
        }
        assert(a =~= b);
    }
}

proof fn lemma_merge_seqs_step_left(l: Seq<u32>, r: Seq<u32>, lp: int, rp: int)
    requires
        0 <= lp < l.len(),
        0 <= rp <= r.len(),
        rp < r.len() ==> l[lp] <= r[rp],
    ensures
        merge_seqs(l.skip(lp), r.skip(rp)) == seq![l[lp]] + merge_seqs(l.skip(lp + 1), r.skip(rp)),
{
    let ls = l.skip(lp);
    let rs = r.skip(rp);
    assert(ls.len() > 0);
    assert(ls[0] == l[lp]);
    assert(ls.drop_first() =~= l.skip(lp + 1));
    if rs.len() == 0 {
        assert(merge_seqs(ls, rs) == ls);
        if l.skip(lp + 1).len() == 0 {
            assert(merge_seqs(l.skip(lp + 1), rs) == rs);
            assert(ls =~= seq![l[lp]] + rs);
        } else {
            assert(merge_seqs(l.skip(lp + 1), rs) == l.skip(lp + 1));
            assert(ls =~= seq![l[lp]] + l.skip(lp + 1));
        }
    } else {
        assert(ls[0] <= rs[0]);
        assert(merge_seqs(ls, rs) == seq![ls[0]] + merge_seqs(ls.drop_first(), rs));
    }
}

proof fn lemma_merge_seqs_step_right(l: Seq<u32>, r: Seq<u32>, lp: int, rp: int)
    requires
        0 <= lp <= l.len(),
        0 <= rp < r.len(),
        lp < l.len() ==> !(l[lp] <= r[rp]),
    ensures
        merge_seqs(l.skip(lp), r.skip(rp)) == seq![r[rp]] + merge_seqs(l.skip(lp), r.skip(rp + 1)),
{
    let ls = l.skip(lp);
    let rs = r.skip(rp);
    assert(rs.len() > 0);
    assert(rs[0] == r[rp]);
    assert(rs.drop_first() =~= r.skip(rp + 1));
    if ls.len() == 0 {
        assert(merge_seqs(ls, rs) == rs);
        assert(merge_seqs(ls, r.skip(rp + 1)) == r.skip(rp + 1));
        assert(rs =~= seq![r[rp]] + r.skip(rp + 1));
    } else {
        assert(!(ls[0] <= rs[0]));
        assert(merge_seqs(ls, rs) == seq![rs[0]] + merge_seqs(ls, rs.drop_first()));
    }
}

/// Merges two runs into one: the smaller current head is taken at each step
/// and ties favour the left run.  On sorted runs the result is sorted; in
/// every case the result carries exactly the records of both runs.
pub fn merge(left: &[u32], right: &[u32]) -> (merged: Vec<u32>)
    requires
        left@.len() + right@.len() <= usize::MAX,
    ensures
        merged@ == merge_seqs(left@, right@),
        merged@.len() == left@.len() + right@.len(),
        merged@.to_multiset() == left@.to_multiset().add(right@.to_multiset()),
        sorted(left@) && sorted(right@) ==> sorted(merged@),
{
    let ghost l = left@;
    let ghost r = right@;
    let mut merged: Vec<u32> = Vec::with_capacity(left.len() + right.len());
    let mut left_pos: usize = 0;
    let mut right_pos: usize = 0;

    proof {
        assert(l.skip(0) =~= l);
        assert(r.skip(0) =~= r);
    }

    while left_pos < left.len() && right_pos < right.len()
        invariant
            left@ == l,
            right@ == r,
            left_pos <= l.len(),
            right_pos <= r.len(),
            merge_seqs(l, r) == merged@ + merge_seqs(
                l.skip(left_pos as int),
                r.skip(right_pos as int),
            ),
        decreases l.len() - left_pos + r.len() - right_pos,
    {
        if left[left_pos] <= right[right_pos] {
            proof {
                lemma_merge_seqs_step_left(l, r, left_pos as int, right_pos as int);
                assert(merged@ + merge_seqs(l.skip(left_pos as int), r.skip(right_pos as int))
                    =~= merged@.push(l[left_pos as int]) + merge_seqs(
                    l.skip(left_pos as int + 1),
                    r.skip(right_pos as int),
                ));
            }
            merged.push(left[left_pos]);
            left_pos = left_pos + 1;
        } else {
            proof {
                lemma_merge_seqs_step_right(l, r, left_pos as int, right_pos as int);
                assert(merged@ + merge_seqs(l.skip(left_pos as int), r.skip(right_pos as int))
                    =~= merged@.push(r[right_pos as int]) + merge_seqs(
                    l.skip(left_pos as int),
                    r.skip(right_pos as int + 1),
                ));
            }
            merged.push(right[right_pos]);
            right_pos = right_pos + 1;
        }
    }

    while left_pos < left.len()
        invariant
            left@ == l,
            right@ == r,
            left_pos <= l.len(),
            left_pos == l.len() || right_pos == r.len(),
            right_pos <= r.len(),
            merge_seqs(l, r) == merged@ + merge_seqs(
                l.skip(left_pos as int),
                r.skip(right_pos as int),
            ),
        decreases l.len() - left_pos,
    {
        proof {
            lemma_merge_seqs_step_left(l, r, left_pos as int, right_pos as int);
            assert(merged@ + merge_seqs(l.skip(left_pos as int), r.skip(right_pos as int))
                =~= merged@.push(l[left_pos as int]) + merge_seqs(
                l.skip(left_pos as int + 1),
                r.skip(right_pos as int),
            ));
        }
        merged.push(left[left_pos]);
        left_pos = left_pos + 1;
    }

    while right_pos < right.len()
        invariant
            left@ == l,
            right@ == r,
            left_pos == l.len(),
            right_pos <= r.len(),
            merge_seqs(l, r) == merged@ + merge_seqs(
                l.skip(left_pos as int),
                r.skip(right_pos as int),
            ),
        decreases r.len() - right_pos,
    {
        proof {
            lemma_merge_seqs_step_right(l, r, left_pos as int, right_pos as int);
            assert(merged@ + merge_seqs(l.skip(left_pos as int), r.skip(right_pos as int))
                =~= merged@.push(r[right_pos as int]) + merge_seqs(
                l.skip(left_pos as int),
                r.skip(right_pos as int + 1),
            ));
        }
        merged.push(right[right_pos]);
        right_pos = right_pos + 1;
    }

    proof {
        assert(l.skip(left_pos as int) =~= Seq::<u32>::empty());
        assert(r.skip(right_pos as int) =~= Seq::<u32>::empty());
        assert(merge_seqs(Seq::<u32>::empty(), Seq::<u32>::empty()) =~= Seq::<u32>::empty());
        assert(merged@ + Seq::<u32>::empty() =~= merged@);
        lemma_merge_seqs_multiset(l, r);
        if sorted(l) && sorted(r) {
            lemma_merge_seqs_sorted(l, r);
        }
    }
    merged
}

/// Sequential top-down merge sort: runs of length zero or one are already
/// sorted, a pair is ordered by one comparison, and longer runs are split
/// at the midpoint, sorted recursively, and merged.
pub fn merge_sort_seq(slice: &[u32]) -> (sorted_run: Vec<u32>)
    ensures
        sorted(sorted_run@),
        sorted_run@.to_multiset() == slice@.to_multiset(),
        sorted_run@.len() == slice@.len(),
    decreases slice@.len(),
{
    let n = slice.len();
    if n <= 1 {
        vstd::slice::slice_to_vec(slice)
    } else if n == 2 {
        if slice[0] > slice[1] {
            let swapped = vec![slice[1], slice[0]];
            proof {
                assert(slice@ =~= Seq::<u32>::empty().push(slice@[0]).push(slice@[1]));
                assert(swapped@ =~= Seq::<u32>::empty().push(slice@[1]).push(slice@[0]));
                assert(swapped@.to_multiset() =~= slice@.to_multiset());
            }
            swapped
        } else {
            vstd::slice::slice_to_vec(slice)
        }
    } else {
        let middle = n / 2;
        let left_sorted = merge_sort_seq(&slice[0..middle]);
        let right_sorted = merge_sort_seq(&slice[middle..n]);
        let merged = merge(left_sorted.as_slice(), right_sorted.as_slice());
        proof {
            let lsub = slice@.subrange(0, middle as int);
            let rsub = slice@.subrange(middle as int, n as int);
            assert(slice@ =~= lsub + rsub);
            vstd::seq_lib::lemma_multiset_commutative(lsub, rsub);
        }
        merged
    }
}

/// A run of tagged records, ordered by value: each pair holds the
/// record's value and the tag of the run it came from.
pub open spec fn sorted_tagged(s: Seq<(u32, u32)>) -> bool {
    forall|i: int, j: int| 0 <= i < j < s.len() ==> s[i].0 <= s[j].0
}

/// Tagged counterpart of [`merge_seqs`]: merges by the records' values and
/// favours the left run on ties, carrying each record's origin tag along.
pub open spec fn merge_tagged(left: Seq<(u32, u32)>, right: Seq<(u32, u32)>) -> Seq<(u32, u32)>
    decreases left.len(), right.len(),
{
    if left.len() == 0 {
        right
    } else if right.len() == 0 {
        left
    } else if left[0].0 <= right[0].0 {
        seq![left[0]] + merge_tagged(left.drop_first(), right)
    } else {
        seq![right[0]] + merge_tagged(left, right.drop_first())
    }
}

/// Among records of equal value, origin tags never decrease from left to
/// right in the run.
pub open spec fn stable_tags(m: Seq<(u32, u32)>) -> bool {
    forall|i: int, j: int| 0 <= i < j < m.len() && m[i].0 == m[j].0 ==> m[i].1 <= m[j].1
}

proof fn lemma_merge_tagged_multiset(left: Seq<(u32, u32)>, right: Seq<(u32, u32)>)
    ensures
        merge_tagged(left, right).len() == left.len() + right.len(),
        merge_tagged(left, right).to_multiset() == left.to_multiset().add(right.to_multiset()),
    decreases left.len(), right.len(),
{
    vstd::seq_lib::lemma_multiset_commutative(left, right);
    if left.len() == 0 {
        assert(left + right =~= right);
    } else if right.len() == 0 {
        assert(left + right =~= left);
    } else if left[0].0 <= right[0].0 {
        lemma_merge_tagged_multiset(left.drop_first(), right);
        vstd::seq_lib::lemma_multiset_commutative(
            seq![left[0]],
            merge_tagged(left.drop_first(), right),
        );
        vstd::seq_lib::lemma_multiset_commutative(left.drop_first(), right);
        assert(left =~= seq![left[0]] + left.drop_first());
        vstd::seq_lib::lemma_multiset_commutative(seq![left[0]], left.drop_first());
        assert(merge_tagged(left, right).to_multiset() =~= left.to_multiset().add(
            right.to_multiset(),
        ));
    } else {
        lemma_merge_tagged_multiset(left, right.drop_first());
        vstd::seq_lib::lemma_multiset_commutative(
            seq![right[0]],
            merge_tagged(left, right.drop_first()),
        );
        vstd::seq_lib::lemma_multiset_commutative(left, right.drop_first());
        assert(right =~= seq![right[0]] + right.drop_first());
        vstd::seq_lib::lemma_multiset_commutative(seq![right[0]], right.drop_first());
        assert(merge_tagged(left, right).to_multiset() =~= left.to_multiset().add(
            right.to_multiset(),
        ));
    }
}

/// Forgetting the origin tags of the tagged merge gives exactly the merge
/// of the runs' values, so what is proved of the tagged merge speaks of
/// [`merge`]'s output.
pub proof fn lemma_merge_tagged_erases(left: Seq<(u32, u32)>, right: Seq<(u32, u32)>)
    ensures
        merge_tagged(left, right).map_values(|p: (u32, u32)| p.0) == merge_seqs(
            left.map_values(|p: (u32, u32)| p.0),
            right.map_values(|p: (u32, u32)| p.0),
        ),
    decreases left.len(), right.len(),
{
    let f = |p: (u32, u32)| p.0;
    if left.len() == 0 {
        assert(left.map_values(f).len() == 0);
        assert(merge_seqs(left.map_values(f), right.map_values(f)) == right.map_values(f));
    } else if right.len() == 0 {
        assert(right.map_values(f).len() == 0);
        assert(left.map_values(f).len() > 0);
        assert(merge_seqs(left.map_values(f), right.map_values(f)) == left.map_values(f));
    } else if left[0].0 <= right[0].0 {
        lemma_merge_tagged_erases(left.drop_first(), right);
        assert(left.drop_first().map_values(f) =~= left.map_values(f).drop_first());
        assert(left.map_values(f)[0] == left[0].0);
        assert(right.map_values(f)[0] == right[0].0);
        assert(merge_seqs(left.map_values(f), right.map_values(f)) == seq![left[0].0]
            + merge_seqs(left.map_values(f).drop_first(), right.map_values(f)));
        assert((seq![left[0]] + merge_tagged(left.drop_first(), right)).map_values(f)
            =~= seq![left[0].0] + merge_tagged(left.drop_first(), right).map_values(f));
    } else {
        lemma_merge_tagged_erases(left, right.drop_first());
        assert(right.drop_first().map_values(f) =~= right.map_values(f).drop_first());
        assert(left.map_values(f)[0] == left[0].0);
        assert(right.map_values(f)[0] == right[0].0);
        assert(merge_seqs(left.map_values(f), right.map_values(f)) == seq![right[0].0]
            + merge_seqs(left.map_values(f), right.map_values(f).drop_first()));
        assert((seq![right[0]] + merge_tagged(left, right.drop_first())).map_values(f)
            =~= seq![right[0].0] + merge_tagged(left, right.drop_first()).map_values(f));
    }
}

/// Merge stability: merging two sorted runs, the left run tagged 0 and the
/// right run tagged 1, keeps every left-run record before every right-run
/// record of equal value.
pub proof fn lemma_merge_stable(left: Seq<(u32, u32)>, right: Seq<(u32, u32)>)
    requires
        sorted_tagged(left),
        sorted_tagged(right),
        forall|i: int| 0 <= i < left.len() ==> (#[trigger] left[i]).1 == 0,
        forall|i: int| 0 <= i < right.len() ==> (#[trigger] right[i]).1 == 1,
    ensures
        stable_tags(merge_tagged(left, right)),
    decreases left.len(), right.len(),
{
    broadcast use vstd::multiset::group_multiset_axioms;

    let m = merge_tagged(left, right);
    if left.len() == 0 {
        assert(m == right);
        assert forall|i: int, j: int|
            0 <= i < j < m.len() && m[i].0 == m[j].0 implies m[i].1 <= m[j].1 by {
            assert(m[i].1 == 1 && m[j].1 == 1);
        }
    } else if right.len() == 0 {
        assert(m == left);
        assert forall|i: int, j: int|
            0 <= i < j < m.len() && m[i].0 == m[j].0 implies m[i].1 <= m[j].1 by {
            assert(m[i].1 == 0 && m[j].1 == 0);
        }
    } else if left[0].0 <= right[0].0 {
        let rest = merge_tagged(left.drop_first(), right);
        lemma_merge_stable(left.drop_first(), right);
        assert(m == seq![left[0]] + rest);
        assert forall|i: int, j: int|
            0 <= i < j < m.len() && m[i].0 == m[j].0 implies m[i].1 <= m[j].1 by {
            if i == 0 {
                assert(m[0].1 == 0);
            } else {
                assert(m[i] == rest[i - 1] && m[j] == rest[j - 1]);
            }
        }
    } else {
        let rest = merge_tagged(left, right.drop_first());
        lemma_merge_stable(left, right.drop_first());
        lemma_merge_tagged_multiset(left, right.drop_first());
        assert(m == seq![right[0]] + rest);
        assert forall|i: int, j: int|
            0 <= i < j < m.len() && m[i].0 == m[j].0 implies m[i].1 <= m[j].1 by {
            if i == 0 {
                assert(m[0] == right[0]);
                let p = rest[j - 1];
                assert(m[j] == p);
                assert(rest.to_multiset().contains(p));
                assert(left.to_multiset().count(p) > 0 || right.drop_first().to_multiset().count(
                    p,
                ) > 0);
                if left.to_multiset().count(p) > 0 {
                    assert(left.contains(p));
                    let w = choose|w: int| 0 <= w < left.len() && left[w] == p;
                    assert(left[0].0 <= left[w].0);
                    assert(p.0 > right[0].0);
                } else {
                    assert(right.drop_first().contains(p));
                    let w = choose|w: int|
                        0 <= w < right.drop_first().len() && right.drop_first()[w] == p;
                    assert(right.drop_first()[w] == right[w + 1]);
                    assert(p.1 == 1);
                }
            } else {
                assert(m[i] == rest[i - 1] && m[j] == rest[j - 1]);
            }
        }
    }
}

/// Entry point of the in-memory sorter: a request for zero or one thread
/// runs purely sequentially and never creates a pool; otherwise a pool of
/// `threads_count` workers drives the parallel path.
pub fn merge_sort(slice: &[u32], threads_count: usize) -> (sorted_run: Vec<u32>)
    ensures
        sorted(sorted_run@),
        sorted_run@.to_multiset() == slice@.to_multiset(),
        sorted_run@.len() == slice@.len(),
{
    if threads_count <= 1 {
        merge_sort_seq(slice)
    } else {
        merge_sort_par(slice, threads_count)
    }
}

/// Parallel merge sort over a fresh pool of `threads_count` workers.  The
/// result is the same sorted run the sequential path produces; only the
/// scheduling differs.
pub fn merge_sort_par(slice: &[u32], threads_count: usize) -> (sorted_run: Vec<u32>)
    requires
        threads_count >= 1,
    ensures
        sorted(sorted_run@),
        sorted_run@.to_multiset() == slice@.to_multiset(),
        sorted_run@.len() == slice@.len(),
{
    let mut pool = ThreadPool::new(threads_count);
    merge_sort_par_helper_from_pool(slice, &mut pool)
}

/// Admission-controlled recursion step: offload through the pool while a
/// worker is free, and fall back to the sequential sorter for the entire
/// remaining subtree once none is.
pub fn merge_sort_par_helper_from_pool(slice: &[u32], pool: &mut ThreadPool) -> (sorted_run: Vec<
    u32,
>)
    requires
        old(pool).wf(),
    ensures
        final(pool).wf(),
        final(pool).spec_size() == old(pool).spec_size(),
        final(pool).spec_available() == old(pool).spec_available(),
        sorted(sorted_run@),
        sorted_run@.to_multiset() == slice@.to_multiset(),
        sorted_run@.len() == slice@.len(),
    decreases slice@.len(), 1int,
{
    if pool.is_available() {
        merge_sort_par_helper_unchecked(slice, pool)
    } else {
        merge_sort_seq(slice)
    }
}

/// One split whose left half is charged to a reserved worker while the
/// right half is sorted inline; the worker is released once both halves
/// have been joined.
fn merge_sort_par_helper_unchecked(slice: &[u32], pool: &mut ThreadPool) -> (sorted_run: Vec<u32>)
    requires
        old(pool).wf(),
        old(pool).spec_available() > 0,
    ensures
        final(pool).wf(),
        final(pool).spec_size() == old(pool).spec_size(),
        final(pool).spec_available() == old(pool).spec_available(),
        sorted(sorted_run@),
        sorted_run@.to_multiset() == slice@.to_multiset(),
        sorted_run@.len() == slice@.len(),
    decreases slice@.len(), 0int,
{
    let n = slice.len();
    if n <= 1 {
        vstd::slice::slice_to_vec(slice)
    } else if n == 2 {
        if slice[0] > slice[1] {
            let swapped = vec![slice[1], slice[0]];
            proof {
                assert(slice@ =~= Seq::<u32>::empty().push(slice@[0]).push(slice@[1]));
                assert(swapped@ =~= Seq::<u32>::empty().push(slice@[1]).push(slice@[0]));
                assert(swapped@.to_multiset() =~= slice@.to_multiset());
            }
            swapped
        } else {
            vstd::slice::slice_to_vec(slice)
        }
    } else {
        let middle = n / 2;
        let reserved = pool.try_reserve();
        proof {
            // A worker was free when this step was admitted, so the
            // reservation for the left half cannot fail.
            assert(reserved);
        }
        let left_sorted = merge_sort_par_helper_from_pool(&slice[0..middle], pool);
        let right_sorted = merge_sort_par_helper_from_pool(&slice[middle..n], pool);
        pool.release();
        let merged = merge(left_sorted.as_slice(), right_sorted.as_slice());
        proof {
            let lsub = slice@.subrange(0, middle as int);
            let rsub = slice@.subrange(middle as int, n as int);
            assert(slice@ =~= lsub + rsub);
            vstd::seq_lib::lemma_multiset_commutative(lsub, rsub);
        }
        merged
    }
}

} // verus!
