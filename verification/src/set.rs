//! A fixed-capacity set of non-overlapping, non-touching inclusive ranges,
//! kept sorted by start. Insertion merges with every entry the new range
//! overlaps or touches; removal trims, deletes or splits the entries it
//! overlaps.

use vstd::prelude::*;

use crate::model::entry_contains;
use crate::model::seq_covers;
use crate::model::seq_size;
use crate::model::seq_wf;
use crate::model::split_degenerate;
use crate::model::split_pieces;
use crate::range::Error;
use crate::range::Range;

verus! {

/// The union of `r` and an absorbed run of entries it touches is a single
/// contiguous block: every point of the merged bounds `[ms, me]` is covered
/// by `r` or by one of the absorbed entries.
proof fn lemma_merged_contiguous(s: Seq<Range>, r: Range, lo: int, hi: int, ms: usize, me: usize)
    requires
        seq_wf(s),
        r.wf(),
        0 <= lo <= hi <= s.len(),
        hi == lo ==> ms == r.start && me == r.end,
        hi > lo ==> ms == (if s[lo].start < r.start {
            s[lo].start
        } else {
            r.start
        }),
        hi > lo ==> me == (if s[hi - 1].end > r.end {
            s[hi - 1].end
        } else {
            r.end
        }),
        forall|j: int| lo <= j < hi ==> crate::model::touches(r, #[trigger] s[j]),
    ensures
        forall|p: int|
            ms <= p <= me ==> (r.covers(p) || (exists|j: int|
                lo <= j < hi && (#[trigger] s[j]).covers(p))),
{
    assert forall|p: int|
        ms <= p <= me implies (r.covers(p) || (exists|j: int|
            lo <= j < hi && (#[trigger] s[j]).covers(p))) by {
        if !r.covers(p) {
            if p < r.start {
                assert(hi > lo && ms == s[lo].start);
                assert(crate::model::touches(r, s[lo]));
                assert(s[lo].covers(p));
            } else {
                assert(p > r.end);
                assert(hi > lo && me == s[hi - 1].end);
                assert(crate::model::touches(r, s[hi - 1]));
                assert(s[hi - 1].covers(p));
            }
        }
    }
}

/// The commit step of [`RangeSet::insert`]: replacing the absorbed run
/// `[lo, hi)` by the single merged range `[ms, me]` keeps the sequence well
/// formed.
proof fn lemma_insert_commit_shape(s: Seq<Range>, r: Range, lo: int, hi: int, ms: usize, me: usize)
    requires
        seq_wf(s),
        r.wf(),
        0 <= lo <= hi <= s.len(),
        ms <= r.start && me >= r.end,
        forall|j: int| 0 <= j < lo ==> (#[trigger] s[j]).end + 1 < r.start,
        hi == lo ==> ms == r.start,
        hi > lo ==> ms == (if s[lo].start < r.start {
            s[lo].start
        } else {
            r.start
        }),
        hi < s.len() ==> s[hi].start > me + 1,
    ensures
        seq_wf(
            s.subrange(0, lo) + seq![Range { start: ms, end: me }] + s.subrange(
                hi,
                s.len() as int,
            ),
        ),
{
    let merged = Range { start: ms, end: me };
    let a = s.subrange(0, lo);
    let b = s.subrange(hi, s.len() as int);
    crate::model::lemma_wf_subrange(s, 0, lo);
    crate::model::lemma_wf_subrange(s, hi, s.len() as int);
    crate::model::lemma_wf_ordered(s);
    assert(a.len() > 0 ==> a.last() == s[lo - 1]);
    assert(b.len() > 0 ==> b.first() == s[hi]);
    assert(a.len() > 0 ==> a.last().end + 1 < merged.start) by {
        if a.len() > 0 && hi > lo && s[lo].start < r.start {
            assert(s[lo - 1].end + 1 < s[lo].start);
        }
    }
    crate::model::lemma_wf_three_parts(a, merged, b);
}

/// The commit step of [`RangeSet::insert`], seen through the covered points:
/// afterwards they are the old ones plus those of the inserted range.
#[verifier::rlimit(100)]
proof fn lemma_insert_commit_covers(
    s: Seq<Range>,
    r: Range,
    lo: int,
    hi: int,
    ms: usize,
    me: usize,
)
    requires
        seq_wf(s),
        r.wf(),
        0 <= lo <= hi <= s.len(),
        ms <= r.start && me >= r.end,
        forall|j: int| lo <= j < hi ==> ms <= (#[trigger] s[j]).start && s[j].end <= me,
        forall|p: int|
            ms <= p <= me ==> (r.covers(p) || (exists|j: int|
                lo <= j < hi && (#[trigger] s[j]).covers(p))),
    ensures
        forall|p: int|
            seq_covers(
                s.subrange(0, lo) + seq![Range { start: ms, end: me }] + s.subrange(
                    hi,
                    s.len() as int,
                ),
                p,
            ) <==> (seq_covers(s, p) || r.covers(p)),
{
    let merged = Range { start: ms, end: me };
    let t = s.subrange(0, lo) + seq![merged] + s.subrange(hi, s.len() as int);
    assert(t.len() == lo + 1 + (s.len() - hi));
    assert forall|j: int| 0 <= j < t.len() implies (#[trigger] t[j]) == (if j < lo {
        s[j]
    } else if j == lo {
        merged
    } else {
        s[hi + j - lo - 1]
    }) by {}
    assert forall|p: int| seq_covers(t, p) implies (seq_covers(s, p) || r.covers(p)) by {
        let k = choose|k: int| 0 <= k < t.len() && (#[trigger] t[k]).covers(p);
        if k < lo {
            assert(s[k].covers(p));
        } else if k == lo {
            assert(ms <= p <= me);
        } else {
            assert(s[hi + k - lo - 1].covers(p));
        }
    }
    assert forall|p: int| (seq_covers(s, p) || r.covers(p)) implies seq_covers(t, p) by {
        if r.covers(p) {
            assert(merged.covers(p));
            assert(t[lo].covers(p));
        } else {
            let m = choose|m: int| 0 <= m < s.len() && (#[trigger] s[m]).covers(p);
            if m < lo {
                assert(t[m].covers(p));
            } else if m < hi {
                assert(merged.covers(p));
                assert(t[lo].covers(p));
            } else {
                assert(t[lo + 1 + m - hi].covers(p));
            }
        }
    }
}

/// One scan step of [`RangeSet::remove`] over an entry the removal range
/// does not meet: the entry is kept unchanged.
proof fn lemma_branch_keep(prev: Seq<Range>, idx: int, s: Seq<Range>, k: int, r: Range)
    requires
        r.wf(),
        0 <= idx < prev.len(),
        0 <= k < s.len(),
        prev[idx] == s[k],
        crate::model::carved(prev.subrange(0, idx), s, k, r),
        forall|p: int| !((#[trigger] s[k].covers(p)) && r.covers(p)),
    ensures
        crate::model::carved(prev.subrange(0, idx + 1), s, k + 1, r),
        !(s[k].start < r.start && r.end < s[k].end),
{
    let pr_old = prev.subrange(0, idx);
    let pr_new = prev.subrange(0, idx + 1);
    assert(pr_new =~= pr_old.push(s[k]));
    assert forall|p: int| #[trigger] s[k].covers(p) <==> (s[k].covers(p) && !r.covers(p)) by {}
    crate::model::lemma_remove_invariant_push(pr_old, pr_new, s, k, r, s[k]);
    if s[k].start < r.start && r.end < s[k].end {
        assert(s[k].covers(r.start as int) && r.covers(r.start as int));
    }
}

/// One scan step of [`RangeSet::remove`] over an entry that lies completely
/// inside the removal range: the entry is deleted.
proof fn lemma_branch_delete(prev: Seq<Range>, cur: Seq<Range>, idx: int, s: Seq<Range>, k: int, r: Range)
    requires
        0 <= idx < prev.len(),
        0 <= k < s.len(),
        cur == prev.remove(idx),
        prev.len() - idx == s.len() - k,
        forall|j: int| k <= j < s.len() ==> prev[idx + j - k] == (#[trigger] s[j]),
        crate::model::carved(prev.subrange(0, idx), s, k, r),
        forall|p: int| (#[trigger] s[k].covers(p)) ==> r.covers(p),
    ensures
        crate::model::carved(cur.subrange(0, idx), s, k + 1, r),
        cur.len() - idx == s.len() - (k + 1),
        forall|j: int| k + 1 <= j < s.len() ==> cur[idx + j - (k + 1)] == (#[trigger] s[j]),
{
    let pr = prev.subrange(0, idx);
    assert(cur.subrange(0, idx) =~= pr);
    crate::model::lemma_remove_invariant_skip(pr, s, k, r);
    assert(crate::model::carved(cur.subrange(0, idx), s, k + 1, r));
    assert forall|j: int| k + 1 <= j < s.len() implies cur[idx + j - (k + 1)] == (
    #[trigger] s[j]) by {
        assert(cur[idx + j - (k + 1)] == prev[idx + j - k]);
    }
}

/// One scan step of [`RangeSet::remove`] over an entry whose low side lies in
/// the removal range: the entry's start is trimmed up past the range.
proof fn lemma_branch_trim_low(
    prev: Seq<Range>,
    cur: Seq<Range>,
    idx: int,
    s: Seq<Range>,
    k: int,
    r: Range,
    trimmed: Range,
)
    requires
        seq_wf(prev),
        r.wf(),
        0 <= idx < prev.len(),
        0 <= k < s.len(),
        prev[idx] == s[k],
        cur == prev.update(idx, trimmed),
        r.start <= s[k].start,
        s[k].start <= r.end,
        r.end < s[k].end,
        trimmed == (Range { start: (r.end + 1) as usize, end: s[k].end }),
        prev.len() - idx == s.len() - k,
        forall|j: int| k <= j < s.len() ==> prev[idx + j - k] == (#[trigger] s[j]),
        crate::model::carved(prev.subrange(0, idx), s, k, r),
    ensures
        seq_wf(cur),
        cur.len() == prev.len(),
        crate::model::carved(cur.subrange(0, idx + 1), s, k + 1, r),
        forall|j: int| k + 1 <= j < s.len() ==> cur[(idx + 1) + j - (k + 1)] == (#[trigger] s[j]),
{
    crate::model::lemma_wf_update_shrink(prev, idx, trimmed);
    let pr_old = prev.subrange(0, idx);
    let pr_new = cur.subrange(0, idx + 1);
    assert(pr_new =~= pr_old.push(trimmed));
    assert forall|p: int| #[trigger]
        trimmed.covers(p) <==> (s[k].covers(p) && !r.covers(p)) by {}
    crate::model::lemma_remove_invariant_push(pr_old, pr_new, s, k, r, trimmed);
    assert forall|j: int| k + 1 <= j < s.len() implies cur[(idx + 1) + j - (k + 1)] == (
    #[trigger] s[j]) by {
        assert(cur[(idx + 1) + j - (k + 1)] == prev[idx + j - k]);
    }
}

/// One scan step of [`RangeSet::remove`] over an entry whose high side lies
/// in the removal range: the entry's end is trimmed down before the range.
proof fn lemma_branch_trim_high(
    prev: Seq<Range>,
    cur: Seq<Range>,
    idx: int,
    s: Seq<Range>,
    k: int,
    r: Range,
    trimmed: Range,
)
    requires
        seq_wf(prev),
        r.wf(),
        0 <= idx < prev.len(),
        0 <= k < s.len(),
        prev[idx] == s[k],
        cur == prev.update(idx, trimmed),
        s[k].start < r.start,
        r.start <= s[k].end,
        s[k].end <= r.end,
        trimmed == (Range { start: s[k].start, end: (r.start - 1) as usize }),
        prev.len() - idx == s.len() - k,
        forall|j: int| k <= j < s.len() ==> prev[idx + j - k] == (#[trigger] s[j]),
        crate::model::carved(prev.subrange(0, idx), s, k, r),
    ensures
        seq_wf(cur),
        cur.len() == prev.len(),
        crate::model::carved(cur.subrange(0, idx + 1), s, k + 1, r),
        forall|j: int| k + 1 <= j < s.len() ==> cur[(idx + 1) + j - (k + 1)] == (#[trigger] s[j]),
{
    crate::model::lemma_wf_update_shrink(prev, idx, trimmed);
    let pr_old = prev.subrange(0, idx);
    let pr_new = cur.subrange(0, idx + 1);
    assert(pr_new =~= pr_old.push(trimmed));
    assert forall|p: int| #[trigger]
        trimmed.covers(p) <==> (s[k].covers(p) && !r.covers(p)) by {}
    crate::model::lemma_remove_invariant_push(pr_old, pr_new, s, k, r, trimmed);
    assert forall|j: int| k + 1 <= j < s.len() implies cur[(idx + 1) + j - (k + 1)] == (
    #[trigger] s[j]) by {
        assert(cur[(idx + 1) + j - (k + 1)] == prev[idx + j - k]);
    }
}

/// One scan step of [`RangeSet::remove`] over an entry that holds the
/// removal range strictly in its interior: the entry is split in two.
proof fn lemma_branch_split(
    prev: Seq<Range>,
    cur: Seq<Range>,
    idx: int,
    s: Seq<Range>,
    k: int,
    r: Range,
)
    requires
        r.wf(),
        0 <= idx < prev.len(),
        0 <= k < s.len(),
        prev[idx] == s[k],
        s[k].start < r.start,
        r.end < s[k].end,
        cur == crate::model::seq_split_at(prev, idx, r),
        prev.len() - idx == s.len() - k,
        forall|j: int| k <= j < s.len() ==> prev[idx + j - k] == (#[trigger] s[j]),
        crate::model::carved(prev.subrange(0, idx), s, k, r),
    ensures
        cur.len() == prev.len() + 1,
        crate::model::carved(cur.subrange(0, idx + 2), s, k + 1, r),
        forall|j: int| k + 1 <= j < s.len() ==> cur[(idx + 2) + j - (k + 1)] == (#[trigger] s[j]),
{
    let left = split_pieces(s[k], r).0;
    let right = split_pieces(s[k], r).1;
    let pr_old = prev.subrange(0, idx);
    let pr_new = cur.subrange(0, idx + 2);
    assert(pr_new =~= pr_old.push(left).push(right));
    assert forall|p: int|
        (#[trigger] left.covers(p) || right.covers(p)) <==> (s[k].covers(p) && !r.covers(p)) by {}
    crate::model::lemma_remove_invariant_push2(pr_old, pr_new, s, k, r, left, right);
    assert forall|j: int| k + 1 <= j < s.len() implies cur[(idx + 2) + j - (k + 1)] == (
    #[trigger] s[j]) by {
        assert(cur[(idx + 2) + j - (k + 1)] == prev[(idx + 1) + (j - k - 1)]);
        assert(prev[idx + j - k] == s[j]);
    }
}

/// A set of non-overlapping inclusive [`Range`]s, stored inline in an array
/// of `N` slots. The first `in_use` slots hold the entries; the slots beyond
/// are unspecified and never observed through the public contract.
#[derive(Clone, Copy, Debug)]
pub struct RangeSet<const N: usize> {
    /// Array of ranges in the set. Only the first `in_use` slots are
    /// meaningful; the contracts speak of those alone, through the view.
    pub ranges: [Range; N],
    /// Number of range entries in use.
    pub in_use: usize,
}

impl<const N: usize> View for RangeSet<N> {
    type V = Seq<Range>;

    /// The entries in use, as a sequence.
    open spec fn view(&self) -> Seq<Range> {
        Seq::new(self.in_use as nat, |i: int| self.ranges@[i])
    }
}

impl<const N: usize> RangeSet<N> {
    /// The structural invariant: the entry count fits the capacity and the
    /// entries are well formed, sorted, non-overlapping and non-touching.
    /// Established by [`RangeSet::new`] and preserved by every operation.
    pub open spec fn wf(self) -> bool {
        self.in_use <= N && seq_wf(self@)
    }

    /// Returns a new empty `RangeSet`.
    pub fn new() -> (r: Self)
        ensures
            r.wf(),
            r@ == Seq::<Range>::empty(),
            r.in_use == 0,
    {
        let r = RangeSet { ranges: [Range { start: 0, end: 0 }; N], in_use: 0 };
        proof {
            assert(r@ =~= Seq::<Range>::empty());
        }
        r
    }

    /// Checks whether there are range entries in use.
    pub fn is_empty(&self) -> (r: bool)
        ensures
            r == (self@.len() == 0),
    {
        self.in_use == 0
    }

    /// Returns all the used entries in a `RangeSet`, in ascending order.
    pub fn entries(&self) -> (r: &[Range])
        requires
            self.wf(),
        ensures
            r@ == self@,
    {
        let r = vstd::slice::slice_subrange(self.ranges.as_slice(), 0, self.in_use);
        proof {
            assert(r@ =~= self@);
        }
        r
    }

    /// Compute the number of points covered by this rangeset, i.e. the sum of
    /// `end - start + 1` over all entries. Returns `None` when that sum does
    /// not fit in `usize` (the tracked extents span more than the whole
    /// address space, e.g. after inserting `[0, usize::MAX]`).
    pub fn len(&self) -> (r: Option<usize>)
        requires
            self.wf(),
        ensures
            seq_size(self@) <= usize::MAX ==> r == Some(seq_size(self@) as usize),
            seq_size(self@) > usize::MAX ==> r is None,
    {
        let ghost s = self@;
        let mut acc: usize = 0;
        let mut i: usize = 0;
        while i < self.in_use
            invariant
                self.wf(),
                s == self@,
                i <= self.in_use,
                acc == seq_size(s.take(i as int)),
            decreases self.in_use - i,
        {
            proof {
                assert(s[i as int] == self.ranges@[i as int]);
                assert(s[i as int].wf());
            }
            let e = self.ranges[i];
            let diff = e.end - e.start;
            proof {
                assert(s.take(i + 1).drop_last() =~= s.take(i as int));
                assert(s.take(i + 1).last() == s[i as int]);
            }
            let sz = match diff.checked_add(1) {
                Some(sz) => sz,
                None => {
                    proof {
                        crate::model::lemma_size_take_le(s, i + 1);
                    }
                    return None;
                },
            };
            acc = match acc.checked_add(sz) {
                Some(a) => a,
                None => {
                    proof {
                        crate::model::lemma_size_take_le(s, i + 1);
                    }
                    return None;
                },
            };
            i += 1;
        }
        proof {
            assert(s.take(self.in_use as int) =~= s);
        }
        Some(acc)
    }

    /// Delete the range at `idx`, shifting the later entries left by one.
    /// Fails with [`Error::IndexOutOfBounds`] when `idx` is not in use, and
    /// then leaves the set unchanged.
    pub fn delete(&mut self, idx: usize) -> (r: Result<(), Error>)
        requires
            old(self).wf(),
        ensures
            final(self).wf(),
            idx < old(self)@.len() ==> r == Ok::<(), Error>(()) && final(self)@ == old(self)@.remove(
                idx as int),
            idx >= old(self)@.len() ==> r == Err::<(), Error>(Error::IndexOutOfBounds) && *final(
                self) == *old(self),
    {
        if idx >= self.in_use {
            return Err(Error::IndexOutOfBounds);
        }
        let mut i: usize = idx;
        while i + 1 < self.in_use
            invariant
                old(self).wf(),
                idx < old(self).in_use,
                self.in_use == old(self).in_use,
                idx <= i < self.in_use,
                forall|j: int| 0 <= j < idx ==> self.ranges@[j] == old(self).ranges@[j],
                forall|j: int| idx <= j < i ==> self.ranges@[j] == old(self).ranges@[j + 1],
                forall|j: int| i <= j < N ==> self.ranges@[j] == old(self).ranges@[j],
            decreases self.in_use - i,
        {
            let tmp = self.ranges[i + 1];
            self.ranges[i] = tmp;
            i += 1;
        }
        self.in_use = self.in_use - 1;
        proof {
            assert(self@ =~= old(self)@.remove(idx as int));
            crate::model::lemma_wf_remove(old(self)@, idx as int);
        }
        Ok(())
    }

    /// Split the entry at `idx` in two around `range` when the entry fully
    /// contains `range`: the entry is replaced by a left remainder ending
    /// just before `range` — collapsing to the single point `entry.start`
    /// when `range` starts exactly there — and a right remainder beginning
    /// just after `range`. Returns `Ok(true)` when the entry was split, and
    /// `Ok(false)` without mutation when the entry does not fully contain
    /// `range`. Fails, always without mutation, with
    /// [`Error::IndexOutOfBounds`] when `idx` is not in use, with
    /// [`Error::RangeSetOverflow`] when the set is full, and with
    /// [`Error::InvalidRange`] when no valid pair of remainders exists
    /// (`range` reaches the entry's end, or `range` is the single point at
    /// the entry's start).
    pub fn split_entry(&mut self, idx: usize, range: Range) -> (r: Result<bool, Error>)
        requires
            old(self).wf(),
            range.wf(),
        ensures
            final(self).wf(),
            idx >= old(self)@.len() ==> r == Err::<bool, Error>(Error::IndexOutOfBounds) && *final(
                self) == *old(self),
            idx < old(self)@.len() && old(self)@.len() >= N ==> r == Err::<bool, Error>(
                Error::RangeSetOverflow,
            ) && *final(self) == *old(self),
            idx < old(self)@.len() && old(self)@.len() < N && !entry_contains(
                old(self)@[idx as int],
                range,
            ) ==> r == Ok::<bool, Error>(false) && *final(self) == *old(self),
            idx < old(self)@.len() && old(self)@.len() < N && entry_contains(
                old(self)@[idx as int],
                range,
            ) && split_degenerate(old(self)@[idx as int], range) ==> r == Err::<bool, Error>(
                Error::InvalidRange,
            ) && *final(self) == *old(self),
            idx < old(self)@.len() && old(self)@.len() < N && entry_contains(
                old(self)@[idx as int],
                range,
            ) && !split_degenerate(old(self)@[idx as int], range) ==> r == Ok::<bool, Error>(true)
                && final(self)@ == crate::model::seq_split_at(old(self)@, idx as int, range),
            r == Ok::<bool, Error>(true) && old(self)@[idx as int].start < range.start ==> forall|
                p: int,
            |
                seq_covers(final(self)@, p) <==> (seq_covers(old(self)@, p) && !range.covers(p)),
    {
        let ghost s = old(self)@;
        if idx >= self.in_use {
            return Err(Error::IndexOutOfBounds);
        }
        if self.in_use >= N {
            return Err(Error::RangeSetOverflow);
        }
        let count = self.in_use;
        let entry = self.ranges[idx];
        proof {
            assert(entry == s[idx as int]);
            assert(entry.wf());
        }
        if !(entry.start <= range.start && entry.end >= range.end) {
            return Ok(false);
        }
        if range.end == entry.end {
            // The right remainder would be empty: the cut reaches the
            // entry's end and is no interior split.
            return Err(Error::InvalidRange);
        }
        if range.start == entry.start && range.end == entry.start {
            // The left remainder collapses to the very point the cut asks to
            // carve out and would touch the right remainder.
            return Err(Error::InvalidRange);
        }
        let left = if range.start > entry.start {
            Range { start: entry.start, end: range.start - 1 }
        } else {
            Range { start: entry.start, end: entry.start }
        };
        let right = Range { start: range.end + 1, end: entry.end };
        proof {
            assert(left == split_pieces(s[idx as int], range).0);
            assert(right == split_pieces(s[idx as int], range).1);
        }
        self.ranges[idx] = left;
        let mut k: usize = count;
        while k > idx + 1
            invariant
                idx < count < N,
                count == self.in_use,
                idx + 1 <= k <= count,
                self.ranges@.len() == N,
                forall|j: int| 0 <= j < idx ==> self.ranges@[j] == old(self).ranges@[j],
                self.ranges@[idx as int] == left,
                forall|j: int| idx < j <= k && j < N ==> self.ranges@[j] == old(self).ranges@[j],
                forall|j: int| k < j <= count ==> self.ranges@[j] == old(self).ranges@[j - 1],
            decreases k,
        {
            let tmp = self.ranges[k - 1];
            self.ranges[k] = tmp;
            k -= 1;
        }
        self.ranges[idx + 1] = right;
        self.in_use = count + 1;
        proof {
            assert(self@ =~= crate::model::seq_split_at(s, idx as int, range));
            crate::model::lemma_split_shape(s, idx as int, range);
            if s[idx as int].start < range.start {
                crate::model::lemma_split_covers(s, idx as int, range);
            }
        }
        Ok(true)
    }

    /// Count the entries that lie entirely before `range`, separated from
    /// it by a gap of at least one point: the scan of [`RangeSet::insert`]
    /// steps over exactly those.
    fn scan_before(&self, range: Range) -> (lo: usize)
        requires
            self.wf(),
            range.wf(),
        ensures
            lo <= self@.len(),
            forall|j: int| 0 <= j < lo ==> (#[trigger] self@[j]).end + 1 < range.start,
            lo < self@.len() ==> self@[lo as int].end + 1 >= range.start,
    {
        let count = self.in_use;
        let mut lo: usize = 0;
        while lo < count && range.start > 0 && self.ranges[lo].end < range.start - 1
            invariant
                self.wf(),
                count == self.in_use,
                lo <= count,
                forall|j: int| 0 <= j < lo ==> (#[trigger] self@[j]).end + 1 < range.start,
            decreases count - lo,
        {
            proof {
                assert(self.ranges@[lo as int] == self@[lo as int]);
            }
            lo += 1;
        }
        proof {
            assert(lo < count ==> self.ranges@[lo as int] == self@[lo as int]);
        }
        lo
    }

    /// Starting at `lo`, absorb every entry the growing range overlaps or
    /// touches: returns the index `hi` just past the absorbed run and the
    /// merged bounds `(ms, me)` of `range` together with that run.
    fn scan_absorb(&self, range: Range, lo: usize) -> (r: (usize, usize, usize))
        requires
            self.wf(),
            range.wf(),
            lo <= self@.len(),
            forall|j: int| 0 <= j < lo ==> (#[trigger] self@[j]).end + 1 < range.start,
            lo < self@.len() ==> self@[lo as int].end + 1 >= range.start,
        ensures
            lo <= r.0 <= self@.len(),
            r.1 <= range.start && r.2 >= range.end,
            r.0 == lo ==> r.1 == range.start && r.2 == range.end,
            r.0 > lo ==> r.1 == (if self@[lo as int].start < range.start {
                self@[lo as int].start
            } else {
                range.start
            }),
            r.0 > lo ==> r.2 == (if self@[r.0 - 1].end > range.end {
                self@[r.0 - 1].end
            } else {
                range.end
            }),
            forall|j: int| lo <= j < r.0 ==> r.1 <= (#[trigger] self@[j]).start && self@[j].end <= r.2,
            forall|j: int| lo <= j < r.0 ==> crate::model::touches(range, #[trigger] self@[j]),
            forall|j: int| 0 <= j < r.0 ==> range.end + 1 >= (#[trigger] self@[j]).start,
            forall|p: int|
                r.1 <= p <= r.2 ==> (range.covers(p) || (exists|j: int|
                    lo <= j < r.0 && (#[trigger] self@[j]).covers(p))),
            r.0 < self@.len() ==> self@[r.0 as int].start > r.2 + 1,
    {
        let ghost s = self@;
        let count = self.in_use;
        let mut hi: usize = lo;
        let mut ms: usize = range.start;
        let mut me: usize = range.end;
        while hi < count && (self.ranges[hi].start == 0 || self.ranges[hi].start - 1 <= me)
            invariant
                self.wf(),
                s == self@,
                range.wf(),
                count == self.in_use,
                lo <= hi <= count,
                lo < count ==> s[lo as int].end + 1 >= range.start,
                forall|j: int| 0 <= j < lo ==> (#[trigger] s[j]).end + 1 < range.start,
                ms <= range.start && me >= range.end,
                hi == lo ==> ms == range.start && me == range.end,
                hi > lo ==> ms == (if s[lo as int].start < range.start {
                    s[lo as int].start
                } else {
                    range.start
                }),
                hi > lo ==> me == (if s[hi - 1].end > range.end {
                    s[hi - 1].end
                } else {
                    range.end
                }),
                forall|j: int| lo <= j < hi ==> ms <= (#[trigger] s[j]).start && s[j].end <= me,
                forall|j: int| lo <= j < hi ==> crate::model::touches(range, #[trigger] s[j]),
                forall|j: int| 0 <= j < hi ==> range.end + 1 >= (#[trigger] s[j]).start,
            decreases count - hi,
        {
            let e = self.ranges[hi];
            proof {
                assert(e == s[hi as int]);
                crate::model::lemma_wf_ordered(s);
                assert(e.start <= me + 1);
            }
            let ghost old_ms = ms;
            let ghost old_me = me;
            if e.start < ms {
                ms = e.start;
            }
            if e.end > me {
                me = e.end;
            }
            proof {
                if hi > lo {
                    assert(s[lo as int].start < e.start);
                    assert(s[hi - 1].end < e.end);
                }
                assert(crate::model::touches(range, e)) by {
                    if hi > lo && old_me == s[hi - 1].end {
                        assert(s[hi - 1].end + 1 < s[hi as int].start);
                    }
                    if hi > lo {
                        assert(e.end > s[lo as int].end);
                    }
                }
            }
            hi += 1;
        }
        proof {
            assert(hi < count ==> self.ranges@[hi as int] == s[hi as int]);
            lemma_merged_contiguous(s, range, lo as int, hi as int, ms, me);
        }
        (hi, ms, me)
    }

    /// Replace the run of entries `[lo, hi)` by the single range `merged`,
    /// shifting the tail left to close the gap.
    fn splice_run(&mut self, lo: usize, hi: usize, merged: Range)
        requires
            old(self).in_use <= N,
            lo < hi <= old(self).in_use,
        ensures
            final(self).in_use == old(self).in_use - (hi - lo) + 1,
            final(self)@ == old(self)@.subrange(0, lo as int) + seq![merged] + old(
                self,
            )@.subrange(hi as int, old(self)@.len() as int),
    {
        let count = self.in_use;
        self.ranges[lo] = merged;
        let mut src: usize = hi;
        let mut dst: usize = lo + 1;
        while src < count
            invariant
                lo < hi <= count <= N,
                count == self.in_use,
                self.ranges@.len() == N,
                hi <= src <= count,
                dst == lo + 1 + (src - hi),
                forall|j: int| 0 <= j < lo ==> self.ranges@[j] == old(self).ranges@[j],
                self.ranges@[lo as int] == merged,
                forall|j: int|
                    lo < j < dst ==> self.ranges@[j] == old(self).ranges@[j + (hi - lo) - 1],
                forall|j: int| src <= j < N ==> self.ranges@[j] == old(self).ranges@[j],
            decreases count - src,
        {
            let tmp = self.ranges[src];
            self.ranges[dst] = tmp;
            src += 1;
            dst += 1;
        }
        self.in_use = count - (hi - lo) + 1;
        proof {
            assert(self@ =~= old(self)@.subrange(0, lo as int) + seq![merged] + old(
                self,
            )@.subrange(hi as int, old(self)@.len() as int));
        }
    }

    /// Open a slot at `lo` by shifting the tail right by one, and write
    /// `merged` into it.
    fn open_slot(&mut self, lo: usize, merged: Range)
        requires
            old(self).in_use < N,
            lo <= old(self).in_use,
        ensures
            final(self).in_use == old(self).in_use + 1,
            final(self)@ == old(self)@.subrange(0, lo as int) + seq![merged] + old(
                self,
            )@.subrange(lo as int, old(self)@.len() as int),
    {
        let count = self.in_use;
        let mut k: usize = count;
        while k > lo
            invariant
                lo <= k <= count < N,
                count == self.in_use,
                self.ranges@.len() == N,
                forall|j: int| 0 <= j <= k && j < N ==> self.ranges@[j] == old(self).ranges@[j],
                forall|j: int| k < j <= count ==> self.ranges@[j] == old(self).ranges@[j - 1],
            decreases k,
        {
            let tmp = self.ranges[k - 1];
            self.ranges[k] = tmp;
            k -= 1;
        }
        self.ranges[lo] = merged;
        self.in_use = count + 1;
        proof {
            assert(self@ =~= old(self)@.subrange(0, lo as int) + seq![merged] + old(
                self,
            )@.subrange(lo as int, old(self)@.len() as int));
        }
    }

    /// Insert a new range into the `RangeSet` while keeping it sorted.
    ///
    /// The new range is merged with every existing entry it overlaps or
    /// touches, so at most one new entry appears and the covered points
    /// afterwards are exactly the old ones plus those of `range`.
    ///
    /// Fails with [`Error::RangeSetOverflow`], leaving the set unchanged,
    /// when the left-to-right scan reaches an entry whose `end + 1` overflows
    /// (the last entry ends at `usize::MAX` and no entry before it stops the
    /// scan), or when the set is full and `range` merges with nothing.
    #[verifier::rlimit(80)]
    pub fn insert(&mut self, range: Range) -> (r: Result<(), Error>)
        requires
            old(self).wf(),
            range.wf(),
        ensures
            final(self).wf(),
            r == Ok::<(), Error>(()) <==> !crate::model::insert_rejected(
                old(self)@,
                range,
                N as int,
            ),
            r is Err ==> r == Err::<(), Error>(Error::RangeSetOverflow) && *final(self) == *old(
                self,
            ),
            r is Ok ==> forall|p: int|
                seq_covers(final(self)@, p) <==> (seq_covers(old(self)@, p) || range.covers(p)),
    {
        let ghost s = old(self)@;
        let count = self.in_use;
        proof {
            crate::model::lemma_wf_ordered(s);
        }
        let lo = self.scan_before(range);
        let (hi, ms, me) = self.scan_absorb(range, lo);
        // The merge scan computes `entry.end + 1` for every entry it visits
        // and fails when that addition overflows; only the last entry can end
        // at `usize::MAX`, and the scan reaches it exactly when no gap before
        // it stops the scan earlier.
        if count > 0 && self.ranges[count - 1].end == usize::MAX && hi >= count - 1 {
            proof {
                assert(self.ranges@[count - 1] == s[count - 1]);
                assert(s.last().end == usize::MAX);
                assert(crate::model::insert_scan_overflow(s, range));
            }
            return Err(Error::RangeSetOverflow);
        }
        proof {
            assert(self.ranges@[count - 1] == s[count - 1] || count == 0);
            if crate::model::insert_scan_overflow(s, range) {
                assert(s[count - 1].end == usize::MAX);
                assert(hi + 1 < count);
                assert(s[hi as int].start > me + 1);
                assert(range.end + 1 >= s[hi as int].start);
                assert(false);
            }
        }
        // Nothing merged and no free slot: the set would overflow.
        if hi == lo && count >= N {
            proof {
                assert forall|j: int| 0 <= j < s.len() implies !crate::model::touches(
                    range,
                    #[trigger] s[j],
                ) by {
                    if j >= lo {
                        assert(s[hi as int].start > me + 1);
                        if j > hi {
                            crate::model::lemma_wf_gap(s, hi as int, j);
                        }
                    }
                }
            }
            return Err(Error::RangeSetOverflow);
        }
        proof {
            if crate::model::insert_rejected(s, range, N as int) {
                assert(s.len() >= N && (forall|j: int|
                    0 <= j < s.len() ==> !crate::model::touches(range, #[trigger] s[j])));
                if hi > lo {
                    assert(crate::model::touches(range, s[lo as int]));
                }
                assert(false);
            }
        }
        let merged = Range { start: ms, end: me };
        if hi > lo {
            self.splice_run(lo, hi, merged);
        } else {
            self.open_slot(lo, merged);
        }
        proof {
            lemma_insert_commit_shape(s, range, lo as int, hi as int, ms, me);
            lemma_insert_commit_covers(s, range, lo as int, hi as int, ms, me);
            assert(self@ == s.subrange(0, lo as int) + seq![merged] + s.subrange(
                hi as int,
                count as int,
            ));
        }
        Ok(())
    }

    /// Remove a `range` from this `RangeSet`.
    ///
    /// Every entry overlapping `range` is trimmed; an entry completely
    /// contained in `range` is deleted; an entry holding `range` strictly in
    /// its interior is split in two. Afterwards the covered points are
    /// exactly the old ones without those of `range`. Returns `Ok(true)`
    /// when some entry was altered or removed, and `Ok(false)` when the call
    /// was a noop.
    ///
    /// Fails with [`Error::RangeSetOverflow`], leaving the set unchanged,
    /// exactly when the set is full and `range` lies strictly inside one
    /// entry, so that the split has no room for the extra fragment.
    #[verifier::rlimit(100)]
    pub fn remove(&mut self, range: Range) -> (r: Result<bool, Error>)
        requires
            old(self).wf(),
            range.wf(),
        ensures
            final(self).wf(),
            r is Ok <==> !crate::model::remove_rejected(old(self)@, range, N as int),
            r is Err ==> r == Err::<bool, Error>(Error::RangeSetOverflow) && *final(self) == *old(
                self,
            ),
            r is Ok ==> forall|p: int|
                seq_covers(final(self)@, p) <==> (seq_covers(old(self)@, p) && !range.covers(p)),
            r is Ok ==> (r == Ok::<bool, Error>(true) <==> exists|p: int|
                seq_covers(old(self)@, p) && range.covers(p)),
    {
        let ghost s = old(self)@;
        // A split is the one step that can fail, and only for want of a free
        // slot; check for it up front so that a failing call mutates nothing.
        if self.in_use >= N {
            let mut i: usize = 0;
            while i < self.in_use
                invariant
                    self.wf(),
                    range.wf(),
                    s == self@,
                    i <= self.in_use,
                    self.in_use >= N,
                    forall|j: int|
                        0 <= j < i ==> !((#[trigger] s[j]).start < range.start && range.end
                            < s[j].end),
                decreases self.in_use - i,
            {
                let e = self.ranges[i];
                proof {
                    assert(e == s[i as int]);
                }
                if e.start < range.start && range.end < e.end {
                    proof {
                        assert(crate::model::remove_rejected(s, range, N as int));
                    }
                    return Err(Error::RangeSetOverflow);
                }
                i += 1;
            }
        }
        proof {
            assert(!crate::model::remove_rejected(s, range, N as int));
        }
        let mut any_removed = false;
        let mut idx: usize = 0;
        let ghost mut k: int = 0;
        while idx < self.in_use
            invariant
                self.wf(),
                range.wf(),
                s == old(self)@,
                seq_wf(s),
                idx <= self.in_use,
                0 <= k <= s.len(),
                self@.len() - idx == s.len() - k,
                forall|j: int| k <= j < s.len() ==> self@[idx + j - k] == (#[trigger] s[j]),
                crate::model::carved(self@.subrange(0, idx as int), s, k, range),
                any_removed <==> crate::model::prefix_hits(s, k, range),
                !crate::model::remove_rejected(s, range, N as int),
                (exists|i: int|
                    0 <= i < k && (#[trigger] s[i]).start < range.start && range.end < s[i].end)
                    || k >= idx,
            decreases self.in_use - idx,
        {
            let ghost prev = *self;
            let entry = self.ranges[idx];
            proof {
                assert(self@[idx + k - k] == s[k]);
                assert(entry == self@[idx as int]);
                assert(entry == s[k]);
                assert(entry.wf());
                crate::model::lemma_removed_any_step(s, k, range);
                assert(crate::model::carved(prev@.subrange(0, idx as int), s, k, range));
            }
            if entry.overlaps(&range).is_none() {
                // No overlap: this entry keeps every point it had.
                proof {
                    assert forall|p: int| !((#[trigger] s[k].covers(p)) && range.covers(p)) by {
                        assert(!(entry.covers(p) && range.covers(p)));
                    }
                    lemma_branch_keep(prev@, idx as int, s, k, range);
                    assert(crate::model::carved(self@.subrange(0, idx + 1), s, k + 1, range));
                    k = k + 1;
                }
                idx += 1;
            } else {
                any_removed = true;
                proof {
                    let w = choose|p: int| entry.covers(p) && range.covers(p);
                    assert(s[k].covers(w) && range.covers(w));
                    assert(exists|p: int| (#[trigger] s[k].covers(p)) && range.covers(p));
                }
                if range.contains(&entry) {
                    // The entry lies completely inside the removal range.
                    let res = self.delete(idx);
                    proof {
                        assert(res == Ok::<(), Error>(()));
                        assert forall|p: int| (#[trigger] s[k].covers(p)) implies range.covers(
                            p,
                        ) by {
                            assert(entry.covers(p) ==> range.covers(p));
                        }
                        lemma_branch_delete(prev@, self@, idx as int, s, k, range);
                        k = k + 1;
                    }
                } else if range.start <= entry.start {
                    // Overlap at the entry's start: trim the start up.
                    let trimmed = Range { start: range.end + 1, end: entry.end };
                    self.ranges[idx] = trimmed;
                    proof {
                        assert(self@ =~= prev@.update(idx as int, trimmed));
                        lemma_branch_trim_low(prev@, self@, idx as int, s, k, range, trimmed);
                        k = k + 1;
                    }
                    idx += 1;
                } else if range.end >= entry.end {
                    // Overlap at the entry's end: trim the end down.
                    let trimmed = Range { start: entry.start, end: range.start - 1 };
                    self.ranges[idx] = trimmed;
                    proof {
                        assert(self@ =~= prev@.update(idx as int, trimmed));
                        lemma_branch_trim_high(prev@, self@, idx as int, s, k, range, trimmed);
                        k = k + 1;
                    }
                    idx += 1;
                } else {
                    // `range` lies strictly inside this entry: split it. The
                    // check up front rules the capacity failure out here.
                    proof {
                        assert(entry.start < range.start && range.end < entry.end);
                        assert(s.len() < N);
                        assert(self@.len() < N) by {
                            if exists|i: int|
                                0 <= i < k && (#[trigger] s[i]).start < range.start && range.end
                                    < s[i].end {
                                let i = choose|i: int|
                                    0 <= i < k && (#[trigger] s[i]).start < range.start
                                        && range.end < s[i].end;
                                assert(s[i].covers(range.start as int));
                                assert(s[k].covers(range.start as int));
                                crate::model::lemma_wf_gap(s, i, k);
                            }
                        }
                    }
                    let res = self.split_entry(idx, range);
                    match res {
                        Err(e) => {
                            proof {
                                assert(false);
                            }
                            return Err(Error::RangeSetOverflow);
                        },
                        Ok(did_split) => {
                            proof {
                                assert(did_split);
                                assert(self@ == crate::model::seq_split_at(
                                    prev@,
                                    idx as int,
                                    range,
                                ));
                                lemma_branch_split(prev@, self@, idx as int, s, k, range);
                                assert(s[k].start < range.start && range.end < s[k].end);
                                k = k + 1;
                            }
                            idx += 2;
                        },
                    }
                }
            }
        }
        proof {
            assert(k == s.len());
            assert(self@.subrange(0, idx as int) =~= self@);
            assert(crate::model::carved(self@, s, k, range));
            assert(s.subrange(0, k) =~= s);
            assert forall|p: int|
                seq_covers(self@, p) <==> (seq_covers(s, p) && !range.covers(p)) by {
                assert(seq_covers(self@, p) <==> (seq_covers(s.subrange(0, k), p) && !range.covers(
                    p,
                )));
            }
            if any_removed {
                let w = choose|p: int|
                    seq_covers(s.subrange(0, k), p) && (#[trigger] range.covers(p));
                assert(seq_covers(s, w) && range.covers(w));
            } else {
                if exists|p: int| seq_covers(s, p) && range.covers(p) {
                    let w = choose|p: int| seq_covers(s, p) && range.covers(p);
                    assert(seq_covers(s.subrange(0, k), w) && (#[trigger] range.covers(w)));
                    assert(crate::model::prefix_hits(s, k, range));
                }
            }
        }
        Ok(any_removed)
    }
}

} // verus!
