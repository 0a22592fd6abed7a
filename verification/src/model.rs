//! The mathematical model of a range set: a sequence of ranges read as a set
//! of covered points, together with the structural well-formedness predicate
//! and the lemmas that relate the two.

use vstd::prelude::*;

use crate::range::Range;

verus! {

/// Structural invariant of the entry sequence of a range set: every entry is
/// a well-formed range, and consecutive entries neither overlap nor touch
/// (a gap of at least one point separates them). This single condition also
/// forces the entries to be strictly sorted by their start.
pub open spec fn seq_wf(s: Seq<Range>) -> bool {
    &&& forall|i: int| 0 <= i < s.len() ==> (#[trigger] s[i]).wf()
    &&& forall|i: int| 0 <= i && i + 1 < s.len() ==> (#[trigger] s[i]).end + 1 < s[i + 1].start
}

/// The set-of-points reading of an entry sequence: is the point `p` covered
/// by some entry?
pub open spec fn seq_covers(s: Seq<Range>, p: int) -> bool {
    exists|i: int| 0 <= i < s.len() && (#[trigger] s[i]).covers(p)
}

/// The total number of points covered by the entries, as a mathematical
/// integer (each entry covers `end - start + 1` points).
pub open spec fn seq_size(s: Seq<Range>) -> int
    decreases s.len(),
{
    if s.len() == 0 {
        0
    } else {
        seq_size(s.drop_last()) + (s.last().end - s.last().start + 1)
    }
}

/// Two ranges overlap or touch: their union is a single contiguous range.
pub open spec fn touches(a: Range, b: Range) -> bool {
    a.start <= b.end + 1 && b.start <= a.end + 1
}

/// The scan of [`crate::set::RangeSet::insert`] walks the entries from the
/// left and computes `entry.end + 1` for every entry it visits; it fails when
/// that addition overflows. That happens exactly when the last entry ends at
/// `usize::MAX` and no entry before it lies strictly after `r` with a gap
/// (such an entry would have stopped the scan).
pub open spec fn insert_scan_overflow(s: Seq<Range>, r: Range) -> bool {
    &&& s.len() > 0
    &&& s.last().end == usize::MAX
    &&& forall|j: int| 0 <= j < s.len() - 1 ==> r.end + 1 >= (#[trigger] s[j]).start
}

/// When [`crate::set::RangeSet::insert`] fails: its scan overflows, or the
/// set is full and the new range merges with no entry.
pub open spec fn insert_rejected(s: Seq<Range>, r: Range, cap: int) -> bool {
    insert_scan_overflow(s, r) || (s.len() >= cap && (forall|j: int|
        0 <= j < s.len() ==> !touches(r, #[trigger] s[j])))
}

/// When [`crate::set::RangeSet::remove`] fails: the set is full and the
/// removal range lies strictly inside an entry, so that entry would have to
/// be split into two and there is no room for the extra fragment.
pub open spec fn remove_rejected(s: Seq<Range>, r: Range, cap: int) -> bool {
    s.len() >= cap && (exists|i: int|
        0 <= i < s.len() && (#[trigger] s[i]).start < r.start && r.end < s[i].end)
}

/// Does the entry `e` fully contain the range `r`?
pub open spec fn entry_contains(e: Range, r: Range) -> bool {
    e.start <= r.start && r.end <= e.end
}

/// The contained split requests that cannot be represented: `r` reaches the
/// entry's end (the right remainder would be empty), or `r` is the single
/// point at the entry's start (the left remainder collapses to that same
/// point and would touch the right remainder).
pub open spec fn split_degenerate(e: Range, r: Range) -> bool {
    r.end == e.end || (r.start == e.start && r.end == e.start)
}

/// The two remainders that splitting an entry `e` around a contained range
/// `r` leaves behind. When `r.start == e.start` the left remainder does not
/// vanish but collapses to the single point `e.start`.
pub open spec fn split_pieces(e: Range, r: Range) -> (Range, Range) {
    (
        if r.start > e.start {
            Range { start: e.start, end: (r.start - 1) as usize }
        } else {
            Range { start: e.start, end: e.start }
        },
        Range { start: (r.end + 1) as usize, end: e.end },
    )
}

/// The entry sequence that splitting entry `i` around `r` produces: the
/// entry is replaced by its two remainders, everything else stays.
pub open spec fn seq_split_at(s: Seq<Range>, i: int, r: Range) -> Seq<Range> {
    s.subrange(0, i) + seq![split_pieces(s[i], r).0, split_pieces(s[i], r).1] + s.subrange(
        i + 1,
        s.len() as int,
    )
}

/// A representable split keeps the sequence well formed: the two remainders
/// are valid ranges separated by a gap and stay within the old entry.
pub proof fn lemma_split_shape(s: Seq<Range>, i: int, r: Range)
    requires
        seq_wf(s),
        0 <= i < s.len(),
        r.wf(),
        entry_contains(s[i], r),
        !split_degenerate(s[i], r),
    ensures
        seq_wf(seq_split_at(s, i, r)),
        seq_split_at(s, i, r).len() == s.len() + 1,
{
    let e = s[i];
    let left = split_pieces(e, r).0;
    let right = split_pieces(e, r).1;
    let t = seq_split_at(s, i, r);
    assert(e.wf());
    assert(left.wf());
    assert(right.wf());
    assert forall|j: int| 0 <= j < t.len() implies (#[trigger] t[j]) == (if j < i {
        s[j]
    } else if j == i {
        left
    } else if j == i + 1 {
        right
    } else {
        s[j - 1]
    }) by {}
    assert(left.end + 1 < right.start);
    assert forall|j: int| 0 <= j && j + 1 < t.len() implies (#[trigger] t[j]).end + 1 < t[j
        + 1].start by {
        if j + 1 == i {
            assert(s[j].end + 1 < s[i].start);
        } else if j == i + 1 {
            assert(right.end == e.end);
            assert(e.end + 1 < s[i + 1].start);
        }
    }
}

/// Splitting an entry around a strictly interior range carves exactly the
/// points of that range out of the covered set.
pub proof fn lemma_split_covers(s: Seq<Range>, i: int, r: Range)
    requires
        seq_wf(s),
        0 <= i < s.len(),
        r.wf(),
        entry_contains(s[i], r),
        !split_degenerate(s[i], r),
        s[i].start < r.start,
    ensures
        forall|p: int|
            seq_covers(seq_split_at(s, i, r), p) <==> (seq_covers(s, p) && !r.covers(p)),
{
    let e = s[i];
    let left = split_pieces(e, r).0;
    let right = split_pieces(e, r).1;
    let t = seq_split_at(s, i, r);
    lemma_wf_ordered(s);
    assert forall|j: int| 0 <= j < t.len() implies (#[trigger] t[j]) == (if j < i {
        s[j]
    } else if j == i {
        left
    } else if j == i + 1 {
        right
    } else {
        s[j - 1]
    }) by {}
    assert forall|p: int| seq_covers(t, p) implies (seq_covers(s, p) && !r.covers(p)) by {
        let k = choose|k: int| 0 <= k < t.len() && (#[trigger] t[k]).covers(p);
        if k < i {
            assert(s[k].covers(p));
            assert(s[k].end + 1 < e.start);
        } else if k == i {
            assert(e.covers(p));
            assert(p < r.start);
            assert(s[i].covers(p));
        } else if k == i + 1 {
            assert(e.covers(p));
            assert(p > r.end);
            assert(s[i].covers(p));
        } else {
            assert(s[k - 1].covers(p));
            assert(e.end + 1 < s[k - 1].start);
        }
    }
    assert forall|p: int| seq_covers(s, p) && !r.covers(p) implies seq_covers(t, p) by {
        let m = choose|m: int| 0 <= m < s.len() && (#[trigger] s[m]).covers(p);
        if m < i {
            assert(t[m].covers(p));
        } else if m == i {
            if p < r.start {
                assert(left.covers(p));
                assert(t[i].covers(p));
            } else {
                assert(p > r.end);
                assert(right.covers(p));
                assert(t[i + 1].covers(p));
            }
        } else {
            assert(t[m + 1].covers(p));
        }
    }
}

/// Gluing two well-formed sequences around a middle range keeps the whole
/// well formed when gaps separate the middle from both sides.
pub proof fn lemma_wf_three_parts(a: Seq<Range>, m: Range, b: Seq<Range>)
    requires
        seq_wf(a),
        m.wf(),
        seq_wf(b),
        a.len() > 0 ==> a.last().end + 1 < m.start,
        b.len() > 0 ==> m.end + 1 < b.first().start,
    ensures
        seq_wf(a + seq![m] + b),
{
    let t = a + seq![m] + b;
    let al = a.len() as int;
    assert(t.len() == al + 1 + b.len());
    assert forall|j: int| 0 <= j < t.len() implies (#[trigger] t[j]) == (if j < al {
        a[j]
    } else if j == al {
        m
    } else {
        b[j - al - 1]
    }) by {}
    assert forall|j: int| 0 <= j && j + 1 < t.len() implies (#[trigger] t[j]).end + 1 < t[j
        + 1].start by {
        if j + 1 == al {
            assert(a[j] == a.last());
        } else if j == al && b.len() > 0 {
            assert(t[j + 1] == b.first());
        }
    }
}

/// In a well-formed sequence any two entries in order are separated by a gap.
pub proof fn lemma_wf_gap(s: Seq<Range>, i: int, j: int)
    requires
        seq_wf(s),
        0 <= i < j < s.len(),
    ensures
        s[i].end + 1 < s[j].start,
    decreases j - i,
{
    if j == i + 1 {
    } else {
        lemma_wf_gap(s, i, j - 1);
        assert(s[j - 1].end + 1 < s[j].start);
    }
}

/// A well-formed sequence is strictly sorted by start and by end, with a gap
/// between any two entries: the long form of the structural invariant
/// (sorted ascending, no two entries overlapping, no two entries touching).
pub proof fn lemma_wf_ordered(s: Seq<Range>)
    requires
        seq_wf(s),
    ensures
        forall|i: int, j: int| 0 <= i < j < s.len() ==> (#[trigger] s[i]).end + 1 < (
        #[trigger] s[j]).start,
        forall|i: int, j: int| 0 <= i < j < s.len() ==> (#[trigger] s[i]).start < (
        #[trigger] s[j]).start,
        forall|i: int, j: int| 0 <= i < j < s.len() ==> (#[trigger] s[i]).end < (
        #[trigger] s[j]).end,
{
    assert forall|i: int, j: int| 0 <= i < j < s.len() implies (#[trigger] s[i]).end + 1 < (
    #[trigger] s[j]).start by {
        lemma_wf_gap(s, i, j);
    }
}

/// Every subrange of a well-formed sequence is well formed.
pub proof fn lemma_wf_subrange(s: Seq<Range>, i: int, j: int)
    requires
        seq_wf(s),
        0 <= i <= j <= s.len(),
    ensures
        seq_wf(s.subrange(i, j)),
{
    let t = s.subrange(i, j);
    assert forall|k: int| 0 <= k < t.len() implies (#[trigger] t[k]).wf() by {
        assert(t[k] == s[i + k]);
    }
    assert forall|k: int| 0 <= k && k + 1 < t.len() implies (#[trigger] t[k]).end + 1 < t[k + 1].start by {
        assert(t[k] == s[i + k]);
        assert(t[k + 1] == s[i + k + 1]);
    }
}

/// Removing one entry from a well-formed sequence keeps it well formed.
pub proof fn lemma_wf_remove(s: Seq<Range>, i: int)
    requires
        seq_wf(s),
        0 <= i < s.len(),
    ensures
        seq_wf(s.remove(i)),
{
    let t = s.remove(i);
    assert(t == s.subrange(0, i) + s.subrange(i + 1, s.len() as int));
    assert(t.len() == s.len() - 1);
    assert forall|k: int| 0 <= k < t.len() implies (#[trigger] t[k]) == (if k < i {
        s[k]
    } else {
        s[k + 1]
    }) by {}
    assert forall|k: int| 0 <= k < t.len() implies (#[trigger] t[k]).wf() by {}
    assert forall|k: int| 0 <= k && k + 1 < t.len() implies (#[trigger] t[k]).end + 1 < t[k + 1].start by {
        if k + 1 == i {
            lemma_wf_gap(s, k, k + 2);
        }
    }
}

/// Taking a longer prefix never decreases the summed size (entry sizes are
/// positive in a well-formed sequence).
pub proof fn lemma_size_take_monotone(s: Seq<Range>, j: int, k: int)
    requires
        seq_wf(s),
        0 <= j <= k <= s.len(),
    ensures
        seq_size(s.take(j)) <= seq_size(s.take(k)),
    decreases k - j,
{
    if j < k {
        lemma_size_take_monotone(s, j, k - 1);
        assert(s.take(k).drop_last() =~= s.take(k - 1));
        assert(s.take(k).last() == s[k - 1]);
        assert(s[k - 1].wf());
    }
}

/// The whole sequence sums to at least any prefix.
pub proof fn lemma_size_take_le(s: Seq<Range>, k: int)
    requires
        seq_wf(s),
        0 <= k <= s.len(),
    ensures
        seq_size(s.take(k)) <= seq_size(s),
{
    lemma_size_take_monotone(s, k, s.len() as int);
    assert(s.take(s.len() as int) =~= s);
}



/// Coverage of a sequence extended by one entry.
pub proof fn lemma_covers_push(t: Seq<Range>, e: Range, p: int)
    ensures
        seq_covers(t.push(e), p) <==> (seq_covers(t, p) || e.covers(p)),
{
    if seq_covers(t.push(e), p) {
        let k = choose|k: int| 0 <= k < t.push(e).len() && (#[trigger] t.push(e)[k]).covers(p);
        if k < t.len() {
            assert(t[k].covers(p));
        } else {
            assert(t.push(e)[k] == e);
        }
    }
    if seq_covers(t, p) {
        let k = choose|k: int| 0 <= k < t.len() && (#[trigger] t[k]).covers(p);
        assert(t.push(e)[k].covers(p));
    }
    if e.covers(p) {
        assert(t.push(e)[t.len() as int].covers(p));
    }
}

/// Coverage of a prefix extended by one entry of the sequence.
pub proof fn lemma_covers_take_step(s: Seq<Range>, k: int)
    requires
        0 <= k < s.len(),
    ensures
        forall|p: int|
            seq_covers(s.subrange(0, k + 1), p) <==> (seq_covers(s.subrange(0, k), p) || (
            #[trigger] s[k].covers(p))),
{
    assert(s.subrange(0, k + 1) =~= s.subrange(0, k).push(s[k]));
    assert forall|p: int|
        seq_covers(s.subrange(0, k + 1), p) <==> (seq_covers(s.subrange(0, k), p) || (
        #[trigger] s[k].covers(p))) by {
        lemma_covers_push(s.subrange(0, k), s[k], p);
    }
}

/// Shrinking one entry (moving its start up or its end down) keeps the
/// sequence well formed.
pub proof fn lemma_wf_update_shrink(t: Seq<Range>, i: int, e: Range)
    requires
        seq_wf(t),
        0 <= i < t.len(),
        e.wf(),
        t[i].start <= e.start,
        e.end <= t[i].end,
    ensures
        seq_wf(t.update(i, e)),
{
    let u = t.update(i, e);
    assert forall|j: int| 0 <= j && j + 1 < u.len() implies (#[trigger] u[j]).end + 1 < u[j
        + 1].start by {}
}

/// One scan step of removal, for an entry that keeps part of its points:
/// extending the processed prefix by the kept part `e` carves `r` out of one
/// more entry.
pub proof fn lemma_remove_step_push(pr: Seq<Range>, s: Seq<Range>, k: int, r: Range, e: Range, p: int)
    requires
        0 <= k < s.len(),
        seq_covers(pr, p) <==> (seq_covers(s.subrange(0, k), p) && !r.covers(p)),
        e.covers(p) <==> (s[k].covers(p) && !r.covers(p)),
    ensures
        seq_covers(pr.push(e), p) <==> (seq_covers(s.subrange(0, k + 1), p) && !r.covers(p)),
{
    lemma_covers_take_step(s, k);
    lemma_covers_push(pr, e, p);
    assert(seq_covers(s.subrange(0, k + 1), p) <==> (seq_covers(s.subrange(0, k), p) || s[
        k].covers(p)));
}

/// One scan step of removal, for an entry split into two kept parts.
pub proof fn lemma_remove_step_push2(
    pr: Seq<Range>,
    s: Seq<Range>,
    k: int,
    r: Range,
    e1: Range,
    e2: Range,
    p: int,
)
    requires
        0 <= k < s.len(),
        seq_covers(pr, p) <==> (seq_covers(s.subrange(0, k), p) && !r.covers(p)),
        (e1.covers(p) || e2.covers(p)) <==> (s[k].covers(p) && !r.covers(p)),
    ensures
        seq_covers(pr.push(e1).push(e2), p) <==> (seq_covers(s.subrange(0, k + 1), p)
            && !r.covers(p)),
{
    lemma_covers_take_step(s, k);
    lemma_covers_push(pr, e1, p);
    lemma_covers_push(pr.push(e1), e2, p);
    assert(seq_covers(s.subrange(0, k + 1), p) <==> (seq_covers(s.subrange(0, k), p) || s[
        k].covers(p)));
}

/// One scan step of removal, for an entry that keeps nothing: every point of
/// the entry lies in `r`, so the processed prefix is unchanged.
pub proof fn lemma_remove_step_skip(pr: Seq<Range>, s: Seq<Range>, k: int, r: Range, p: int)
    requires
        0 <= k < s.len(),
        seq_covers(pr, p) <==> (seq_covers(s.subrange(0, k), p) && !r.covers(p)),
        s[k].covers(p) ==> r.covers(p),
    ensures
        seq_covers(pr, p) <==> (seq_covers(s.subrange(0, k + 1), p) && !r.covers(p)),
{
    lemma_covers_take_step(s, k);
    assert(seq_covers(s.subrange(0, k + 1), p) <==> (seq_covers(s.subrange(0, k), p) || s[
        k].covers(p)));
}


/// In a well-formed sequence, every covered point lies between the first
/// entry's start and the last entry's end.
pub proof fn lemma_covers_bounds(s: Seq<Range>, p: int)
    requires
        seq_wf(s),
        seq_covers(s, p),
    ensures
        s.len() > 0,
        s.first().start <= p <= s.last().end,
{
    let k = choose|k: int| 0 <= k < s.len() && (#[trigger] s[k]).covers(p);
    lemma_wf_ordered(s);
    if k > 0 {
        assert(s.first().start < s[k].start);
    }
    if k < s.len() - 1 {
        assert(s[k].end < s.last().end);
    }
}

/// The scanned prefix relation of [`crate::set::RangeSet::remove`]: the
/// processed prefix `pr` covers exactly the points of the first `k` entries
/// of `s` that lie outside `r`.
pub open spec fn carved(pr: Seq<Range>, s: Seq<Range>, k: int, r: Range) -> bool {
    forall|p: int|
        #[trigger] seq_covers(pr, p) <==> (seq_covers(s.subrange(0, k), p) && !r.covers(p))
}

/// Some point of the first `k` entries of `s` lies in `r`: the scan of
/// [`crate::set::RangeSet::remove`] has altered or removed an entry.
pub open spec fn prefix_hits(s: Seq<Range>, k: int, r: Range) -> bool {
    exists|p: int| seq_covers(s.subrange(0, k), p) && (#[trigger] r.covers(p))
}

/// Invariant transfer for one removal step that replaces the scanned entry
/// by the kept part `e`: the processed prefix `pr_new` extends `pr_old` by
/// `e` and carves `r` out of one more entry of `s`.
pub proof fn lemma_remove_invariant_push(
    pr_old: Seq<Range>,
    pr_new: Seq<Range>,
    s: Seq<Range>,
    k: int,
    r: Range,
    e: Range,
)
    requires
        0 <= k < s.len(),
        pr_new == pr_old.push(e),
        carved(pr_old, s, k, r),
        forall|p: int| #[trigger] e.covers(p) <==> (s[k].covers(p) && !r.covers(p)),
    ensures
        carved(pr_new, s, k + 1, r),
{
    assert forall|p: int|
        #[trigger] seq_covers(pr_new, p) <==> (seq_covers(s.subrange(0, k + 1), p) && !r.covers(
            p,
        )) by {
        assert(seq_covers(pr_old, p) <==> (seq_covers(s.subrange(0, k), p) && !r.covers(p)));
        lemma_remove_step_push(pr_old, s, k, r, e, p);
    }
}

/// Invariant transfer for one removal step that splits the scanned entry in
/// the two kept parts `e1` and `e2`.
pub proof fn lemma_remove_invariant_push2(
    pr_old: Seq<Range>,
    pr_new: Seq<Range>,
    s: Seq<Range>,
    k: int,
    r: Range,
    e1: Range,
    e2: Range,
)
    requires
        0 <= k < s.len(),
        pr_new == pr_old.push(e1).push(e2),
        carved(pr_old, s, k, r),
        forall|p: int|
            (#[trigger] e1.covers(p) || e2.covers(p)) <==> (s[k].covers(p) && !r.covers(p)),
    ensures
        carved(pr_new, s, k + 1, r),
{
    assert forall|p: int|
        #[trigger] seq_covers(pr_new, p) <==> (seq_covers(s.subrange(0, k + 1), p) && !r.covers(
            p,
        )) by {
        assert(seq_covers(pr_old, p) <==> (seq_covers(s.subrange(0, k), p) && !r.covers(p)));
        lemma_remove_step_push2(pr_old, s, k, r, e1, e2, p);
    }
}

/// Invariant transfer for one removal step that deletes the scanned entry:
/// every point of that entry lies in `r`, the processed prefix stays.
pub proof fn lemma_remove_invariant_skip(pr: Seq<Range>, s: Seq<Range>, k: int, r: Range)
    requires
        0 <= k < s.len(),
        carved(pr, s, k, r),
        forall|p: int| #[trigger] s[k].covers(p) ==> r.covers(p),
    ensures
        carved(pr, s, k + 1, r),
{
    assert forall|p: int|
        #[trigger] seq_covers(pr, p) <==> (seq_covers(s.subrange(0, k + 1), p) && !r.covers(
            p,
        )) by {
        assert(seq_covers(pr, p) <==> (seq_covers(s.subrange(0, k), p) && !r.covers(p)));
        lemma_remove_step_skip(pr, s, k, r, p);
    }
}

/// Whether the removal range shares a point with the scanned prefix, one
/// entry further: the new entry either contributes such a point or not.
pub proof fn lemma_removed_any_step(s: Seq<Range>, k: int, r: Range)
    requires
        0 <= k < s.len(),
    ensures
        prefix_hits(s, k + 1, r) <==> (prefix_hits(s, k, r) || (exists|p: int|
            (#[trigger] s[k].covers(p)) && r.covers(p))),
{
    if prefix_hits(s, k + 1, r) {
        let p = choose|p: int| seq_covers(s.subrange(0, k + 1), p) && (#[trigger] r.covers(p));
        let m = choose|m: int| 0 <= m < k + 1 && (#[trigger] s.subrange(0, k + 1)[m]).covers(p);
        if m < k {
            assert(s.subrange(0, k)[m].covers(p));
            assert(seq_covers(s.subrange(0, k), p) && r.covers(p));
        } else {
            assert(s[k].covers(p) && r.covers(p));
        }
    }
    if prefix_hits(s, k, r) {
        let p = choose|p: int| seq_covers(s.subrange(0, k), p) && (#[trigger] r.covers(p));
        let m = choose|m: int| 0 <= m < k && (#[trigger] s.subrange(0, k)[m]).covers(p);
        assert(s.subrange(0, k + 1)[m].covers(p));
        assert(seq_covers(s.subrange(0, k + 1), p) && r.covers(p));
    }
    if exists|p: int| (s[k].covers(p)) && r.covers(p) {
        let p = choose|p: int| (s[k].covers(p)) && r.covers(p);
        assert(s.subrange(0, k + 1)[k].covers(p));
        assert(seq_covers(s.subrange(0, k + 1), p) && r.covers(p));
    }
}

} // verus!
