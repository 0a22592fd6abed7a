//! Laws relating the operations of the crate through the mathematical model:
//! a well-formed entry sequence is the canonical decomposition of the point
//! set it covers, and the consequences of that for insertion and removal.

use vstd::prelude::*;

use crate::model::seq_covers;
use crate::model::seq_size;
use crate::model::seq_wf;
use crate::range::Range;

verus! {

/// A well-formed sequence is determined by the point set it covers: two
/// well-formed sequences covering the same points are equal.
#[verifier::rlimit(50)]
pub proof fn lemma_canonical_form(s1: Seq<Range>, s2: Seq<Range>)
    requires
        seq_wf(s1),
        seq_wf(s2),
        forall|p: int| seq_covers(s1, p) <==> seq_covers(s2, p),
    ensures
        s1 == s2,
    decreases s1.len(),
{
    crate::model::lemma_wf_ordered(s1);
    crate::model::lemma_wf_ordered(s2);
    if s1.len() == 0 {
        if s2.len() > 0 {
            assert(s2[0].covers(s2[0].start as int));
            assert(seq_covers(s2, s2[0].start as int));
        }
        assert(s1 =~= s2);
    } else if s2.len() == 0 {
        assert(s1[0].covers(s1[0].start as int));
        assert(seq_covers(s1, s1[0].start as int));
    } else {
        lemma_first_entries_equal(s1, s2);
        let t1 = s1.subrange(1, s1.len() as int);
        let t2 = s2.subrange(1, s2.len() as int);
        crate::model::lemma_wf_subrange(s1, 1, s1.len() as int);
        crate::model::lemma_wf_subrange(s2, 1, s2.len() as int);
        assert forall|p: int| seq_covers(t1, p) <==> seq_covers(t2, p) by {
            lemma_tail_covers(s1, p);
            lemma_tail_covers(s2, p);
        }
        lemma_canonical_form(t1, t2);
        assert forall|i: int| 0 <= i < s1.len() implies s1[i] == s2[i] by {
            if i > 0 {
                assert(s1[i] == t1[i - 1]);
                assert(s2[i] == t2[i - 1]);
            }
        }
        assert(s1 =~= s2);
    }
}

/// In a nonempty well-formed sequence, a point beyond the first entry's end
/// is covered exactly when the tail covers it.
proof fn lemma_tail_covers(s: Seq<Range>, p: int)
    requires
        seq_wf(s),
        s.len() > 0,
    ensures
        seq_covers(s.subrange(1, s.len() as int), p) <==> (seq_covers(s, p) && p > s[0].end),
{
    let t = s.subrange(1, s.len() as int);
    crate::model::lemma_wf_ordered(s);
    if seq_covers(t, p) {
        let k = choose|k: int| 0 <= k < t.len() && (#[trigger] t[k]).covers(p);
        assert(s[k + 1].covers(p));
        assert(s[0].end + 1 < s[k + 1].start);
    }
    if seq_covers(s, p) && p > s[0].end {
        let k = choose|k: int| 0 <= k < s.len() && (#[trigger] s[k]).covers(p);
        assert(k > 0);
        assert(t[k - 1].covers(p));
    }
}

/// The first entries of two well-formed sequences covering the same points
/// agree: the first start is the least covered point, and the first end is
/// the last point before the first uncovered gap.
proof fn lemma_first_entries_equal(s1: Seq<Range>, s2: Seq<Range>)
    requires
        seq_wf(s1),
        seq_wf(s2),
        s1.len() > 0,
        s2.len() > 0,
        forall|p: int| seq_covers(s1, p) <==> seq_covers(s2, p),
    ensures
        s1[0] == s2[0],
{
    crate::model::lemma_wf_ordered(s1);
    crate::model::lemma_wf_ordered(s2);
    assert(s1[0].covers(s1[0].start as int));
    assert(seq_covers(s1, s1[0].start as int));
    assert(s2[0].covers(s2[0].start as int));
    assert(seq_covers(s2, s2[0].start as int));
    crate::model::lemma_covers_bounds(s2, s1[0].start as int);
    crate::model::lemma_covers_bounds(s1, s2[0].start as int);
    assert(s1[0].start == s2[0].start);
    if s1[0].end < s2[0].end {
        let q = s1[0].end + 1;
        assert(s2[0].covers(q));
        assert(seq_covers(s2, q));
        assert(seq_covers(s1, q));
        let m = choose|m: int| 0 <= m < s1.len() && (#[trigger] s1[m]).covers(q);
        assert(m > 0);
        assert(s1[0].end + 1 < s1[m].start);
        assert(false);
    }
    if s2[0].end < s1[0].end {
        let q = s2[0].end + 1;
        assert(s1[0].covers(q));
        assert(seq_covers(s1, q));
        assert(seq_covers(s2, q));
        let m = choose|m: int| 0 <= m < s2.len() && (#[trigger] s2[m]).covers(q);
        assert(m > 0);
        assert(s2[0].end + 1 < s2[m].start);
        assert(false);
    }
}

/// The points covered by an entry sequence, as a set of integers.
pub open spec fn cov_set(s: Seq<Range>) -> Set<int> {
    Set::new(|p: int| seq_covers(s, p))
}

/// In a well-formed sequence the summed entry sizes count exactly the
/// covered points: the entries are disjoint, so no point is counted twice.
pub proof fn lemma_size_is_card(s: Seq<Range>)
    requires
        seq_wf(s),
    ensures
        cov_set(s).finite(),
        cov_set(s).len() == seq_size(s),
    decreases s.len(),
{
    if s.len() == 0 {
        assert(cov_set(s) =~= Set::<int>::empty());
    } else {
        let s0 = s.drop_last();
        let e = s.last();
        assert(s0 =~= s.subrange(0, s.len() - 1));
        crate::model::lemma_wf_subrange(s, 0, s.len() - 1);
        lemma_size_is_card(s0);
        let re = vstd::set_lib::set_int_range(e.start as int, e.end + 1);
        vstd::set_lib::lemma_int_range(e.start as int, e.end + 1);
        assert(s =~= s0.push(e));
        assert forall|p: int| seq_covers(s, p) <==> (seq_covers(s0, p) || e.covers(p)) by {
            crate::model::lemma_covers_push(s0, e, p);
        }
        assert(cov_set(s) =~= cov_set(s0) + re);
        assert forall|p: int| cov_set(s0).contains(p) implies !re.contains(p) by {
            crate::model::lemma_covers_bounds(s0, p);
            assert(s0.last() == s[s.len() - 2]);
            assert(s[s.len() - 2].end + 1 < e.start);
        }
        assert(cov_set(s0).disjoint(re));
        vstd::set_lib::lemma_set_disjoint_lens(cov_set(s0), re);
        assert(cov_set(s).len() == seq_size(s0) + (e.end - e.start + 1));
    }
}

/// A well-formed sequence covering no more points than another has no larger
/// total size.
pub proof fn lemma_covered_size_monotonic(s1: Seq<Range>, s2: Seq<Range>)
    requires
        seq_wf(s1),
        seq_wf(s2),
        forall|p: int| seq_covers(s1, p) ==> seq_covers(s2, p),
    ensures
        seq_size(s1) <= seq_size(s2),
{
    lemma_size_is_card(s1);
    lemma_size_is_card(s2);
    assert forall|p: int| cov_set(s1).contains(p) implies cov_set(s2).contains(p) by {
        assert(seq_covers(s1, p) ==> seq_covers(s2, p));
    }
    vstd::set_lib::lemma_len_subset(cov_set(s1), cov_set(s2));
}

/// Insertion never decreases the total covered size: the set after an insert
/// covers the old points plus those of the inserted range, so its size is at
/// least the old one.
pub proof fn lemma_insert_size_monotonic(s0: Seq<Range>, s1: Seq<Range>, r: Range)
    requires
        seq_wf(s0),
        seq_wf(s1),
        forall|p: int| seq_covers(s1, p) <==> (seq_covers(s0, p) || r.covers(p)),
    ensures
        seq_size(s0) <= seq_size(s1),
{
    assert forall|p: int| seq_covers(s0, p) implies seq_covers(s1, p) by {
        assert(seq_covers(s1, p) <==> (seq_covers(s0, p) || r.covers(p)));
    }
    lemma_covered_size_monotonic(s0, s1);
}

/// Removing a range whose points the set fully covered and then inserting it
/// again restores the original set exactly.
pub proof fn lemma_remove_insert_round_trip(
    s0: Seq<Range>,
    s1: Seq<Range>,
    s2: Seq<Range>,
    r: Range,
)
    requires
        seq_wf(s0),
        seq_wf(s1),
        seq_wf(s2),
        forall|p: int| r.covers(p) ==> seq_covers(s0, p),
        forall|p: int| seq_covers(s1, p) <==> (seq_covers(s0, p) && !r.covers(p)),
        forall|p: int| seq_covers(s2, p) <==> (seq_covers(s1, p) || r.covers(p)),
    ensures
        s2 == s0,
{
    assert forall|p: int| seq_covers(s2, p) <==> seq_covers(s0, p) by {
        assert(seq_covers(s2, p) <==> (seq_covers(s1, p) || r.covers(p)));
        assert(seq_covers(s1, p) <==> (seq_covers(s0, p) && !r.covers(p)));
        assert(r.covers(p) ==> seq_covers(s0, p));
    }
    lemma_canonical_form(s2, s0);
}

/// Inserting the same range twice gives exactly the set that one insert
/// gives: the second insert changes nothing.
pub proof fn lemma_insert_idempotent(s0: Seq<Range>, s1: Seq<Range>, s2: Seq<Range>, r: Range)
    requires
        seq_wf(s0),
        seq_wf(s1),
        seq_wf(s2),
        forall|p: int| seq_covers(s1, p) <==> (seq_covers(s0, p) || r.covers(p)),
        forall|p: int| seq_covers(s2, p) <==> (seq_covers(s1, p) || r.covers(p)),
    ensures
        s2 == s1,
{
    assert forall|p: int| seq_covers(s2, p) <==> seq_covers(s1, p) by {
        assert(seq_covers(s2, p) <==> (seq_covers(s1, p) || r.covers(p)));
        assert(seq_covers(s1, p) <==> (seq_covers(s0, p) || r.covers(p)));
    }
    lemma_canonical_form(s2, s1);
}

} // verus!