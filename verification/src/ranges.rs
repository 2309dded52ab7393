//! Closed intervals of question ids: when a list of them is acceptable, how it
//! is put in order, and how an id is looked up in it.

use vstd::prelude::*;
use vstd::multiset::Multiset;
use vstd::seq_lib::*;

verus! {

/// A closed interval `[start, stop]` of question ids.
pub type IdRange = (i32, i32);

/// `q` lies in the closed interval `r`.
pub open spec fn holds(r: IdRange, q: i32) -> bool {
    r.0 <= q <= r.1
}

/// `q` lies in at least one interval of `rs`.
pub open spec fn in_some_range(rs: Seq<IdRange>, q: i32) -> bool {
    exists|i: int| 0 <= i < rs.len() && holds(#[trigger] rs[i], q)
}

/// The two intervals share no id.
pub open spec fn apart(a: IdRange, b: IdRange) -> bool {
    a.1 < b.0 || b.1 < a.0
}

/// Every interval of `rs` has its start at or before its stop.
pub open spec fn each_well_formed(rs: Seq<IdRange>) -> bool {
    forall|i: int| 0 <= i < rs.len() ==> (#[trigger] rs[i]).0 <= rs[i].1
}

/// A list of intervals is valid when none is empty and no two of them,
/// taken at different places of the list, share an id.
pub open spec fn valid_ranges(rs: Seq<IdRange>) -> bool {
    &&& each_well_formed(rs)
    &&& forall|i: int, j: int| 0 <= i < j < rs.len() ==> apart(#[trigger] rs[i], #[trigger] rs[j])
}

/// The starts never go down along the list.
pub open spec fn sorted_by_start(rs: Seq<IdRange>) -> bool {
    forall|i: int, j: int| 0 <= i < j < rs.len() ==> (#[trigger] rs[i]).0 <= (#[trigger] rs[j]).0
}

/// Each interval stops before its right neighbour starts.
pub open spec fn neighbours_apart(rs: Seq<IdRange>) -> bool {
    forall|i: int| 0 <= i < rs.len() - 1 ==> (#[trigger] rs[i]).1 < rs[i + 1].0
}

/// Order by start, then by stop.
pub open spec fn before_or_equal(a: IdRange, b: IdRange) -> bool {
    a.0 < b.0 || (a.0 == b.0 && a.1 <= b.1)
}

/// The list goes up by start, and by stop where starts are equal.
pub open spec fn in_order(rs: Seq<IdRange>) -> bool {
    forall|i: int, j: int|
        0 <= i < j < rs.len() ==> before_or_equal(#[trigger] rs[i], #[trigger] rs[j])
}

/// In a list sorted by start, looking at neighbours is enough to decide validity.
pub proof fn lemma_sorted_validity(rs: Seq<IdRange>)
    requires
        sorted_by_start(rs),
    ensures
        valid_ranges(rs) <==> (each_well_formed(rs) && neighbours_apart(rs)),
{
    if valid_ranges(rs) {
        assert forall|i: int| 0 <= i < rs.len() - 1 implies (#[trigger] rs[i]).1 < rs[i + 1].0 by {
            assert(apart(rs[i], rs[i + 1]));
            assert(rs[i].0 <= rs[i + 1].0);
            assert(rs[i + 1].0 <= rs[i + 1].1);
        }
    }
    if each_well_formed(rs) && neighbours_apart(rs) {
        assert forall|i: int, j: int| 0 <= i < j < rs.len() implies apart(
            #[trigger] rs[i],
            #[trigger] rs[j],
        ) by {
            lemma_stops_before_later_starts(rs, i, j);
        }
    }
}

proof fn lemma_stops_before_later_starts(rs: Seq<IdRange>, i: int, j: int)
    requires
        each_well_formed(rs),
        neighbours_apart(rs),
        0 <= i < j < rs.len(),
    ensures
        rs[i].1 < rs[j].0,
    decreases j - i,
{
    if j == i + 1 {
        assert(rs[i].1 < rs[i + 1].0);
    } else {
        lemma_stops_before_later_starts(rs, i, j - 1);
        assert(rs[j - 1].0 <= rs[j - 1].1);
        assert(rs[j - 1].1 < rs[j - 1 + 1].0);
    }
}

/// Validity seen from the multiset of the intervals: each occurs once, none is
/// empty, and two different ones share no id.
spec fn valid_as_multiset(m: Multiset<IdRange>) -> bool {
    &&& forall|x: IdRange| m.contains(x) ==> x.0 <= x.1 && m.count(x) == 1
    &&& forall|x: IdRange, y: IdRange| m.contains(x) && m.contains(y) && x != y ==> apart(x, y)
}

proof fn lemma_validity_reads_multiset(rs: Seq<IdRange>)
    ensures
        valid_ranges(rs) <==> valid_as_multiset(rs.to_multiset()),
{
    broadcast use group_to_multiset_ensures;

    let m = rs.to_multiset();
    if valid_ranges(rs) {
        assert forall|i: int, j: int| 0 <= i < rs.len() && 0 <= j < rs.len() && i != j implies rs[i]
            != rs[j] by {
            if i < j {
                assert(apart(rs[i], rs[j]));
            } else {
                assert(apart(rs[j], rs[i]));
            }
        }
        assert(rs.no_duplicates());
        rs.lemma_multiset_has_no_duplicates();
        assert forall|x: IdRange| m.contains(x) implies x.0 <= x.1 && m.count(x) == 1 by {
            assert(rs.contains(x));
            let i = choose|i: int| 0 <= i < rs.len() && rs[i] == x;
            assert(rs[i].0 <= rs[i].1);
        }
        assert forall|x: IdRange, y: IdRange|
            m.contains(x) && m.contains(y) && x != y implies apart(x, y) by {
            assert(rs.contains(x));
            assert(rs.contains(y));
            let i = choose|i: int| 0 <= i < rs.len() && rs[i] == x;
            let j = choose|j: int| 0 <= j < rs.len() && rs[j] == y;
            if i < j {
                assert(apart(rs[i], rs[j]));
            } else {
                assert(apart(rs[j], rs[i]));
            }
        }
    }
    if valid_as_multiset(m) {
        rs.lemma_multiset_has_no_duplicates_conv();
        assert forall|i: int| 0 <= i < rs.len() implies (#[trigger] rs[i]).0 <= rs[i].1 by {
            assert(rs.contains(rs[i]));
            assert(m.contains(rs[i]));
        }
        assert forall|i: int, j: int| 0 <= i < j < rs.len() implies apart(
            #[trigger] rs[i],
            #[trigger] rs[j],
        ) by {
            assert(rs.contains(rs[i]));
            assert(rs.contains(rs[j]));
            assert(m.contains(rs[i]));
            assert(m.contains(rs[j]));
            assert(rs[i] != rs[j]);
        }
    }
}

/// Validity does not depend on the order in which the intervals are listed.
pub proof fn lemma_validity_ignores_order(a: Seq<IdRange>, b: Seq<IdRange>)
    requires
        a.to_multiset() == b.to_multiset(),
    ensures
        valid_ranges(a) == valid_ranges(b),
{
    lemma_validity_reads_multiset(a);
    lemma_validity_reads_multiset(b);
}

/// A list of intervals is valid exactly when any rearrangement of it that is
/// sorted by start, however ties are broken, holds no empty interval and no
/// interval that reaches its right neighbour's start.
pub proof fn lemma_validity_by_sorting(ranges: Seq<IdRange>, sorted: Seq<IdRange>)
    requires
        sorted.to_multiset() == ranges.to_multiset(),
        sorted_by_start(sorted),
    ensures
        valid_ranges(ranges) <==> (each_well_formed(sorted) && neighbours_apart(sorted)),
{
    lemma_validity_ignores_order(ranges, sorted);
    lemma_sorted_validity(sorted);
}

fn comes_first(a: IdRange, b: IdRange) -> (r: bool)
    ensures
        r == before_or_equal(a, b),
{
    a.0 < b.0 || (a.0 == b.0 && a.1 <= b.1)
}

/// The same intervals, ordered by start and then by stop.
pub fn sort_ranges(ranges: &Vec<IdRange>) -> (sorted: Vec<IdRange>)
    ensures
        in_order(sorted@),
        sorted_by_start(sorted@),
        sorted@.to_multiset() == ranges@.to_multiset(),
        sorted@.len() == ranges@.len(),
{
    broadcast use group_to_multiset_ensures;

    let mut sorted: Vec<IdRange> = Vec::new();
    let mut k: usize = 0;
    assert(ranges@.take(0) =~= Seq::<IdRange>::empty());
    while k < ranges.len()
        invariant
            k <= ranges.len(),
            sorted@.len() == k,
            in_order(sorted@),
            sorted@.to_multiset() == ranges@.take(k as int).to_multiset(),
        decreases ranges.len() - k,
    {
        let x = ranges[k];
        let mut pos: usize = 0;
        while pos < sorted.len() && comes_first(sorted[pos], x)
            invariant
                pos <= sorted.len(),
                forall|j: int| 0 <= j < pos ==> before_or_equal(#[trigger] sorted@[j], x),
            decreases sorted.len() - pos,
        {
            pos += 1;
        }
        let ghost before = sorted@;
        sorted.insert(pos, x);
        proof {
            to_multiset_insert(before, pos as int, x);
            assert(sorted@ == before.insert(pos as int, x));
            to_multiset_build(ranges@.take(k as int), x);
            assert(ranges@.take(k + 1) =~= ranges@.take(k as int).push(x));
            assert(sorted@.to_multiset() =~= ranges@.take(k + 1).to_multiset());
            assert forall|i: int, j: int| 0 <= i < j < sorted@.len() implies before_or_equal(
                #[trigger] sorted@[i],
                #[trigger] sorted@[j],
            ) by {
                if j < pos {
                    assert(sorted@[i] == before[i] && sorted@[j] == before[j]);
                } else if j == pos {
                    assert(sorted@[i] == before[i]);
                } else if i < pos {
                    assert(sorted@[i] == before[i] && sorted@[j] == before[j - 1]);
                } else if i == pos {
                    assert(sorted@[j] == before[j - 1]);
                    assert(!before_or_equal(before[pos as int], x));
                    if j - 1 > pos {
                        assert(before_or_equal(before[pos as int], before[j - 1]));
                    }
                } else {
                    assert(sorted@[i] == before[i - 1] && sorted@[j] == before[j - 1]);
                }
            }
        }
        k += 1;
    }
    assert(ranges@.take(k as int) =~= ranges@);
    sorted
}

/// Says whether a list of intervals must be rejected: it holds an interval
/// whose start lies after its stop, or two intervals that share an id.
pub fn invalid_range(ranges: Vec<IdRange>) -> (invalid: bool)
    ensures
        invalid == !valid_ranges(ranges@),
{
    let sorted = sort_ranges(&ranges);
    proof {
        lemma_validity_by_sorting(ranges@, sorted@);
    }
    let mut i: usize = 0;
    while i < sorted.len()
        invariant
            i <= sorted.len(),
            valid_ranges(ranges@) <==> (each_well_formed(sorted@) && neighbours_apart(sorted@)),
            forall|k: int| 0 <= k < i ==> (#[trigger] sorted@[k]).0 <= sorted@[k].1,
            forall|k: int| 0 <= k < i - 1 ==> (#[trigger] sorted@[k]).1 < sorted@[k + 1].0,
        decreases sorted.len() - i,
    {
        let (start, stop) = sorted[i];
        if start > stop {
            assert(sorted@[i as int].0 > sorted@[i as int].1);
            assert(!each_well_formed(sorted@));
            return true;
        }
        if i > 0 && sorted[i - 1].1 >= start {
            assert(sorted@[i - 1].1 >= sorted@[i - 1 + 1].0);
            assert(!neighbours_apart(sorted@));
            return true;
        }
        i += 1;
    }
    false
}

/// Looks an id up in a valid list of intervals that is sorted by start.
pub fn range_contains(sorted: &Vec<IdRange>, q: i32) -> (found: bool)
    requires
        sorted_by_start(sorted@),
        valid_ranges(sorted@),
    ensures
        found == in_some_range(sorted@, q),
{
    let mut lo: usize = 0;
    let mut hi: usize = sorted.len();
    while lo < hi
        invariant
            lo <= hi <= sorted.len(),
            sorted_by_start(sorted@),
            forall|k: int| 0 <= k < lo ==> (#[trigger] sorted@[k]).0 <= q,
            forall|k: int| hi <= k < sorted.len() ==> (#[trigger] sorted@[k]).0 > q,
        decreases hi - lo,
    {
        let mid: usize = lo + (hi - lo) / 2;
        if sorted[mid].0 <= q {
            assert forall|k: int| 0 <= k < mid + 1 implies (#[trigger] sorted@[k]).0 <= q by {
                if k < mid {
                    assert(sorted@[k].0 <= sorted@[mid as int].0);
                }
            }
            lo = mid + 1;
        } else {
            assert forall|k: int| mid <= k < sorted.len() implies (#[trigger] sorted@[k]).0 > q by {
                if mid < k {
                    assert(sorted@[mid as int].0 <= sorted@[k].0);
                }
            }
            hi = mid;
        }
    }
    if lo == 0 {
        assert(!in_some_range(sorted@, q));
        return false;
    }
    let last: usize = lo - 1;
    let found = q <= sorted[last].1;
    proof {
        if found {
            assert(holds(sorted@[last as int], q));
        } else {
            assert forall|k: int| 0 <= k < sorted.len() implies !holds(#[trigger] sorted@[k], q) by {
                if k < last {
                    assert(apart(sorted@[k], sorted@[last as int]));
                    assert(sorted@[k].0 <= sorted@[last as int].0);
                    assert(sorted@[last as int].0 <= sorted@[last as int].1);
                }
            }
        }
    }
    found
}

} // verus!
