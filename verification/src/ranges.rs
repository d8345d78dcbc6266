//! Lists of half-open ranges `(start, end)` of sequence numbers: their order,
//! what they cover, and the merge of ranges that touch or overlap.

use vstd::prelude::*;
use vstd::relations::{sorted_by, total_ordering};
use vstd::seq_lib::{lemma_sorted_unique, to_multiset_build, to_multiset_insert};

verus! {

/// The order of ranges: by start, and by end where the starts agree.
pub open spec fn range_leq() -> spec_fn((u64, u64), (u64, u64)) -> bool {
    |a: (u64, u64), b: (u64, u64)| a.0 < b.0 || (a.0 == b.0 && a.1 <= b.1)
}

/// Whether `x` lies in one of `ranges`.
pub open spec fn covers(ranges: Seq<(u64, u64)>, x: u64) -> bool {
    exists|i: int| 0 <= i < ranges.len() && (#[trigger] ranges[i]).0 <= x < ranges[i].1
}

/// Each range ends before the ranges behind it start, with a gap between
/// them.
pub open spec fn separated(ranges: Seq<(u64, u64)>) -> bool {
    forall|i: int, j: int|
        0 <= i < j < ranges.len() ==> (#[trigger] ranges[i]).1 < (#[trigger] ranges[j]).0
}

/// The starts do not go down.
pub open spec fn ascending(ranges: Seq<(u64, u64)>) -> bool {
    forall|i: int, j: int|
        0 <= i < j < ranges.len() ==> (#[trigger] ranges[i]).0 <= (#[trigger] ranges[j]).0
}

/// The fold that merges: each range in turn is joined to the last range kept
/// so far where it starts at or before that one's end, and is kept as a range
/// of its own where it does not.
pub open spec fn merged(ranges: Seq<(u64, u64)>) -> Seq<(u64, u64)>
    decreases ranges.len(),
{
    if ranges.len() == 0 {
        Seq::empty()
    } else {
        let kept = merged(ranges.drop_last());
        let next = ranges.last();
        if kept.len() > 0 && next.0 <= kept.last().1 {
            let end = if kept.last().1 >= next.1 {
                kept.last().1
            } else {
                next.1
            };
            kept.update(kept.len() - 1, (kept.last().0, end))
        } else {
            kept.push(next)
        }
    }
}

/// The ranges in order, merged.
pub open spec fn normalized(ranges: Seq<(u64, u64)>) -> Seq<(u64, u64)> {
    merged(ranges.sort_by(range_leq()))
}

pub proof fn lemma_range_leq_total()
    ensures
        total_ordering(range_leq()),
{
    let leq = range_leq();
    assert forall|x: (u64, u64), y: (u64, u64)| #[trigger] leq(x, y) && #[trigger] leq(y, x) implies x == y by {}
}

/// Ranges that are in order and merged are separated, ascend, and cover what
/// they covered before.
pub proof fn lemma_merged(ranges: Seq<(u64, u64)>)
    requires
        sorted_by(ranges, range_leq()),
    ensures
        separated(merged(ranges)),
        ascending(merged(ranges)),
        forall|x: u64| covers(merged(ranges), x) <==> covers(ranges, x),
        ranges.len() > 0 ==> merged(ranges).len() > 0 && merged(ranges).last().0 <= ranges.last().0,
        ranges.len() == 0 ==> merged(ranges).len() == 0,
    decreases ranges.len(),
{
    if ranges.len() > 0 {
        let init = ranges.drop_last();
        let kept = merged(init);
        let next = ranges.last();
        let all = merged(ranges);
        let leq = range_leq();
        assert(sorted_by(init, leq)) by {
            assert forall|i: int, j: int| 0 <= i < j < init.len() implies #[trigger] leq(
                init[i],
                init[j],
            ) by {
                assert(leq(ranges[i], ranges[j]));
            }
        }
        lemma_merged(init);
        if init.len() > 0 {
            assert(leq(ranges[init.len() - 1], ranges[ranges.len() - 1]));
            assert(init.last().0 <= next.0);
        }
        if kept.len() > 0 && next.0 <= kept.last().1 {
            let last = kept.last();
            let n = kept.len() - 1;
            assert forall|x: u64| covers(all, x) <==> covers(ranges, x) by {
                if covers(all, x) {
                    let i = choose|i: int| 0 <= i < all.len() && (#[trigger] all[i]).0 <= x < all[i].1;
                    if i < n || x < last.1 {
                        assert(kept[i].0 <= x < kept[i].1);
                        assert(covers(init, x));
                        let j = choose|j: int|
                            0 <= j < init.len() && (#[trigger] init[j]).0 <= x < init[j].1;
                        assert(ranges[j].0 <= x < ranges[j].1);
                    } else {
                        assert(ranges[ranges.len() - 1].0 <= x < ranges[ranges.len() - 1].1);
                    }
                }
                if covers(ranges, x) {
                    let j = choose|j: int|
                        0 <= j < ranges.len() && (#[trigger] ranges[j]).0 <= x < ranges[j].1;
                    if j < init.len() {
                        assert(init[j].0 <= x < init[j].1);
                        assert(covers(init, x));
                        assert(covers(kept, x));
                        let i = choose|i: int|
                            0 <= i < kept.len() && (#[trigger] kept[i]).0 <= x < kept[i].1;
                        assert(all[i].0 <= x < all[i].1);
                    } else {
                        assert(all[n].0 <= x < all[n].1);
                    }
                }
            }
            assert(separated(all)) by {
                assert forall|i: int, j: int| 0 <= i < j < all.len() implies (#[trigger] all[i]).1
                    < (#[trigger] all[j]).0 by {
                    assert(kept[i].1 < kept[j].0);
                }
            }
            assert(ascending(all)) by {
                assert forall|i: int, j: int| 0 <= i < j < all.len() implies (#[trigger] all[i]).0
                    <= (#[trigger] all[j]).0 by {
                    assert(kept[i].0 <= kept[j].0);
                }
            }
        } else {
            assert forall|x: u64| covers(all, x) <==> covers(ranges, x) by {
                if covers(all, x) {
                    let i = choose|i: int| 0 <= i < all.len() && (#[trigger] all[i]).0 <= x < all[i].1;
                    if i < kept.len() {
                        assert(kept[i].0 <= x < kept[i].1);
                        assert(covers(init, x));
                        let j = choose|j: int|
                            0 <= j < init.len() && (#[trigger] init[j]).0 <= x < init[j].1;
                        assert(ranges[j].0 <= x < ranges[j].1);
                    } else {
                        assert(ranges[ranges.len() - 1].0 <= x < ranges[ranges.len() - 1].1);
                    }
                }
                if covers(ranges, x) {
                    let j = choose|j: int|
                        0 <= j < ranges.len() && (#[trigger] ranges[j]).0 <= x < ranges[j].1;
                    if j < init.len() {
                        assert(init[j].0 <= x < init[j].1);
                        assert(covers(init, x));
                        assert(covers(kept, x));
                        let i = choose|i: int|
                            0 <= i < kept.len() && (#[trigger] kept[i]).0 <= x < kept[i].1;
                        assert(all[i].0 <= x < all[i].1);
                    } else {
                        assert(all[all.len() - 1].0 <= x < all[all.len() - 1].1);
                    }
                }
            }
            assert(separated(all)) by {
                assert forall|i: int, j: int| 0 <= i < j < all.len() implies (#[trigger] all[i]).1
                    < (#[trigger] all[j]).0 by {
                    if j < kept.len() {
                        assert(kept[i].1 < kept[j].0);
                    } else if i < kept.len() - 1 {
                        assert(kept[i].1 < kept[kept.len() - 1].0);
                    }
                }
            }
            assert(ascending(all)) by {
                assert forall|i: int, j: int| 0 <= i < j < all.len() implies (#[trigger] all[i]).0
                    <= (#[trigger] all[j]).0 by {
                    if j < kept.len() {
                        assert(kept[i].0 <= kept[j].0);
                    } else if i < kept.len() - 1 {
                        assert(kept[i].0 <= kept[kept.len() - 1].0);
                    }
                }
            }
        }
    }
}

/// Two lists with the same ranges, in whatever order, cover the same.
pub proof fn lemma_covers_same(a: Seq<(u64, u64)>, b: Seq<(u64, u64)>)
    requires
        a.to_multiset() == b.to_multiset(),
    ensures
        forall|x: u64| covers(a, x) <==> covers(b, x),
{
    broadcast use vstd::seq_lib::group_to_multiset_ensures;

    assert forall|x: u64| covers(a, x) <==> covers(b, x) by {
        if covers(a, x) {
            let i = choose|i: int| 0 <= i < a.len() && (#[trigger] a[i]).0 <= x < a[i].1;
            assert(a.contains(a[i]));
            assert(b.to_multiset().count(a[i]) > 0);
            assert(b.contains(a[i]));
            let j = choose|j: int| 0 <= j < b.len() && b[j] == a[i];
            assert(b[j].0 <= x < b[j].1);
        }
        if covers(b, x) {
            let i = choose|i: int| 0 <= i < b.len() && (#[trigger] b[i]).0 <= x < b[i].1;
            assert(b.contains(b[i]));
            assert(a.to_multiset().count(b[i]) > 0);
            assert(a.contains(b[i]));
            let j = choose|j: int| 0 <= j < a.len() && a[j] == b[i];
            assert(a[j].0 <= x < a[j].1);
        }
    }
}

/// What the normal form of a list of ranges is: separated, ascending, and
/// covering what the list covered.
pub proof fn lemma_normalized(ranges: Seq<(u64, u64)>)
    ensures
        separated(normalized(ranges)),
        ascending(normalized(ranges)),
        forall|x: u64| covers(normalized(ranges), x) <==> covers(ranges, x),
        normalized(ranges).len() == 0 <==> ranges.len() == 0,
{
    lemma_range_leq_total();
    ranges.lemma_sort_by_ensures(range_leq());
    let sorted = ranges.sort_by(range_leq());
    lemma_merged(sorted);
    lemma_covers_same(ranges, sorted);
    broadcast use vstd::seq_lib::group_to_multiset_ensures;

    assert(sorted.len() == ranges.len()) by {
        assert(sorted.to_multiset().len() == ranges.to_multiset().len());
    }
}

/// A list with one more range covers what it covered and that range.
pub proof fn lemma_covers_push(ranges: Seq<(u64, u64)>, range: (u64, u64))
    ensures
        forall|x: u64|
            covers(ranges.push(range), x) <==> covers(ranges, x) || range.0 <= x < range.1,
{
    let added = ranges.push(range);
    assert forall|x: u64| covers(added, x) <==> covers(ranges, x) || range.0 <= x < range.1 by {
        if covers(added, x) {
            let i = choose|i: int| 0 <= i < added.len() && (#[trigger] added[i]).0 <= x < added[i].1;
            if i < ranges.len() {
                assert(ranges[i].0 <= x < ranges[i].1);
            }
        }
        if covers(ranges, x) {
            let i = choose|i: int|
                0 <= i < ranges.len() && (#[trigger] ranges[i]).0 <= x < ranges[i].1;
            assert(added[i].0 <= x < added[i].1);
        }
        if range.0 <= x < range.1 {
            assert(added[ranges.len() as int].0 <= x < added[ranges.len() as int].1);
        }
    }
}

/// The list after the ranges of `ranges` were completed, one after another,
/// on top of `collected`: each one joins the list, which is then put in
/// order and merged.
pub open spec fn completed_all(collected: Seq<(u64, u64)>, ranges: Seq<(u64, u64)>) -> Seq<
    (u64, u64),
>
    decreases ranges.len(),
{
    if ranges.len() == 0 {
        collected
    } else {
        normalized(completed_all(collected, ranges.drop_last()).push(ranges.last()))
    }
}

/// After any number of completions the list is in order, its ranges are
/// separated, and it covers what it covered at first and what was completed,
/// and nothing else.
pub proof fn lemma_completed_all(collected: Seq<(u64, u64)>, ranges: Seq<(u64, u64)>)
    requires
        ranges.len() > 0 || (separated(collected) && ascending(collected)),
    ensures
        separated(completed_all(collected, ranges)),
        ascending(completed_all(collected, ranges)),
        forall|x: u64|
            covers(completed_all(collected, ranges), x) <==> covers(collected, x) || covers(
                ranges,
                x,
            ),
    decreases ranges.len(),
{
    if ranges.len() > 0 {
        let init = ranges.drop_last();
        let so_far = completed_all(collected, init);
        lemma_normalized(so_far.push(ranges.last()));
        lemma_covers_push(so_far, ranges.last());
        lemma_covers_push(init, ranges.last());
        assert(init.push(ranges.last()) == ranges);
        if init.len() > 0 {
            lemma_completed_all(collected, init);
        } else {
            assert forall|x: u64| !covers(init, x) by {}
        }
    } else {
        assert forall|x: u64| !covers(ranges, x) by {}
    }
}

/// A list as completions leave it when no range is turned round: each range
/// starts at or before its end, and ends before the ranges behind it start.
pub open spec fn proper(ranges: Seq<(u64, u64)>) -> bool {
    &&& separated(ranges)
    &&& forall|i: int| 0 <= i < ranges.len() ==> (#[trigger] ranges[i]).0 <= ranges[i].1
}

/// Merging changes nothing in a proper list.
pub proof fn lemma_merged_proper(ranges: Seq<(u64, u64)>)
    requires
        proper(ranges),
    ensures
        merged(ranges) == ranges,
    decreases ranges.len(),
{
    if ranges.len() > 0 {
        let init = ranges.drop_last();
        assert(proper(init)) by {
            assert forall|i: int, j: int| 0 <= i < j < init.len() implies (#[trigger] init[i]).1 < (
            #[trigger] init[j]).0 by {
                assert(ranges[i].1 < ranges[j].0);
            }
            assert forall|i: int| 0 <= i < init.len() implies (#[trigger] init[i]).0
                <= init[i].1 by {
                assert(ranges[i].0 <= ranges[i].1);
            }
        }
        lemma_merged_proper(init);
        if init.len() > 0 {
            assert(ranges[init.len() - 1].1 < ranges[ranges.len() - 1].0);
        }
        assert(merged(ranges) =~= ranges);
    } else {
        assert(merged(ranges) =~= ranges);
    }
}

/// The normal form of a list is the merge of any list that holds the same
/// ranges in order.
pub proof fn lemma_normalized_of_sorted(ranges: Seq<(u64, u64)>, sorted: Seq<(u64, u64)>)
    requires
        sorted_by(sorted, range_leq()),
        sorted.to_multiset() == ranges.to_multiset(),
    ensures
        normalized(ranges) == merged(sorted),
{
    lemma_range_leq_total();
    ranges.lemma_sort_by_ensures(range_leq());
    lemma_sorted_unique(sorted, ranges.sort_by(range_leq()), range_leq());
}

/// Recording a range that begins where the last range of a proper list ends
/// lengthens the last range, and nothing else changes.
pub proof fn lemma_record_onward(ranges: Seq<(u64, u64)>, start: u64, end: u64)
    requires
        proper(ranges),
        ranges.len() > 0,
        start == ranges.last().1,
        start <= end,
    ensures
        normalized(ranges.push((start, end))) == ranges.update(
            ranges.len() - 1,
            (ranges.last().0, end),
        ),
        proper(normalized(ranges.push((start, end)))),
{
    let k = ranges.len() as int;
    let added = ranges.push((start, end));
    let leq = range_leq();
    assert(sorted_by(added, leq)) by {
        assert forall|i: int, j: int| 0 <= i < j < added.len() implies #[trigger] leq(
            added[i],
            added[j],
        ) by {
            if j < k {
                assert(ranges[i].0 <= ranges[i].1 && ranges[i].1 < ranges[j].0);
            } else if i < k - 1 {
                assert(ranges[i].0 <= ranges[i].1 && ranges[i].1 < ranges[k - 1].0);
                assert(ranges[k - 1].0 <= ranges[k - 1].1);
            } else {
                assert(ranges[k - 1].0 <= ranges[k - 1].1);
            }
        }
    }
    lemma_normalized_of_sorted(added, added);
    lemma_merged_proper(ranges);
    assert(added.drop_last() == ranges);
    let after = ranges.update(k - 1, (ranges.last().0, end));
    assert(merged(added) =~= after);
    assert(proper(after)) by {
        assert forall|i: int, j: int| 0 <= i < j < after.len() implies (#[trigger] after[i]).1 < (
        #[trigger] after[j]).0 by {
            assert(ranges[i].1 < ranges[j].0);
        }
        assert forall|i: int| 0 <= i < after.len() implies (#[trigger] after[i]).0
            <= after[i].1 by {
            assert(ranges[i].0 <= ranges[i].1);
        }
    }
}

/// Recording a range that lies before the last range of a proper list, and
/// begins where the range before that one ends if there is one, leaves the
/// end of the last range as it was. Where the range stops short of the last
/// range, the gap before the last range begins at its end.
pub proof fn lemma_record_past(ranges: Seq<(u64, u64)>, start: u64, end: u64)
    requires
        proper(ranges),
        ranges.len() > 0,
        start <= end <= ranges.last().0,
        ranges.len() >= 2 ==> start == ranges[ranges.len() - 2].1,
    ensures
        normalized(ranges.push((start, end))).len() > 0,
        normalized(ranges.push((start, end))).last().1 == ranges.last().1,
        proper(normalized(ranges.push((start, end)))),
        end < ranges.last().0 ==> {
            &&& normalized(ranges.push((start, end))).len() >= 2
            &&& normalized(ranges.push((start, end))).last() == ranges.last()
            &&& normalized(ranges.push((start, end)))[normalized(
                ranges.push((start, end)),
            ).len() - 2].1 == end
        },
{
    let k = ranges.len() as int;
    let last = ranges.last();
    let head = ranges.take(k - 1);
    let middle = head.push((start, end));
    let sorted = middle.push(last);
    let leq = range_leq();
    assert(proper(head)) by {
        assert forall|i: int, j: int| 0 <= i < j < head.len() implies (#[trigger] head[i]).1 < (
        #[trigger] head[j]).0 by {
            assert(ranges[i].1 < ranges[j].0);
        }
        assert forall|i: int| 0 <= i < head.len() implies (#[trigger] head[i]).0
            <= head[i].1 by {
            assert(ranges[i].0 <= ranges[i].1);
        }
    }
    assert(ranges[k - 1].0 <= ranges[k - 1].1);
    assert(sorted_by(sorted, leq)) by {
        assert forall|i: int, j: int| 0 <= i < j < sorted.len() implies #[trigger] leq(
            sorted[i],
            sorted[j],
        ) by {
            if i < k - 1 {
                assert(ranges[i].0 <= ranges[i].1);
                if i < k - 2 {
                    assert(ranges[i].1 < ranges[k - 2].0);
                    assert(ranges[k - 2].0 <= ranges[k - 2].1);
                }
                assert(ranges[i].1 < ranges[k - 1].0);
            }
        }
    }
    assert(sorted.to_multiset() == ranges.push((start, end)).to_multiset()) by {
        assert(sorted =~= ranges.insert(k - 1, (start, end)));
        to_multiset_insert(ranges, k - 1, (start, end));
        to_multiset_build(ranges, (start, end));
    }
    lemma_normalized_of_sorted(ranges.push((start, end)), sorted);
    assert(sorted.drop_last() == middle);
    assert(middle.drop_last() == head);
    lemma_merged_proper(head);
    let joined = merged(middle);
    if k >= 2 {
        assert(head[k - 2] == ranges[k - 2]);
        assert(joined =~= head.update(k - 2, (ranges[k - 2].0, end)));
    } else {
        assert(joined =~= seq![(start, end)]);
    }
    assert(joined.len() > 0 && joined.last().1 == end);
    let all = merged(sorted);
    if end < last.0 {
        assert(all =~= joined.push(last));
    } else {
        assert(all =~= joined.update(joined.len() - 1, (joined.last().0, last.1)));
    }
    assert(proper(all)) by {
        assert forall|i: int, j: int| 0 <= i < j < all.len() implies (#[trigger] all[i]).1 < (
        #[trigger] all[j]).0 by {
            if j < k - 1 {
                assert(ranges[i].1 < ranges[j].0);
            } else if i < k - 2 {
                assert(ranges[i].1 < ranges[k - 2].0);
                assert(ranges[k - 2].0 <= ranges[k - 2].1);
                assert(ranges[k - 2].1 < ranges[k - 1].0);
            }
        }
        assert forall|i: int| 0 <= i < all.len() implies (#[trigger] all[i]).0 <= all[i].1 by {
            if i < k - 1 {
                assert(ranges[i].0 <= ranges[i].1);
            }
        }
    }
}

fn range_before(a: (u64, u64), b: (u64, u64)) -> (before: bool)
    ensures
        before == range_leq()(a, b),
{
    a.0 < b.0 || (a.0 == b.0 && a.1 <= b.1)
}

/// The ranges in order of start and, where the starts agree, of end.
pub fn sort_ranges(ranges: &Vec<(u64, u64)>) -> (sorted: Vec<(u64, u64)>)
    ensures
        sorted@ == ranges@.sort_by(range_leq()),
{
    let ghost leq = range_leq();
    let mut sorted: Vec<(u64, u64)> = Vec::new();
    let mut i: usize = 0;
    proof {
        lemma_range_leq_total();
        assert(sorted@ =~= ranges@.take(0));
    }
    while i < ranges.len()
        invariant
            i <= ranges.len(),
            leq == range_leq(),
            total_ordering(leq),
            sorted_by(sorted@, leq),
            sorted@.len() == i,
            sorted@.to_multiset() == ranges@.take(i as int).to_multiset(),
        decreases ranges.len() - i,
    {
        let next = ranges[i];
        let mut at: usize = 0;
        while at < sorted.len() && range_before(sorted[at], next)
            invariant
                at <= sorted.len(),
                leq == range_leq(),
                forall|k: int| 0 <= k < at ==> #[trigger] leq(sorted@[k], next),
            decreases sorted.len() - at,
        {
            at += 1;
        }
        let ghost before = sorted@;
        sorted.insert(at, next);
        proof {
            to_multiset_insert(before, at as int, next);
            to_multiset_build(ranges@.take(i as int), next);
            assert(ranges@.take(i as int).push(next) == ranges@.take(i + 1));
            assert forall|j: int, k: int| 0 <= j < k < sorted@.len() implies #[trigger] leq(
                sorted@[j],
                sorted@[k],
            ) by {
                if k < at {
                    assert(leq(before[j], before[k]));
                } else if k == at {
                    assert(leq(before[j], next));
                } else if j < at {
                    assert(leq(before[j], before[k - 1]));
                } else if j == at {
                    assert(!leq(before[at as int], next));
                    if k - 1 > at {
                        assert(leq(before[at as int], before[k - 1]));
                    }
                } else {
                    assert(leq(before[j - 1], before[k - 1]));
                }
            }
        }
        i += 1;
    }
    proof {
        assert(ranges@.take(i as int) == ranges@);
        ranges@.lemma_sort_by_ensures(leq);
        lemma_sorted_unique(sorted@, ranges@.sort_by(leq), leq);
    }
    sorted
}

/// The fold that merges, on a list in order.
pub fn merge_ranges(ranges: &Vec<(u64, u64)>) -> (kept: Vec<(u64, u64)>)
    ensures
        kept@ == merged(ranges@),
{
    let mut kept: Vec<(u64, u64)> = Vec::new();
    let mut i: usize = 0;
    while i < ranges.len()
        invariant
            i <= ranges.len(),
            kept@ == merged(ranges@.take(i as int)),
        decreases ranges.len() - i,
    {
        let next = ranges[i];
        proof {
            assert(ranges@.take(i + 1).drop_last() == ranges@.take(i as int));
        }
        let n = kept.len();
        if n > 0 && next.0 <= kept[n - 1].1 {
            let last = kept[n - 1];
            let end = if last.1 >= next.1 {
                last.1
            } else {
                next.1
            };
            kept[n - 1] = (last.0, end);
        } else {
            kept.push(next);
        }
        i += 1;
    }
    assert(ranges@.take(i as int) == ranges@);
    kept
}

} // verus!
