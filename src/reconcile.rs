use vstd::prelude::*;
use crate::entity::{views, EntityView, PiiEntity};

verus! {

broadcast use vstd::seq_lib::group_seq_properties;

/// `s` with `x` placed after every entity that starts at or before it and
/// before every entity that starts after it.
pub open spec fn insert_by_start(s: Seq<EntityView>, x: EntityView) -> Seq<EntityView>
    decreases s.len(),
{
    if s.len() == 0 {
        seq![x]
    } else if s.last().start <= x.start {
        s.push(x)
    } else {
        insert_by_start(s.drop_last(), x).push(s.last())
    }
}

/// `s` sorted ascending by `start`; entities with equal `start` keep their
/// relative order.
pub open spec fn sort_by_start(s: Seq<EntityView>) -> Seq<EntityView>
    decreases s.len(),
{
    if s.len() == 0 {
        seq![]
    } else {
        insert_by_start(sort_by_start(s.drop_last()), s.last())
    }
}

/// Walks `s` from left to right and keeps an entity only when it starts at or
/// after the end of the last entity kept.
pub open spec fn drop_overlaps(s: Seq<EntityView>) -> Seq<EntityView>
    decreases s.len(),
{
    if s.len() == 0 {
        seq![]
    } else {
        let acc = drop_overlaps(s.drop_last());
        let x = s.last();
        if acc.len() > 0 && x.start < acc.last().end {
            acc
        } else {
            acc.push(x)
        }
    }
}

/// The reconciled set of a list of detected entities.
pub open spec fn reconciled(s: Seq<EntityView>) -> Seq<EntityView> {
    drop_overlaps(sort_by_start(s))
}

/// Ranges of `s` are pairwise disjoint and ascending.
pub open spec fn disjoint_ascending(s: Seq<EntityView>) -> bool {
    forall|i: int, j: int|
        0 <= i < j < s.len() ==> #[trigger] s[i].end <= #[trigger] s[j].start && s[i].start <= s[j].start
}

/// Every entity of `s` has `start <= end`.
pub open spec fn spans_ordered(s: Seq<EntityView>) -> bool {
    forall|i: int| 0 <= i < s.len() ==> #[trigger] s[i].start <= s[i].end
}

proof fn lemma_insert_at(s: Seq<EntityView>, x: EntityView, p: int)
    requires
        0 <= p <= s.len(),
        p > 0 ==> s[p - 1].start <= x.start,
        forall|j: int| p <= j < s.len() ==> #[trigger] s[j].start > x.start,
    ensures
        insert_by_start(s, x) == s.insert(p, x),
    decreases s.len(),
{
    if s.len() == 0 {
        assert(s.insert(p, x) =~= seq![x]);
    } else if p == s.len() {
        assert(s.insert(p, x) =~= s.push(x));
    } else {
        assert(s.last().start > x.start);
        lemma_insert_at(s.drop_last(), x, p);
        assert(s.insert(p, x) =~= s.drop_last().insert(p, x).push(s.last()));
    }
}

proof fn lemma_drop_overlaps_keeps_ordered(s: Seq<EntityView>)
    requires
        spans_ordered(s),
    ensures
        spans_ordered(drop_overlaps(s)),
        disjoint_ascending(drop_overlaps(s)),
    decreases s.len(),
{
    if s.len() > 0 {
        let pre = s.drop_last();
        assert(spans_ordered(pre)) by {
            assert forall|i: int| 0 <= i < pre.len() implies #[trigger] pre[i].start <= pre[i].end by {
                assert(pre[i] == s[i]);
            }
        }
        lemma_drop_overlaps_keeps_ordered(pre);
        let acc = drop_overlaps(pre);
        let x = s.last();
        assert(x.start <= x.end) by {
            assert(s[s.len() - 1].start <= s[s.len() - 1].end);
        }
        if !(acc.len() > 0 && x.start < acc.last().end) {
            let r = acc.push(x);
            assert forall|i: int, j: int| 0 <= i < j < r.len() implies #[trigger] r[i].end <= #[trigger] r[j].start
                && r[i].start <= r[j].start by {
                if j == acc.len() as int && i < acc.len() - 1 {
                    assert(acc[i].end <= acc[acc.len() - 1].start);
                    assert(acc[acc.len() - 1].start <= acc[acc.len() - 1].end);
                    assert(acc[i].start <= acc[i].end);
                }
            }
            assert forall|i: int| 0 <= i < r.len() implies #[trigger] r[i].start <= r[i].end by {
                if i < acc.len() {
                    assert(r[i] == acc[i]);
                }
            }
        }
    }
}

/// Law: in the reconciled set no two ranges intersect, and the ranges are
/// ascending by `start`.
pub proof fn lemma_reconciled_disjoint(s: Seq<EntityView>)
    requires
        spans_ordered(s),
    ensures
        disjoint_ascending(reconciled(s)),
{
    lemma_sort_keeps_ordered(s);
    lemma_drop_overlaps_keeps_ordered(sort_by_start(s));
}

proof fn lemma_insert_keeps_ordered(s: Seq<EntityView>, x: EntityView)
    requires
        spans_ordered(s),
        x.start <= x.end,
    ensures
        spans_ordered(insert_by_start(s, x)),
    decreases s.len(),
{
    if s.len() > 0 && s.last().start > x.start {
        let pre = s.drop_last();
        assert(spans_ordered(pre)) by {
            assert forall|i: int| 0 <= i < pre.len() implies #[trigger] pre[i].start <= pre[i].end by {
                assert(pre[i] == s[i]);
            }
        }
        lemma_insert_keeps_ordered(pre, x);
        assert(s[s.len() - 1].start <= s[s.len() - 1].end);
    }
}

proof fn lemma_sort_keeps_ordered(s: Seq<EntityView>)
    requires
        spans_ordered(s),
    ensures
        spans_ordered(sort_by_start(s)),
    decreases s.len(),
{
    if s.len() > 0 {
        let pre = s.drop_last();
        assert(spans_ordered(pre)) by {
            assert forall|i: int| 0 <= i < pre.len() implies #[trigger] pre[i].start <= pre[i].end by {
                assert(pre[i] == s[i]);
            }
        }
        lemma_sort_keeps_ordered(pre);
        assert(s[s.len() - 1].start <= s[s.len() - 1].end);
        lemma_insert_keeps_ordered(sort_by_start(pre), s.last());
    }
}

/// Sorts the entities ascending by `start`, keeping the given order among
/// entities that start at the same offset.
pub fn sort_entities(entities: Vec<PiiEntity>) -> (r: Vec<PiiEntity>)
    ensures
        views(r@) == sort_by_start(views(entities@)),
{
    let ghost all = views(entities@);
    let mut input = entities;
    let mut sorted: Vec<PiiEntity> = Vec::new();
    let ghost k: int = 0;
    while input.len() > 0
        invariant
            0 <= k <= all.len(),
            views(input@) == all.subrange(k, all.len() as int),
            views(sorted@) == sort_by_start(all.subrange(0, k)),
        decreases input.len(),
    {
        let ghost before = input@;
        assert(views(before).len() == before.len());
        assert(views(before)[0] == before[0]@);
        assert(k < all.len());
        assert(all.subrange(k, all.len() as int)[0] == all[k]);
        let x = input.remove(0);
        let ghost s = views(sorted@);
        assert(x@ == all[k]);
        let mut p: usize = sorted.len();
        while p > 0 && sorted[p - 1].start > x.start
            invariant
                0 <= p <= sorted.len(),
                s == views(sorted@),
                forall|j: int| p <= j < s.len() ==> #[trigger] s[j].start > x.start,
            decreases p,
        {
            p = p - 1;
        }
        proof {
            lemma_insert_at(s, x@, p as int);
            assert(all.subrange(0, k + 1).drop_last() =~= all.subrange(0, k));
            assert(all.subrange(k + 1, all.len() as int) =~= all.subrange(k, all.len() as int).drop_first());
        }
        sorted.insert(p, x);
        proof {
            assert(views(sorted@) =~= s.insert(p as int, x@));
            k = k + 1;
        }
        assert(views(input@) =~= all.subrange(k, all.len() as int));
    }
    assert(all.subrange(0, k) =~= all);
    sorted
}

/// Keeps, walking left to right, each entity that starts at or after the end
/// of the last one kept.
pub fn drop_overlapping(entities: Vec<PiiEntity>) -> (r: Vec<PiiEntity>)
    ensures
        views(r@) == drop_overlaps(views(entities@)),
{
    let ghost all = views(entities@);
    let mut input = entities;
    let mut kept: Vec<PiiEntity> = Vec::new();
    let ghost k: int = 0;
    while input.len() > 0
        invariant
            0 <= k <= all.len(),
            views(input@) == all.subrange(k, all.len() as int),
            views(kept@) == drop_overlaps(all.subrange(0, k)),
        decreases input.len(),
    {
        let ghost before = input@;
        assert(views(before).len() == before.len());
        assert(views(before)[0] == before[0]@);
        assert(k < all.len());
        assert(all.subrange(k, all.len() as int)[0] == all[k]);
        let x = input.remove(0);
        let ghost acc = views(kept@);
        assert(x@ == all[k]);
        proof {
            assert(all.subrange(0, k + 1).drop_last() =~= all.subrange(0, k));
            assert(all.subrange(k + 1, all.len() as int) =~= all.subrange(k, all.len() as int).drop_first());
        }
        let n = kept.len();
        if n > 0 && x.start < kept[n - 1].end {
            assert(acc.last() == kept@[n - 1]@);
        } else {
            if n > 0 {
                assert(acc.last() == kept@[n - 1]@);
            }
            kept.push(x);
            assert(views(kept@) =~= acc.push(x@));
        }
        proof {
            k = k + 1;
        }
        assert(views(input@) =~= all.subrange(k, all.len() as int));
    }
    assert(all.subrange(0, k) =~= all);
    kept
}

/// Merges entities from all detectors into one ascending, non-overlapping
/// sequence: a stable sort by `start`, then leftmost-wins overlap removal.
pub fn reconcile(entities: Vec<PiiEntity>) -> (r: Vec<PiiEntity>)
    ensures
        views(r@) == reconciled(views(entities@)),
{
    drop_overlapping(sort_entities(entities))
}

} // verus!
