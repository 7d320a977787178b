//! The segment store: the integer-level DAG as runs of ids.
//!
//! A segment `low..=high` says that `low` has the parents listed with it, and
//! that every later id of the run has the id right before it as its only
//! parent, so a long linear history takes one segment.

use vstd::prelude::*;

use crate::error::DagError;
use crate::id::{group_max, group_min, group_of, Group, Id, NON_MASTER_MIN};
use crate::idmap::IdMap;
use crate::resolver::ParentResolver;

verus! {

/// A run of ids `low..=high`; `parents` are the parents of `low`.
pub struct Segment {
    pub low: Id,
    pub high: Id,
    pub parents: Vec<Id>,
}

/// A segment as plain values: low, high, parents of low.
pub type SegmentView = (u64, u64, Seq<u64>);

pub open spec fn segment_view(s: Segment) -> SegmentView {
    (s.low, s.high, s.parents@)
}

pub open spec fn segments_view(s: Seq<Segment>) -> Seq<SegmentView> {
    s.map_values(|x: Segment| segment_view(x))
}

/// Whether segment `s` holds `i`.
pub open spec fn seg_holds(s: SegmentView, i: int) -> bool {
    s.0 <= i <= s.1
}

/// The parents that segment `s` gives to an id `i` it holds.
pub open spec fn seg_parents(s: SegmentView, i: int) -> Seq<u64> {
    if i == s.0 {
        s.2
    } else {
        seq![(i - 1) as u64]
    }
}

/// The parents of `i` in a list of segments: the last segment that holds
/// `i` decides.
pub open spec fn seg_lookup(segs: Seq<SegmentView>, i: int) -> Option<Seq<u64>>
    decreases segs.len(),
{
    if segs.len() == 0 {
        None
    } else if seg_holds(segs.last(), i) {
        Some(seg_parents(segs.last(), i))
    } else {
        seg_lookup(segs.drop_last(), i)
    }
}

/// Segments in increasing order of ids, none overlapping.
pub open spec fn segs_sorted(segs: Seq<SegmentView>) -> bool {
    &&& forall|k: int| 0 <= k < segs.len() ==> (#[trigger] segs[k]).0 <= segs[k].1
    &&& forall|a: int, b: int| 0 <= a < b < segs.len() ==> (#[trigger] segs[a]).1 < (#[trigger] segs[b]).0
}

proof fn lemma_lookup_holding(segs: Seq<SegmentView>, k: int, i: int)
    requires
        segs_sorted(segs),
        0 <= k < segs.len(),
        seg_holds(segs[k], i),
    ensures
        seg_lookup(segs, i) == Some(seg_parents(segs[k], i)),
    decreases segs.len(),
{
    if k < segs.len() - 1 {
        let l = segs.len() - 1;
        assert(segs[k].1 < segs[l].0);
        assert(segs.drop_last()[k] == segs[k]);
        assert(segs_sorted(segs.drop_last())) by {
            assert forall|a: int, b: int| 0 <= a < b < segs.drop_last().len() implies (
            #[trigger] segs.drop_last()[a]).1 < (#[trigger] segs.drop_last()[b]).0 by {
                assert(segs[a].1 < segs[b].0);
            }
        }
        lemma_lookup_holding(segs.drop_last(), k, i);
    }
}

proof fn lemma_lookup_some(segs: Seq<SegmentView>, i: int)
    requires
        seg_lookup(segs, i) is Some,
    ensures
        exists|k: int| 0 <= k < segs.len() && seg_holds(#[trigger] segs[k], i),
    decreases segs.len(),
{
    if !seg_holds(segs.last(), i) {
        lemma_lookup_some(segs.drop_last(), i);
        let k = choose|k: int| 0 <= k < segs.drop_last().len() && seg_holds(
            #[trigger] segs.drop_last()[k],
            i,
        );
        assert(segs[k] == segs.drop_last()[k]);
    } else {
        assert(seg_holds(segs[segs.len() - 1], i));
    }
}

/// Segments of group `g` that cover `[min, next)`: sorted inside that range,
/// every id of it covered, and every parent smaller than its child.
pub open spec fn list_wf(segs: Seq<SegmentView>, g: Group, next: int) -> bool {
    &&& group_min(g) <= next <= group_max(g)
    &&& segs_sorted(segs)
    &&& forall|k: int|
        0 <= k < segs.len() ==> group_min(g) <= (#[trigger] segs[k]).0 && segs[k].1 < next
    &&& forall|i: int| group_min(g) <= i < next ==> (#[trigger] seg_lookup(segs, i)) is Some
    &&& forall|k: int, j: int|
        0 <= k < segs.len() && 0 <= j < segs[k].2.len() ==> (#[trigger] segs[k].2[j]) < segs[k].0
}

/// Whether every id of `ps` is below `i`.
fn all_below(ps: &Vec<Id>, i: Id) -> (r: bool)
    ensures
        r == forall|k: int| 0 <= k < ps@.len() ==> ps@[k] < i,
{
    let mut j: usize = 0;
    while j < ps.len()
        invariant
            j <= ps@.len(),
            forall|k: int| 0 <= k < j ==> ps@[k] < i,
        decreases ps@.len() - j,
    {
        if ps[j] >= i {
            return false;
        }
        j = j + 1;
    }
    true
}

/// Covers the ids from `*next` through `high` of group `g`, asking `map` and
/// `res` for the parents of each.
fn extend_list<R: ParentResolver>(
    segs: &mut Vec<Segment>,
    next: &mut Id,
    g: Group,
    high: Id,
    map: &IdMap,
    res: &R,
) -> (r: Result<(), DagError>)
    requires
        map.wf(),
        list_wf(segments_view(old(segs)@), g, *old(next) as int),
        group_min(g) <= high < group_max(g),
    ensures
        list_wf(segments_view(final(segs)@), g, *final(next) as int),
        *old(next) <= *final(next),
        forall|i: int|
            group_min(g) <= i < *old(next) ==> #[trigger] seg_lookup(segments_view(final(segs)@), i)
                == seg_lookup(segments_view(old(segs)@), i),
        forall|i: int|
            *old(next) <= i < *final(next) ==> #[trigger] seg_lookup(segments_view(final(segs)@), i)
                == Some(map.derived_parents(res, i)),
        r is Ok ==> *final(next) as int == if *old(next) > high {
            *old(next) as int
        } else {
            high + 1
        },
        *old(next) > high ==> r is Ok && *final(segs) == *old(segs) && *final(next) == *old(next),
        (forall|i: int| *old(next) <= i <= high ==> #[trigger] map.id_ready(res, i)) ==> r is Ok,
        r matches Err(e) ==> e != DagError::Contention,
        forall|i: int|
            *old(next) <= i < *final(next) && i > group_min(g) && map.derived_parents(res, i)
                == seq![(i - 1) as u64] ==> forall|k: int|
                0 <= k < segments_view(final(segs)@).len() ==> (#[trigger] segments_view(
                    final(segs)@,
                )[k]).0 != i,
{
    if *next > high {
        return Ok(());
    }
    let ghost segs0 = segments_view(segs@);
    let ghost next0 = *next as int;
    let gmin = g.min_id();
    while *next <= high
        invariant
            map.wf(),
            group_min(g) <= high < group_max(g),
            gmin as int == group_min(g),
            list_wf(segments_view(segs@), g, *next as int),
            next0 <= *next,
            next0 > high ==> *next == next0,
            next0 <= high ==> *next <= high + 1,
            forall|i: int|
                group_min(g) <= i < next0 ==> #[trigger] seg_lookup(segments_view(segs@), i)
                    == seg_lookup(segs0, i),
            forall|i: int|
                next0 <= i < *next ==> #[trigger] seg_lookup(segments_view(segs@), i) == Some(
                    map.derived_parents(res, i),
                ),
            next0 == *old(next) as int,
            segs0 == segments_view(old(segs)@),
            next0 <= high,
            forall|i: int|
                next0 <= i < *next && i > group_min(g) && map.derived_parents(res, i) == seq![
                    (i - 1) as u64,
                ] ==> forall|k: int|
                    0 <= k < segments_view(segs@).len() ==> (#[trigger] segments_view(
                        segs@,
                    )[k]).0 != i,
        decreases high + 1 - *next,
    {
        let i = *next;
        let ps = match map.parent_ids(res, i) {
            Ok(ps) => ps,
            Err(e) => {
                proof {
                    if map.id_ready(res, i as int) {
                        let v = map.name_of(i as int)->Some_0;
                        assert forall|j: int| 0 <= j < res.parents_of(v).len() implies map.contains(
                            #[trigger] res.parents_of(v)[j],
                        ) by {
                            assert(map.parents_below(res, v));
                        }
                    }
                }
                return Err(e);
            },
        };
        if !all_below(&ps, i) {
            proof {
                if map.id_ready(res, i as int) {
                    let v = map.name_of(i as int)->Some_0;
                    map.lemma_name_of(i as int);
                    assert forall|k: int| 0 <= k < ps@.len() implies ps@[k] < i by {
                        assert(ps@[k] == map.id_of(res.parents_of(v)[k]) as u64);
                        assert(map.parents_below(res, v));
                        assert(map.id_of(res.parents_of(v)[k]) < map.id_of(v));
                    }
                }
            }
            return Err(DagError::Integrity);
        }
        let ghost before = segments_view(segs@);
        let linear = i > gmin && ps.len() == 1 && ps[0] == i - 1 && segs.len() > 0;
        if linear {
            proof {
                let x = i - 1;
                assert(seg_lookup(before, x as int) is Some);
                lemma_lookup_some(before, x as int);
                let k = choose|k: int| 0 <= k < before.len() && seg_holds(#[trigger] before[k], x as int);
                let l = before.len() - 1;
                if k < l {
                    assert(before[k].1 < before[l].0);
                }
                assert(before[l].1 == x);
            }
            let last = segs.pop().unwrap();
            let ghost lv = segment_view(last);
            proof {
                assert(before.last() == lv);
            }
            let ext = Segment { low: last.low, high: i, parents: last.parents };
            segs.push(ext);
            proof {
                let after = segments_view(segs@);
                assert(after.drop_last() =~= before.drop_last());
                assert(after.last() == (lv.0, i, lv.2));
                assert(forall|x: int| x < i ==> seg_lookup(after, x) == seg_lookup(before, x));
                assert(seg_lookup(after, i as int) == Some(seg_parents(after.last(), i as int)));
                assert(seg_parents(after.last(), i as int) =~= ps@);
                assert forall|k: int| 0 <= k < after.len() implies (#[trigger] after[k]).0 == before[k].0 && after[k].0 < i by {
                    if k < after.len() - 1 {
                        assert(after[k] == before[k]);
                    }
                }
                assert forall|x: int|
                    next0 <= x < i + 1 && x > group_min(g) && map.derived_parents(res, x) == seq![
                        (x - 1) as u64,
                    ] implies forall|k: int|
                    0 <= k < after.len() ==> (#[trigger] after[k]).0 != x by {
                    assert forall|k: int| 0 <= k < after.len() implies (#[trigger] after[k]).0 != x by {
                        assert(after[k].0 == before[k].0);
                        if x < i {
                            assert(before[k].0 != x);
                        }
                    }
                }
                assert(segs_sorted(after)) by {
                    assert forall|a: int, b: int| 0 <= a < b < after.len() implies (
                    #[trigger] after[a]).1 < (#[trigger] after[b]).0 by {
                        if b < after.len() - 1 {
                            assert(after[a] == before[a] && after[b] == before[b]);
                        } else {
                            assert(after[a] == before[a]);
                            assert(before[a].1 < before[b].0);
                        }
                    }
                    assert forall|k: int| 0 <= k < after.len() implies (#[trigger] after[k]).0 <= after[k].1 by {
                        if k < after.len() - 1 {
                            assert(after[k] == before[k]);
                        }
                    }
                }
                assert forall|k: int| 0 <= k < after.len() implies group_min(g) <= (
                #[trigger] after[k]).0 && after[k].1 < i + 1 by {
                    if k < after.len() - 1 {
                        assert(after[k] == before[k]);
                    }
                }
                assert forall|k: int, j: int|
                    0 <= k < after.len() && 0 <= j < after[k].2.len() implies (
                    #[trigger] after[k].2[j]) < after[k].0 by {
                    if k < after.len() - 1 {
                        assert(after[k] == before[k]);
                    } else {
                        assert(before[k].2[j] < before[k].0);
                    }
                }
            }
        } else {
            let ghost pv = ps@;
            let seg = Segment { low: i, high: i, parents: ps };
            segs.push(seg);
            proof {
                let after = segments_view(segs@);
                assert(after.drop_last() =~= before);
                assert(after.last() == (i, i, pv));
                if i > gmin && pv == seq![(i - 1) as u64] {
                    assert(seg_lookup(before, i - 1) is Some);
                    assert(before.len() > 0);
                    assert(pv.len() == 1 && pv[0] == i - 1);
                }
                assert forall|x: int|
                    next0 <= x < i + 1 && x > group_min(g) && map.derived_parents(res, x) == seq![
                        (x - 1) as u64,
                    ] implies forall|k: int|
                    0 <= k < after.len() ==> (#[trigger] after[k]).0 != x by {
                    assert forall|k: int| 0 <= k < after.len() implies (#[trigger] after[k]).0 != x by {
                        if x == i {
                            assert(pv == map.derived_parents(res, i as int));
                        } else if k < after.len() - 1 {
                            assert(after[k] == before[k]);
                            assert(before[k].0 != x);
                        }
                    }
                }
                assert(forall|x: int| x < i ==> seg_lookup(after, x) == seg_lookup(before, x));
                assert(seg_lookup(after, i as int) == Some(pv));
                assert(segs_sorted(after)) by {
                    assert forall|a: int, b: int| 0 <= a < b < after.len() implies (
                    #[trigger] after[a]).1 < (#[trigger] after[b]).0 by {
                        assert(after[a] == before[a]);
                        if b < after.len() - 1 {
                            assert(after[b] == before[b]);
                        }
                    }
                    assert forall|k: int| 0 <= k < after.len() implies (#[trigger] after[k]).0 <= after[k].1 by {
                        if k < after.len() - 1 {
                            assert(after[k] == before[k]);
                        }
                    }
                }
                assert forall|k: int| 0 <= k < after.len() implies group_min(g) <= (
                #[trigger] after[k]).0 && after[k].1 < i + 1 by {
                    if k < after.len() - 1 {
                        assert(after[k] == before[k]);
                    }
                }
                assert forall|k: int, j: int|
                    0 <= k < after.len() && 0 <= j < after[k].2.len() implies (
                    #[trigger] after[k].2[j]) < after[k].0 by {
                    if k < after.len() - 1 {
                        assert(after[k] == before[k]);
                    }
                }
            }
        }
        *next = i + 1;
    }
    Ok(())
}

/// The segments of both groups, and how far each group is covered.
pub struct SegmentStore {
    master: Vec<Segment>,
    non_master: Vec<Segment>,
    master_next: Id,
    non_master_next: Id,
}

impl SegmentStore {
    /// The segments of group `g`, in id order.
    pub closed spec fn segments(&self, g: Group) -> Seq<SegmentView> {
        match g {
            Group::Master => segments_view(self.master@),
            Group::NonMaster => segments_view(self.non_master@),
        }
    }

    /// The first id of `g` that no segment covers.
    pub closed spec fn next(&self, g: Group) -> int {
        match g {
            Group::Master => self.master_next as int,
            Group::NonMaster => self.non_master_next as int,
        }
    }

    /// The parents of `id` as the segments give them, or `None` where no
    /// segment covers `id`.
    pub open spec fn parents_at(&self, id: int) -> Option<Seq<u64>> {
        let g = group_of(id as u64);
        if 0 <= id && group_min(g) <= id < self.next(g) {
            seg_lookup(self.segments(g), id)
        } else {
            None
        }
    }

    /// Well-formed group: see `list_wf`.
    pub open spec fn group_wf(&self, g: Group) -> bool {
        list_wf(self.segments(g), g, self.next(g))
    }

    pub open spec fn wf(&self) -> bool {
        self.group_wf(Group::Master) && self.group_wf(Group::NonMaster)
    }

    /// Every covered id has parents, all smaller than itself.
    pub proof fn lemma_parents_smaller(&self, id: int)
        requires
            self.wf(),
            self.parents_at(id) is Some,
        ensures
            forall|j: int|
                0 <= j < self.parents_at(id)->Some_0.len() ==> (#[trigger] self.parents_at(
                    id,
                )->Some_0[j]) < id,
    {
        let g = group_of(id as u64);
        let segs = self.segments(g);
        lemma_lookup_some(segs, id);
        let k = choose|k: int| 0 <= k < segs.len() && seg_holds(#[trigger] segs[k], id);
        lemma_lookup_holding(segs, k, id);
        if id == segs[k].0 {
            assert forall|j: int| 0 <= j < segs[k].2.len() implies (#[trigger] segs[k].2[j]) < id by {
            }
        }
    }

    /// An empty store.
    pub fn new() -> (r: SegmentStore)
        ensures
            r.wf(),
            r.next(Group::Master) == group_min(Group::Master),
            r.next(Group::NonMaster) == group_min(Group::NonMaster),
    {
        let r = SegmentStore {
            master: Vec::new(),
            non_master: Vec::new(),
            master_next: 0,
            non_master_next: NON_MASTER_MIN,
        };
        assert(r.segments(Group::Master) =~= Seq::<SegmentView>::empty());
        assert(r.segments(Group::NonMaster) =~= Seq::<SegmentView>::empty());
        r
    }

    /// `p` walks from child to parent: each id is followed by one of its
    /// parents.
    pub open spec fn is_path(&self, p: Seq<u64>) -> bool {
        &&& p.len() >= 1
        &&& forall|k: int|
            0 <= k < p.len() - 1 ==> self.parents_at(#[trigger] p[k] as int) is Some
                && self.parents_at(p[k] as int)->Some_0.contains(p[k + 1])
    }

    /// `a` is `b` or an ancestor of `b`.
    pub open spec fn reaches(&self, b: u64, a: u64) -> bool {
        exists|p: Seq<u64>| #[trigger] self.is_path(p) && p[0] == b && p.last() == a
    }

    /// Ids along a path never grow.
    proof fn lemma_path_decreasing(&self, p: Seq<u64>)
        requires
            self.wf(),
            self.is_path(p),
        ensures
            p.last() <= p[0],
            p.len() > 1 ==> p.last() < p[0],
        decreases p.len(),
    {
        if p.len() > 1 {
            let q = p.drop_first();
            assert forall|k: int| 0 <= k < q.len() - 1 implies self.parents_at(#[trigger] q[k] as int) is Some
                && self.parents_at(q[k] as int)->Some_0.contains(q[k + 1]) by {
                assert(q[k] == p[k + 1] && q[k + 1] == p[k + 2]);
            }
            self.lemma_path_decreasing(q);
            assert(self.parents_at(p[0] as int) is Some);
            self.lemma_parents_smaller(p[0] as int);
            let ps = self.parents_at(p[0] as int)->Some_0;
            let j = choose|j: int| 0 <= j < ps.len() && ps[j] == p[1];
            assert(ps[j] < p[0]);
        }
    }

    /// Joins a path ending at `x` with a path starting at `x`.
    proof fn lemma_path_join(&self, p: Seq<u64>, q: Seq<u64>)
        requires
            self.is_path(p),
            self.is_path(q),
            p.last() == q[0],
        ensures
            self.is_path(p + q.drop_first()),
            (p + q.drop_first())[0] == p[0],
            (p + q.drop_first()).last() == q.last(),
    {
        let r = p + q.drop_first();
        assert forall|k: int| 0 <= k < r.len() - 1 implies self.parents_at(#[trigger] r[k] as int) is Some
            && self.parents_at(r[k] as int)->Some_0.contains(r[k + 1]) by {
            if k < p.len() - 1 {
                assert(r[k] == p[k] && r[k + 1] == p[k + 1]);
            } else {
                let i = k - p.len() + 1;
                assert(r[k] == q[i] && r[k + 1] == q[i + 1]);
            }
        }
        if q.len() == 1 {
            assert(r =~= p);
        }
    }

    /// Inside segment `k` of group `g`, the ids from `m` down to `x` form a path.
    proof fn lemma_run_path(&self, g: Group, k: int, m: u64, x: u64)
        requires
            self.wf(),
            0 <= k < self.segments(g).len(),
            self.segments(g)[k].0 <= x <= m <= self.segments(g)[k].1,
        ensures
            self.reaches(m, x),
    {
        let segs = self.segments(g);
        let p = Seq::new((m - x + 1) as nat, |i: int| (m - i) as u64);
        assert forall|i: int| 0 <= i < p.len() - 1 implies self.parents_at(#[trigger] p[i] as int) is Some
            && self.parents_at(p[i] as int)->Some_0.contains(p[i + 1]) by {
            let y = p[i] as int;
            lemma_lookup_holding(segs, k, y);
            assert(group_of(y as u64) == g);
            assert(seg_parents(segs[k], y) == seq![(y - 1) as u64]);
            assert(seg_parents(segs[k], y)[0] == p[i + 1]);
        }
        assert(self.is_path(p) && p[0] == m && p.last() == x);
    }

    /// A path that leaves segment `k` below its first id goes through one of
    /// the parents of that first id.
    proof fn lemma_leave_segment(&self, g: Group, k: int, p: Seq<u64>)
        requires
            self.wf(),
            0 <= k < self.segments(g).len(),
            self.is_path(p),
            self.segments(g)[k].0 <= p[0] <= self.segments(g)[k].1,
            p.last() < self.segments(g)[k].0,
        ensures
            exists|j: int|
                0 <= j < self.segments(g)[k].2.len() && self.reaches(
                    #[trigger] self.segments(g)[k].2[j],
                    p.last(),
                ),
        decreases p.len(),
    {
        let segs = self.segments(g);
        let m = p[0] as int;
        let q = p.drop_first();
        assert(p.len() > 1);
        assert forall|i: int| 0 <= i < q.len() - 1 implies self.parents_at(#[trigger] q[i] as int) is Some
            && self.parents_at(q[i] as int)->Some_0.contains(q[i + 1]) by {
            assert(q[i] == p[i + 1] && q[i + 1] == p[i + 2]);
        }
        lemma_lookup_holding(segs, k, m);
        assert(group_of(m as u64) == g);
        if m == segs[k].0 {
            let ps = segs[k].2;
            assert(self.parents_at(m) == Some(ps));
            let j = choose|j: int| 0 <= j < ps.len() && ps[j] == p[1];
            assert(self.is_path(q) && q[0] == ps[j] && q.last() == p.last());
        } else {
            assert(self.parents_at(m) == Some(seq![(m - 1) as u64]));
            assert(p[1] == m - 1);
            self.lemma_leave_segment(g, k, q);
        }
    }

    /// Whether a segment begins at `id`.
    pub open spec fn starts_segment(&self, id: int) -> bool {
        let segs = self.segments(group_of(id as u64));
        exists|k: int| 0 <= k < segs.len() && (#[trigger] segs[k]).0 == id
    }

    /// The first id of `g` that no segment covers.
    pub fn next_free_id(&self, g: Group) -> (r: Id)
        ensures
            r as int == self.next(g),
    {
        match g {
            Group::Master => self.master_next,
            Group::NonMaster => self.non_master_next,
        }
    }

    /// Index of the segment of `group_of(id)` that holds `id`.
    fn find_segment(&self, id: Id) -> (r: Option<usize>)
        requires
            self.wf(),
        ensures
            r matches Some(k) ==> k < self.segments(group_of(id)).len() && seg_holds(
                self.segments(group_of(id))[k as int],
                id as int,
            ) && self.parents_at(id as int) == Some(
                seg_parents(self.segments(group_of(id))[k as int], id as int),
            ),
            r is None ==> self.parents_at(id as int) is None,
    {
        let g = Group::of(id);
        let segs = match g {
            Group::Master => &self.master,
            Group::NonMaster => &self.non_master,
        };
        assert(segments_view(segs@) == self.segments(g));
        let ghost sv = self.segments(g);
        let mut i: usize = segs.len();
        while i > 0
            invariant
                i <= segs@.len(),
                self.wf(),
                g == group_of(id),
                sv == self.segments(g),
                sv == segments_view(segs@),
                forall|k: int| i <= k < sv.len() ==> !seg_holds(#[trigger] sv[k], id as int),
            decreases i,
        {
            let k = i - 1;
            if segs[k].low <= id && id <= segs[k].high {
                proof {
                    assert(sv[k as int] == segment_view(segs@[k as int]));
                    lemma_lookup_holding(sv, k as int, id as int);
                }
                return Some(k);
            }
            assert(sv[k as int] == segment_view(segs@[k as int]));
            i = k;
        }
        proof {
            if self.parents_at(id as int) is Some {
                lemma_lookup_some(sv, id as int);
            }
        }
        None
    }

    /// The parents of `id` as the segments give them, or `None` where no
    /// segment covers `id`.
    pub fn parent_ids(&self, id: Id) -> (r: Option<Vec<Id>>)
        requires
            self.wf(),
        ensures
            r matches Some(ps) ==> self.parents_at(id as int) == Some(ps@),
            r is None ==> self.parents_at(id as int) is None,
    {
        match self.find_segment(id) {
            Some(k) => {
                let seg = match Group::of(id) {
                    Group::Master => &self.master[k],
                    Group::NonMaster => &self.non_master[k],
                };
                if id == seg.low {
                    Some(copy_ids(&seg.parents))
                } else {
                    let mut v: Vec<Id> = Vec::new();
                    v.push(id - 1);
                    assert(v@ =~= seq![(id - 1) as u64]);
                    Some(v)
                }
            },
            None => None,
        }
    }

    /// The first and last id of the segment that holds `id`.
    pub fn segment_containing(&self, id: Id) -> (r: Option<(Id, Id)>)
        requires
            self.wf(),
        ensures
            r matches Some(b) ==> exists|k: int|
                0 <= k < self.segments(group_of(id)).len() && #[trigger] self.segments(
                    group_of(id),
                )[k] == (b.0, b.1, self.segments(group_of(id))[k].2) && b.0 <= id <= b.1,
            r is None ==> self.parents_at(id as int) is None,
    {
        match self.find_segment(id) {
            Some(k) => {
                let seg = match Group::of(id) {
                    Group::Master => &self.master[k],
                    Group::NonMaster => &self.non_master[k],
                };
                Some((seg.low, seg.high))
            },
            None => None,
        }
    }

    /// Extends the segments of `group_of(high)` so that every id from the
    /// group's first uncovered id through `high` is covered, with the parents
    /// that `map` and `res` give it. Ids covered before keep their parents; the
    /// other group is untouched. Nothing changes where `high` is covered already.
    pub fn build_segments_persistent<R: ParentResolver>(
        &mut self,
        high: Id,
        map: &IdMap,
        res: &R,
    ) -> (r: Result<(), DagError>)
        requires
            old(self).wf(),
            map.wf(),
            high < group_max(group_of(high)),
        ensures
            final(self).wf(),
            ({
                let g = group_of(high);
                &&& old(self).next(g) <= final(self).next(g)
                &&& forall|i: int|
                    group_min(g) <= i < old(self).next(g) ==> #[trigger] final(self).parents_at(i)
                        == old(self).parents_at(i)
                &&& forall|i: int|
                    old(self).next(g) <= i < final(self).next(g)
                        ==> #[trigger] final(self).parents_at(i) == Some(map.derived_parents(res, i))
                &&& r is Ok ==> final(self).next(g) == if old(self).next(g) > high {
                    old(self).next(g)
                } else {
                    high + 1
                }
                &&& old(self).next(g) > high ==> r is Ok && *final(self) == *old(self)
                &&& (forall|i: int| old(self).next(g) <= i <= high ==> #[trigger] map.id_ready(res, i))
                    ==> r is Ok
                &&& forall|i: int|
                    old(self).next(g) <= i < final(self).next(g) && i > group_min(g)
                        && map.derived_parents(res, i) == seq![(i - 1) as u64]
                        ==> !(#[trigger] final(self).starts_segment(i))
            }),
            r matches Err(e) ==> e != DagError::Contention,
            group_of(high) == Group::Master ==> final(self).segments(Group::NonMaster) == old(
                self,
            ).segments(Group::NonMaster) && final(self).next(Group::NonMaster) == old(self).next(
                Group::NonMaster,
            ),
            group_of(high) == Group::NonMaster ==> final(self).segments(Group::Master) == old(
                self,
            ).segments(Group::Master) && final(self).next(Group::Master) == old(self).next(
                Group::Master,
            ),
    {
        let g = Group::of(high);
        let r = match g {
            Group::Master => extend_list(&mut self.master, &mut self.master_next, g, high, map, res),
            Group::NonMaster => extend_list(
                &mut self.non_master,
                &mut self.non_master_next,
                g,
                high,
                map,
                res,
            ),
        };
        proof {
            assert forall|i: int|
                old(self).next(g) <= i < self.next(g) && i > group_min(g) && map.derived_parents(res, i)
                    == seq![(i - 1) as u64] implies !(#[trigger] self.starts_segment(i)) by {
                assert(group_of(i as u64) == g);
            }
            assert forall|i: int| group_min(g) <= i < old(self).next(g) implies #[trigger] self.parents_at(i)
                == old(self).parents_at(i) by {
                assert(group_of(i as u64) == g);
            }
            assert forall|i: int| old(self).next(g) <= i < self.next(g) implies #[trigger] self.parents_at(i)
                == Some(map.derived_parents(res, i)) by {
                assert(group_of(i as u64) == g);
            }
        }
        r
    }

    /// Drops every segment of the non-master group.
    pub fn clear_non_master(&mut self)
        requires
            old(self).wf(),
        ensures
            final(self).wf(),
            final(self).segments(Group::Master) == old(self).segments(Group::Master),
            final(self).next(Group::Master) == old(self).next(Group::Master),
            final(self).next(Group::NonMaster) == group_min(Group::NonMaster),
            final(self).segments(Group::NonMaster) == Seq::<SegmentView>::empty(),
    {
        self.non_master = Vec::new();
        self.non_master_next = NON_MASTER_MIN;
        assert(self.segments(Group::NonMaster) =~= Seq::<SegmentView>::empty());
    }

    /// A copy of the store.
    pub fn duplicate(&self) -> (r: SegmentStore)
        ensures
            r.segments(Group::Master) == self.segments(Group::Master),
            r.segments(Group::NonMaster) == self.segments(Group::NonMaster),
            r.next(Group::Master) == self.next(Group::Master),
            r.next(Group::NonMaster) == self.next(Group::NonMaster),
    {
        SegmentStore {
            master: copy_segments(&self.master),
            non_master: copy_segments(&self.non_master),
            master_next: self.master_next,
            non_master_next: self.non_master_next,
        }
    }

    /// `reaches` is transitive.
    proof fn lemma_reaches_trans(&self, x: u64, y: u64, z: u64)
        requires
            self.reaches(x, y),
            self.reaches(y, z),
        ensures
            self.reaches(x, z),
    {
        let p1 = choose|p: Seq<u64>| #[trigger] self.is_path(p) && p[0] == x && p.last() == y;
        let p2 = choose|p: Seq<u64>| #[trigger] self.is_path(p) && p[0] == y && p.last() == z;
        self.lemma_path_join(p1, p2);
        assert(self.is_path(p1 + p2.drop_first()));
    }

    /// One step of the ancestor walk from `m`, looking for `a`: either `a`
    /// lies in the run of `m`'s segment, or the walk goes on from the parents
    /// of that run's first id.
    fn ancestor_step(&self, m: Id, a: Id) -> (r: (bool, Vec<Id>))
        requires
            self.wf(),
            m != a,
        ensures
            r.0 ==> self.reaches(m, a),
            forall|q: u64| r.1@.contains(q) ==> q < m && self.reaches(m, q),
            !r.0 && self.reaches(m, a) ==> exists|q: u64| r.1@.contains(q) && self.reaches(q, a),
    {
        if m < a {
            proof {
                if self.reaches(m, a) {
                    let p = choose|p: Seq<u64>| #[trigger] self.is_path(p) && p[0] == m && p.last() == a;
                    self.lemma_path_decreasing(p);
                }
            }
            return (false, Vec::new());
        }
        match self.find_segment(m) {
            None => {
                proof {
                    if self.reaches(m, a) {
                        let p = choose|p: Seq<u64>| #[trigger] self.is_path(p) && p[0] == m && p.last() == a;
                        assert(p.len() > 1);
                        assert(self.parents_at(p[0] as int) is Some);
                    }
                }
                (false, Vec::new())
            },
            Some(k) => {
                let g = Group::of(m);
                let seg = match g {
                    Group::Master => &self.master[k],
                    Group::NonMaster => &self.non_master[k],
                };
                let ghost sv = self.segments(g)[k as int];
                assert(segment_view(*seg) == sv);
                if seg.low <= a {
                    proof {
                        self.lemma_run_path(g, k as int, m, a);
                    }
                    return (true, Vec::new());
                }
                let ps = copy_ids(&seg.parents);
                proof {
                    let low = sv.0;
                    self.lemma_run_path(g, k as int, m, low);
                    assert(self.parents_at(low as int) == Some(sv.2)) by {
                        lemma_lookup_holding(self.segments(g), k as int, low as int);
                        assert(group_of(low) == g);
                    }
                    assert forall|q: u64| ps@.contains(q) implies q < m && self.reaches(m, q) by {
                        let i = choose|i: int| 0 <= i < ps@.len() && ps@[i] == q;
                        assert(sv.2[i] < sv.0);
                        let p4 = seq![low, q];
                        assert(self.is_path(p4) && p4[0] == low && p4.last() == q);
                        self.lemma_reaches_trans(m, low, q);
                    }
                    if self.reaches(m, a) {
                        let p = choose|p: Seq<u64>| #[trigger] self.is_path(p) && p[0] == m && p.last() == a;
                        self.lemma_leave_segment(g, k as int, p);
                        let j = choose|j: int| 0 <= j < sv.2.len() && self.reaches(#[trigger] sv.2[j], a);
                        assert(ps@.contains(sv.2[j]));
                    }
                }
                (false, ps)
            },
        }
    }

    /// Whether `ancestor` is `descendant` or one of its ancestors. Walks whole
    /// segments at a time: inside a segment every id reaches all lower ids
    /// of the same segment.
    pub fn is_ancestor(&self, ancestor: Id, descendant: Id) -> (r: bool)
        requires
            self.wf(),
        ensures
            r == self.reaches(descendant, ancestor),
    {
        let a = ancestor;
        let b = descendant;
        let mut frontier: Vec<Id> = Vec::new();
        frontier.push(b);
        let ghost mut bound: int = b as int + 1;
        proof {
            let p = seq![b];
            assert(self.is_path(p) && p[0] == b && p.last() == b);
            assert(frontier@[0] == b);
        }
        while frontier.len() > 0
            invariant
                self.wf(),
                a == ancestor,
                b == descendant,
                bound >= 0,
                forall|f: u64| frontier@.contains(f) ==> f < bound && self.reaches(b, f),
                self.reaches(b, a) ==> exists|f: u64| frontier@.contains(f) && self.reaches(f, a),
            decreases bound,
        {
            let m = max_of(&frontier);
            assert(frontier@.contains(m));
            assert(self.reaches(b, m));
            if m == a {
                assert(self.reaches(b, a));
                return true;
            }
            let ghost before = frontier@;
            let mut rest = without(&frontier, m);
            let (found, mut more) = self.ancestor_step(m, a);
            if found {
                proof {
                    self.lemma_reaches_trans(b, m, a);
                }
                return true;
            }
            let ghost rest_v = rest@;
            let ghost more_v = more@;
            rest.append(&mut more);
            frontier = rest;
            proof {
                lemma_concat_contains(rest_v, more_v);
                assert forall|f: u64| frontier@.contains(f) implies f < m && self.reaches(b, f) by {
                    if more_v.contains(f) {
                        self.lemma_reaches_trans(b, m, f);
                    } else {
                        let i = choose|i: int| 0 <= i < before.len() && before[i] == f;
                        assert(before[i] <= m);
                    }
                }
                if self.reaches(b, a) {
                    let f = choose|f: u64| before.contains(f) && self.reaches(f, a);
                    if f != m {
                        assert(frontier@.contains(f));
                    } else {
                        let q = choose|q: u64| more_v.contains(q) && self.reaches(q, a);
                        assert(frontier@.contains(q));
                    }
                }
                bound = m as int;
            }
        }
        false
    }
}

proof fn lemma_concat_contains(s1: Seq<u64>, s2: Seq<u64>)
    ensures
        forall|y: u64| (s1 + s2).contains(y) <==> s1.contains(y) || s2.contains(y),
{
    assert forall|y: u64| (s1 + s2).contains(y) <==> s1.contains(y) || s2.contains(y) by {
        let s = s1 + s2;
        if s.contains(y) {
            let i = choose|i: int| 0 <= i < s.len() && s[i] == y;
            if i < s1.len() {
                assert(s1[i] == y);
            } else {
                assert(s2[i - s1.len()] == y);
            }
        }
        if s1.contains(y) {
            let i = choose|i: int| 0 <= i < s1.len() && s1[i] == y;
            assert(s[i] == y);
        }
        if s2.contains(y) {
            let i = choose|i: int| 0 <= i < s2.len() && s2[i] == y;
            assert(s[s1.len() + i] == y);
        }
    }
}

/// The largest id of a non-empty list.
fn max_of(v: &Vec<Id>) -> (r: Id)
    requires
        v@.len() > 0,
    ensures
        v@.contains(r),
        forall|k: int| 0 <= k < v@.len() ==> (#[trigger] v@[k]) <= r,
{
    let mut best = v[0];
    let mut i: usize = 1;
    while i < v.len()
        invariant
            1 <= i <= v@.len(),
            v@.contains(best),
            forall|k: int| 0 <= k < i ==> (#[trigger] v@[k]) <= best,
        decreases v@.len() - i,
    {
        if v[i] > best {
            best = v[i];
        }
        i = i + 1;
    }
    best
}

/// The ids of `v` other than `x`.
fn without(v: &Vec<Id>, x: Id) -> (r: Vec<Id>)
    ensures
        forall|y: u64| r@.contains(y) <==> v@.contains(y) && y != x,
{
    let mut r: Vec<Id> = Vec::new();
    let mut i: usize = 0;
    while i < v.len()
        invariant
            i <= v@.len(),
            forall|y: u64| r@.contains(y) <==> v@.subrange(0, i as int).contains(y) && y != x,
        decreases v@.len() - i,
    {
        let ghost before = r@;
        let ghost s0 = v@.subrange(0, i as int);
        if v[i] != x {
            r.push(v[i]);
        }
        proof {
            let s1 = v@.subrange(0, i + 1);
            assert(s1 =~= s0.push(v@[i as int]));
            lemma_concat_contains(s0, seq![v@[i as int]]);
            assert(s1 =~= s0 + seq![v@[i as int]]);
            if v@[i as int] != x {
                assert(r@ =~= before + seq![v@[i as int]]);
                lemma_concat_contains(before, seq![v@[i as int]]);
            } else {
                assert(r@ == before);
            }
            assert(forall|y: u64| seq![v@[i as int]].contains(y) <==> y == v@[i as int]) by {
                assert(seq![v@[i as int]][0] == v@[i as int]);
            }
            assert forall|y: u64| r@.contains(y) <==> s1.contains(y) && y != x by {
                assert(before.contains(y) <==> s0.contains(y) && y != x);
            }
        }
        i = i + 1;
    }
    assert(v@.subrange(0, v@.len() as int) =~= v@);
    r
}

/// A copy of a list of ids.
pub fn copy_ids(v: &Vec<Id>) -> (r: Vec<Id>)
    ensures
        r@ == v@,
{
    let mut r: Vec<Id> = Vec::with_capacity(v.len());
    let mut i: usize = 0;
    while i < v.len()
        invariant
            i <= v@.len(),
            r@ == v@.subrange(0, i as int),
        decreases v@.len() - i,
    {
        r.push(v[i]);
        i = i + 1;
        assert(r@ =~= v@.subrange(0, i as int));
    }
    assert(v@.subrange(0, v@.len() as int) =~= v@);
    r
}

fn copy_segments(v: &Vec<Segment>) -> (r: Vec<Segment>)
    ensures
        segments_view(r@) == segments_view(v@),
{
    let mut r: Vec<Segment> = Vec::with_capacity(v.len());
    let mut i: usize = 0;
    while i < v.len()
        invariant
            i <= v@.len(),
            segments_view(r@) == segments_view(v@).subrange(0, i as int),
        decreases v@.len() - i,
    {
        let s = Segment { low: v[i].low, high: v[i].high, parents: copy_ids(&v[i].parents) };
        let ghost prev = r@;
        r.push(s);
        proof {
            assert(segments_view(r@) =~= segments_view(prev).push(segment_view(v@[i as int])));
            assert(segments_view(v@).subrange(0, i + 1) =~= segments_view(v@).subrange(
                0,
                i as int,
            ).push(segment_view(v@[i as int])));
        }
        i = i + 1;
    }
    assert(segments_view(v@).subrange(0, v@.len() as int) =~= segments_view(v@));
    r
}

} // verus!
