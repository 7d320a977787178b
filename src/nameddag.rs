//! The graph index: one identifier map and one segment store, built and
//! committed together.

use vstd::prelude::*;

use crate::bytes::names_view;
use crate::error::DagError;
use crate::id::{group_max, group_min, group_of, Group, NON_MASTER_MIN};
use crate::idmap::IdMap;
use crate::resolver::{
    acyclic_from, all_answer, fresh_ancestor, fresh_path, lemma_fresh_weaken, lemma_ready_weaken,
    ParentResolver,
};
use crate::segment::SegmentStore;

verus! {

/// Every parent id that a segment gives is held by a name of `map`.
pub open spec fn segment_parents_named(map: IdMap, dag: SegmentStore) -> bool {
    forall|i: int, j: int|
        #![trigger dag.parents_at(i)->Some_0[j]]
        dag.parents_at(i) is Some && 0 <= j < dag.parents_at(i)->Some_0.len() ==> map.name_of(
            dag.parents_at(i)->Some_0[j] as int,
        ) is Some
}

/// Map and segments agree: the segments cover exactly the ids the map has
/// given in each group, and name no id the map does not hold.
pub open spec fn consistent(map: IdMap, dag: SegmentStore) -> bool {
    &&& map.wf()
    &&& dag.wf()
    &&& dag.next(Group::Master) == map.next_free(Group::Master)
    &&& dag.next(Group::NonMaster) == map.next_free(Group::NonMaster)
    &&& segment_parents_named(map, dag)
}

/// Every master head has a master id, and every non-master head has an id.
pub open spec fn covers(map: IdMap, master: Seq<Seq<u8>>, non_master: Seq<Seq<u8>>) -> bool {
    &&& forall|i: int| 0 <= i < master.len() ==> map.names(Group::Master).contains(#[trigger] master[i])
    &&& forall|i: int| 0 <= i < non_master.len() ==> map.contains(#[trigger] non_master[i])
}

/// What a successful build makes of `(map0, dag0)`:
/// - the heads are covered;
/// - master ids are kept, and each new master name had no id before;
/// - the non-master group is renumbered from its heads alone;
/// - each new name has its parents numbered below it, and is reached from a
///   head through vertices that had no id in its group;
/// - segments of ids covered before are kept, and each new id gets the parent
///   ids that the resolver and the map give it.
pub open spec fn build_post<R: ParentResolver>(
    map0: IdMap,
    dag0: SegmentStore,
    res: &R,
    master: Seq<Seq<u8>>,
    non_master: Seq<Seq<u8>>,
    map1: IdMap,
    dag1: SegmentStore,
) -> bool {
    &&& consistent(map1, dag1)
    &&& map1.closed(res)
    &&& covers(map1, master, non_master)
    &&& map1.names(Group::Master).len() == map0.names(Group::Master).len() ==> dag1.segments(
        Group::Master,
    ) == dag0.segments(Group::Master)
    &&& map0.names(Group::Master).is_prefix_of(map1.names(Group::Master))
    &&& forall|k: int|
        map0.names(Group::Master).len() <= k < map1.names(Group::Master).len()
            ==> !map0.names(Group::Master).contains(#[trigger] map1.names(Group::Master)[k])
            && map1.parents_below(res, map1.names(Group::Master)[k])
    &&& forall|k: int|
        0 <= k < map1.names(Group::NonMaster).len() ==> !map1.names(Group::Master).contains(
            #[trigger] map1.names(Group::NonMaster)[k],
        ) && map1.parents_below(res, map1.names(Group::NonMaster)[k])
    &&& forall|k: int|
        map0.names(Group::Master).len() <= k < map1.names(Group::Master).len() ==> reached_from_heads(
            res,
            map0.names(Group::Master),
            master,
            master.len() as int,
            #[trigger] map1.names(Group::Master)[k],
        )
    &&& forall|k: int|
        0 <= k < map1.names(Group::NonMaster).len() ==> reached_from_heads(
            res,
            map1.names(Group::Master),
            non_master,
            non_master.len() as int,
            #[trigger] map1.names(Group::NonMaster)[k],
        )
    &&& forall|i: int|
        0 <= i < dag0.next(Group::Master) ==> #[trigger] dag1.parents_at(i) == dag0.parents_at(i)
    &&& forall|i: int|
        dag0.next(Group::Master) <= i < dag1.next(Group::Master) ==> #[trigger] dag1.parents_at(i)
            == Some(map1.derived_parents(res, i))
    &&& forall|i: int|
        NON_MASTER_MIN <= i < dag1.next(Group::NonMaster) ==> #[trigger] dag1.parents_at(i) == Some(
            map1.derived_parents(res, i),
        )
}

/// `w` is reached from one of the first `n` heads through vertices not in
/// `known`.
pub open spec fn reached_from_heads<R: ParentResolver>(
    res: &R,
    known: Seq<Seq<u8>>,
    heads: Seq<Seq<u8>>,
    n: int,
    w: Seq<u8>,
) -> bool {
    exists|h: int| 0 <= h < n && fresh_ancestor(res, known, #[trigger] heads[h], w)
}

/// Runs `assign_head` for each of `heads` in group `g`.
fn assign_heads<R: ParentResolver>(map: &mut IdMap, res: &R, heads: &[Vec<u8>], g: Group) -> (r:
    Result<(), DagError>)
    requires
        old(map).wf(),
        g == Group::Master ==> old(map).names(Group::NonMaster).len() == 0,
    ensures
        final(map).wf(),
        old(map).extended_by(final(map)),
        g == Group::Master ==> final(map).names(Group::NonMaster) == old(map).names(
            Group::NonMaster,
        ),
        g == Group::NonMaster ==> final(map).names(Group::Master) == old(map).names(Group::Master),
        forall|k: int|
            old(map).names(g).len() <= k < final(map).names(g).len() ==> {
                &&& !old(map).contains(#[trigger] final(map).names(g)[k])
                &&& final(map).parents_below(res, final(map).names(g)[k])
                &&& res.answers(final(map).names(g)[k])
                &&& reached_from_heads(
                    res,
                    old(map).all_names(),
                    names_view(heads@),
                    heads@.len() as int,
                    final(map).names(g)[k],
                )
            },
        r is Ok ==> forall|h: int|
            0 <= h < heads@.len() ==> final(map).contains(#[trigger] names_view(heads@)[h]),
        (forall|h: int|
            0 <= h < heads@.len() ==> all_answer(res, old(map).all_names(), #[trigger] names_view(
                heads@,
            )[h]) && acyclic_from(res, old(map).all_names(), names_view(heads@)[h]))
            && old(map).next_free(g) + old(map).unassigned(res).len() <= group_max(g) ==> r is Ok,
        r matches Err(e) ==> e != DagError::Contention,
{
    let ghost start = *map;
    let ghost hv = names_view(heads@);
    let ghost ready = (forall|h: int|
        0 <= h < heads@.len() ==> all_answer(res, start.all_names(), #[trigger] hv[h])
            && acyclic_from(res, start.all_names(), hv[h])) && start.next_free(g)
        + start.unassigned(res).len() <= group_max(g);
    let mut i: usize = 0;
    while i < heads.len()
        invariant
            map.wf(),
            start == *old(map),
            start.wf(),
            start.extended_by(map),
            hv == names_view(heads@),
            i <= heads@.len(),
            g == Group::Master ==> start.names(Group::NonMaster).len() == 0,
            g == Group::Master ==> map.names(Group::NonMaster) == start.names(Group::NonMaster),
            g == Group::NonMaster ==> map.names(Group::Master) == start.names(Group::Master),
            forall|h: int| 0 <= h < i ==> map.contains(#[trigger] hv[h]),
            forall|k: int|
                start.names(g).len() <= k < map.names(g).len() ==> {
                    &&& !start.contains(#[trigger] map.names(g)[k])
                    &&& map.parents_below(res, map.names(g)[k])
                    &&& res.answers(map.names(g)[k])
                    &&& reached_from_heads(res, start.all_names(), hv, i as int, map.names(g)[k])
                },
            ready == ((forall|h: int|
                0 <= h < heads@.len() ==> all_answer(res, start.all_names(), #[trigger] hv[h])
                    && acyclic_from(res, start.all_names(), hv[h])) && start.next_free(g)
                + start.unassigned(res).len() <= group_max(g)),
            map.next_free(g) + map.unassigned(res).len() <= start.next_free(g) + start.unassigned(
                res,
            ).len(),
        decreases heads@.len() - i,
    {
        let ghost before = *map;
        proof {
            start.lemma_extended(&before, res);
            assert forall|x: Seq<u8>| start.all_names().contains(x) implies before.all_names().contains(x) by {
                start.lemma_contains_all(x);
                before.lemma_contains_all(x);
            }
            if ready {
                assert(hv[i as int] == heads@[i as int]@);
                lemma_ready_weaken(res, start.all_names(), before.all_names(), hv[i as int]);
            }
        }
        let res_i = map.assign_head(heads[i].as_slice(), res, g);
        proof {
            before.lemma_extended(map, res);
            start.lemma_extended(map, res);
            assert(start.names(g).is_prefix_of(before.names(g)));
            assert(before.names(g).is_prefix_of(map.names(g)));
            assert forall|k: int| start.names(g).len() <= k < map.names(g).len() implies {
                &&& !start.contains(#[trigger] map.names(g)[k])
                &&& map.parents_below(res, map.names(g)[k])
                &&& res.answers(map.names(g)[k])
                &&& reached_from_heads(res, start.all_names(), hv, i + 1, map.names(g)[k])
            } by {
                let w = map.names(g)[k];
                if k < before.names(g).len() {
                    assert(before.names(g)[k] == w);
                    assert(before.contains(w));
                    let h = choose|h: int|
                        0 <= h < i && fresh_ancestor(res, start.all_names(), #[trigger] hv[h], w);
                } else {
                    assert(!before.contains(w));
                    assert(hv[i as int] == heads@[i as int]@);
                    lemma_fresh_weaken(res, start.all_names(), before.all_names(), hv[i as int], w);
                }
            }
        }
        match res_i {
            Ok(_) => {},
            Err(e) => {
                return Err(e);
            },
        }
        proof {
            assert forall|h: int| 0 <= h < i + 1 implies map.contains(#[trigger] hv[h]) by {
                if h < i {
                    assert(before.contains(hv[h]));
                } else {
                    assert(hv[h] == heads@[h]@);
                }
            }
        }
        i = i + 1;
    }
    Ok(())
}

/// What a build needs to succeed, judged on the map it starts from: every
/// vertex reached from a head through vertices without a master id answers,
/// no such walk meets a vertex twice, and each group has room for every
/// vertex the resolver knows that it may have to number.
pub open spec fn build_ready<R: ParentResolver>(
    map0: IdMap,
    res: &R,
    master: Seq<Seq<u8>>,
    non_master: Seq<Seq<u8>>,
) -> bool {
    &&& forall|h: int|
        0 <= h < master.len() ==> all_answer(res, map0.names(Group::Master), #[trigger] master[h])
            && acyclic_from(res, map0.names(Group::Master), master[h])
    &&& forall|h: int|
        0 <= h < non_master.len() ==> all_answer(
            res,
            map0.names(Group::Master),
            #[trigger] non_master[h],
        ) && acyclic_from(res, map0.names(Group::Master), non_master[h])
    &&& map0.next_free(Group::Master) + res.vertices().difference(
        map0.names(Group::Master).to_set(),
    ).len() <= group_max(Group::Master)
    &&& group_min(Group::NonMaster) + res.vertices().len() <= group_max(Group::NonMaster)
}

/// Parent ids that `derived_parents` gives a ready id are held by names.
proof fn lemma_derived_named<R: ParentResolver>(map: IdMap, res: &R, i: int)
    requires
        map.wf(),
        map.name_of(i) is Some,
        map.parents_below(res, map.name_of(i)->Some_0),
    ensures
        forall|j: int|
            0 <= j < map.derived_parents(res, i).len() ==> map.name_of(
                #[trigger] map.derived_parents(res, i)[j] as int,
            ) is Some,
{
    let v = map.name_of(i)->Some_0;
    assert forall|j: int| 0 <= j < map.derived_parents(res, i).len() implies map.name_of(
        #[trigger] map.derived_parents(res, i)[j] as int,
    ) is Some by {
        let p = res.parents_of(v)[j];
        assert(map.contains(p));
        map.lemma_ids(p);
        assert(map.derived_parents(res, i)[j] as int == map.id_of(p));
    }
}

/// Assigns ids to the heads and their new ancestors, master heads first,
/// then extends the segments of both groups up to the new ids.
///
/// The non-master group is always rebuilt: its names and segments are
/// dropped and numbered afresh from `non_master_heads`, so a draft vertex that
/// no head reaches any more loses its id. It succeeds whenever `build_ready`
/// holds; the segments never fail once the ids are assigned.
pub fn build<R: ParentResolver>(
    map: &mut IdMap,
    dag: &mut SegmentStore,
    res: &R,
    master_heads: &[Vec<u8>],
    non_master_heads: &[Vec<u8>],
) -> (r: Result<(), DagError>)
    requires
        consistent(*old(map), *old(dag)),
        old(map).closed(res),
    ensures
        r is Ok ==> build_post(
            *old(map),
            *old(dag),
            res,
            names_view(master_heads@),
            names_view(non_master_heads@),
            *final(map),
            *final(dag),
        ),
        build_ready(*old(map), res, names_view(master_heads@), names_view(non_master_heads@))
            ==> r is Ok,
        r matches Err(e) ==> e != DagError::Contention,
{
    let ghost map0 = *map;
    let ghost dag0 = *dag;
    let ghost mh = names_view(master_heads@);
    let ghost nh = names_view(non_master_heads@);
    let ghost ready = build_ready(map0, res, mh, nh);
    map.clear_non_master();
    dag.clear_non_master();
    let ghost mapc = *map;
    proof {
        res.lemma_vertices_finite();
        assert(mapc.all_names() =~= map0.names(Group::Master));
    }
    match assign_heads(map, res, master_heads, Group::Master) {
        Ok(()) => {},
        Err(e) => {
            return Err(e);
        },
    }
    let ghost mapm = *map;
    proof {
        mapc.lemma_extended(&mapm, res);
        assert(mapm.all_names() =~= mapm.names(Group::Master));
        assert forall|x: Seq<u8>| map0.names(Group::Master).contains(x) implies mapm.all_names().contains(x) by {
            mapc.lemma_contains_all(x);
            mapm.lemma_contains_all(x);
        }
        if ready {
            assert forall|h: int| 0 <= h < nh.len() implies all_answer(res, mapm.all_names(), #[trigger] nh[h])
                && acyclic_from(res, mapm.all_names(), nh[h]) by {
                lemma_ready_weaken(res, map0.names(Group::Master), mapm.all_names(), nh[h]);
            }
            vstd::set_lib::lemma_len_subset(mapm.unassigned(res), res.vertices());
        }
    }
    match assign_heads(map, res, non_master_heads, Group::NonMaster) {
        Ok(()) => {},
        Err(e) => {
            return Err(e);
        },
    }
    let ghost map1 = *map;
    let ghost dagc = *dag;
    proof {
        mapm.lemma_extended(&map1, res);
        mapc.lemma_extended(&mapm, res);
    }
    let next_master = map.next_free_id(Group::Master);
    if next_master > 0 {
        proof {
            assert forall|i: int| dagc.next(Group::Master) <= i <= next_master - 1 implies #[trigger] map1.id_ready(res, i) by {
                assert(map1.names(Group::Master)[i] == mapm.names(Group::Master)[i]);
            }
        }
        match dag.build_segments_persistent(next_master - 1, map, res) {
            Ok(()) => {},
            Err(e) => {
                return Err(e);
            },
        }
    }
    let ghost dagm = *dag;
    let next_non_master = map.next_free_id(Group::NonMaster);
    if next_non_master > NON_MASTER_MIN {
        proof {
            assert(group_of((next_non_master - 1) as u64) == Group::NonMaster);
            assert forall|i: int| dagm.next(Group::NonMaster) <= i <= next_non_master - 1 implies #[trigger] map1.id_ready(res, i) by {
            }
        }
        match dag.build_segments_persistent(next_non_master - 1, map, res) {
            Ok(()) => {},
            Err(e) => {
                return Err(e);
            },
        }
    }
    proof {
        assert forall|k: int|
            map0.names(Group::Master).len() <= k < map1.names(Group::Master).len()
                implies !map0.names(Group::Master).contains(#[trigger] map1.names(Group::Master)[k])
                && map1.parents_below(res, map1.names(Group::Master)[k]) by {
            let v = map1.names(Group::Master)[k];
            assert(mapm.names(Group::Master)[k] == v);
            assert(!mapc.contains(v));
        }
        assert forall|k: int|
            map0.names(Group::Master).len() <= k < map1.names(Group::Master).len()
                implies reached_from_heads(
                res,
                map0.names(Group::Master),
                mh,
                mh.len() as int,
                #[trigger] map1.names(Group::Master)[k],
            ) by {
            let v = map1.names(Group::Master)[k];
            assert(mapm.names(Group::Master)[k] == v);
        }
        assert forall|k: int|
            0 <= k < map1.names(Group::NonMaster).len() implies !map1.names(Group::Master).contains(
                #[trigger] map1.names(Group::NonMaster)[k],
            ) && map1.parents_below(res, map1.names(Group::NonMaster)[k]) by {
            let v = map1.names(Group::NonMaster)[k];
            assert(!mapm.contains(v));
        }
        assert forall|i: int| 0 <= i < dag0.next(Group::Master) implies #[trigger] dag.parents_at(i)
            == dag0.parents_at(i) by {
            assert(dagm.parents_at(i) == dagc.parents_at(i));
            assert(i < NON_MASTER_MIN);
        }
        assert forall|i: int|
            dag0.next(Group::Master) <= i < dag.next(Group::Master) implies #[trigger] dag.parents_at(i)
                == Some(map1.derived_parents(res, i)) by {
            assert(i < NON_MASTER_MIN);
        }
        assert(covers(map1, mh, nh)) by {
            assert forall|k: int| 0 <= k < mh.len() implies map1.names(Group::Master).contains(#[trigger] mh[k]) by {
                assert(mapm.contains(mh[k]));
                assert(mapm.names(Group::Master).contains(mh[k]));
            }
        }
        assert(map1.closed(res)) by {
            assert forall|v: Seq<u8>| #[trigger] map1.contains(v) implies map1.parents_below(res, v) by {
                let m0 = map0.names(Group::Master);
                let m1 = map1.names(Group::Master);
                if m0.contains(v) {
                    assert(map0.contains(v));
                    map0.lemma_master_closed_kept(&map1, res, v);
                } else if m1.contains(v) {
                    let k = choose|k: int| 0 <= k < m1.len() && m1[k] == v;
                    if k < m0.len() {
                        assert(m0[k] == v);
                    }
                } else {
                    let k = choose|k: int|
                        0 <= k < map1.names(Group::NonMaster).len() && map1.names(Group::NonMaster)[k] == v;
                }
            }
        }
        assert(segment_parents_named(map1, *dag)) by {
            assert forall|i: int, j: int|
                #![trigger dag.parents_at(i)->Some_0[j]]
                dag.parents_at(i) is Some && 0 <= j < dag.parents_at(i)->Some_0.len()
                    implies map1.name_of(dag.parents_at(i)->Some_0[j] as int) is Some by {
                let g = group_of(i as u64);
                if g == Group::Master && i < dag0.next(Group::Master) {
                    let p = dag0.parents_at(i)->Some_0[j];
                    assert(map0.name_of(p as int) is Some);
                    dag0.lemma_parents_smaller(i);
                    assert(p < i);
                    assert(map0.names(Group::Master)[p as int] == map1.names(Group::Master)[p as int]);
                } else {
                    assert(map1.id_ready(res, i));
                    lemma_derived_named(map1, res, i);
                }
            }
        }
    }
    Ok(())
}

/// Two maps with the same names in each group.
pub open spec fn same_map(a: IdMap, b: IdMap) -> bool {
    a.names(Group::Master) == b.names(Group::Master) && a.names(Group::NonMaster) == b.names(
        Group::NonMaster,
    )
}

/// Two stores with the same segments and coverage in each group.
pub open spec fn same_dag(a: SegmentStore, b: SegmentStore) -> bool {
    &&& a.segments(Group::Master) == b.segments(Group::Master)
    &&& a.segments(Group::NonMaster) == b.segments(Group::NonMaster)
    &&& a.next(Group::Master) == b.next(Group::Master)
    &&& a.next(Group::NonMaster) == b.next(Group::NonMaster)
}

/// Copies with the same names and segments agree as the originals do.
proof fn lemma_consistent_same(m1: IdMap, d1: SegmentStore, m2: IdMap, d2: SegmentStore)
    requires
        consistent(m1, d1),
        same_map(m1, m2),
        same_dag(d1, d2),
    ensures
        consistent(m2, d2),
{
    assert(m2.all_names() == m1.all_names());
    assert forall|i: int, j: int|
        #![trigger d2.parents_at(i)->Some_0[j]]
        d2.parents_at(i) is Some && 0 <= j < d2.parents_at(i)->Some_0.len() implies m2.name_of(
            d2.parents_at(i)->Some_0[j] as int,
        ) is Some by {
        assert(d2.parents_at(i) == d1.parents_at(i));
        assert(m1.name_of(d1.parents_at(i)->Some_0[j] as int) is Some);
    }
}

/// `lemma_consistent_same`, and closedness carried over too.
proof fn lemma_same_state<R: ParentResolver>(
    m1: IdMap,
    d1: SegmentStore,
    m2: IdMap,
    d2: SegmentStore,
    res: &R,
)
    requires
        consistent(m1, d1),
        same_map(m1, m2),
        same_dag(d1, d2),
    ensures
        consistent(m2, d2),
        m1.closed(res) ==> m2.closed(res),
{
    lemma_consistent_same(m1, d1, m2, d2);
    if m1.closed(res) {
        assert forall|v: Seq<u8>| #[trigger] m2.contains(v) implies m2.parents_below(res, v) by {
            assert(m1.contains(v));
        }
    }
}

/// The master names of handle `d` are a prefix of those committed at `loc`:
/// the handle is a snapshot of the location's past.
pub open spec fn linked(d: NamedDag, loc: Location) -> bool {
    d.spec_map().names(Group::Master).is_prefix_of(loc.committed_map().names(Group::Master))
}

/// Where a graph index is stored: the committed map and segments, and the
/// coordinating lock that a writer holds while it builds.
pub struct Location {
    map: IdMap,
    dag: SegmentStore,
    locked: bool,
}

impl Location {
    /// The committed map.
    pub closed spec fn committed_map(&self) -> IdMap {
        self.map
    }

    /// The committed segments.
    pub closed spec fn committed_dag(&self) -> SegmentStore {
        self.dag
    }

    /// Whether a writer holds the coordinating lock.
    pub closed spec fn held(&self) -> bool {
        self.locked
    }

    pub open spec fn wf(&self) -> bool {
        consistent(self.committed_map(), self.committed_dag())
    }

    /// A location with nothing committed, and its lock free.
    pub fn new() -> (r: Location)
        ensures
            r.wf(),
            !r.held(),
            r.committed_map().names(Group::Master).len() == 0,
            r.committed_map().names(Group::NonMaster).len() == 0,
    {
        let map = IdMap::new();
        let dag = SegmentStore::new();
        Location { map, dag, locked: false }
    }

    /// Whether a writer holds the coordinating lock.
    pub fn is_locked(&self) -> (r: bool)
        ensures
            r == self.held(),
    {
        self.locked
    }

    /// Takes the coordinating lock, or fails with `Contention` where it is
    /// held already.
    pub fn try_lock(&mut self) -> (r: Result<(), DagError>)
        ensures
            old(self).held() ==> r == Err::<(), DagError>(DagError::Contention) && *final(self)
                == *old(self),
            !old(self).held() ==> r is Ok && final(self).held(),
            final(self).committed_map() == old(self).committed_map(),
            final(self).committed_dag() == old(self).committed_dag(),
    {
        if self.locked {
            Err(DagError::Contention)
        } else {
            self.locked = true;
            Ok(())
        }
    }

    /// Releases the coordinating lock.
    pub fn unlock(&mut self)
        ensures
            !final(self).held(),
            final(self).committed_map() == old(self).committed_map(),
            final(self).committed_dag() == old(self).committed_dag(),
    {
        self.locked = false;
    }
}

/// A DAG whose vertices are names: an identifier map and a segment store,
/// kept consistent with each other.
pub struct NamedDag {
    dag: SegmentStore,
    map: IdMap,
}

/// Read access to the map and the segments of an index, for query layers
/// that work on ids. Nothing can be changed through it.
pub trait LowLevelAccess {
    spec fn spec_dag(&self) -> SegmentStore;

    spec fn spec_map(&self) -> IdMap;

    fn dag(&self) -> (r: &SegmentStore)
        ensures
            *r == self.spec_dag(),
    ;

    fn map(&self) -> (r: &IdMap)
        ensures
            *r == self.spec_map(),
    ;
}

impl LowLevelAccess for NamedDag {
    closed spec fn spec_dag(&self) -> SegmentStore {
        self.dag
    }

    closed spec fn spec_map(&self) -> IdMap {
        self.map
    }

    fn dag(&self) -> (r: &SegmentStore) {
        &self.dag
    }

    fn map(&self) -> (r: &IdMap) {
        &self.map
    }
}

/// Whether every name of `v` has a master id (`max_group` is `Master`) or
/// any id (`max_group` is `NonMaster`).
fn all_found(map: &IdMap, v: &[Vec<u8>], max_group: Group) -> (r: bool)
    requires
        map.wf(),
    ensures
        r == (forall|i: int|
            0 <= i < v@.len() ==> if max_group == Group::Master {
                map.names(Group::Master).contains(#[trigger] names_view(v@)[i])
            } else {
                map.contains(#[trigger] names_view(v@)[i])
            }),
{
    let mut i: usize = 0;
    while i < v.len()
        invariant
            map.wf(),
            i <= v@.len(),
            forall|k: int|
                0 <= k < i ==> if max_group == Group::Master {
                    map.names(Group::Master).contains(#[trigger] names_view(v@)[k])
                } else {
                    map.contains(#[trigger] names_view(v@)[k])
                },
        decreases v@.len() - i,
    {
        let found = map.find_with_max_group(v[i].as_slice(), max_group);
        if !is_ok_some(found) {
            assert(names_view(v@)[i as int] == v@[i as int]@);
            return false;
        }
        assert(names_view(v@)[i as int] == v@[i as int]@);
        i = i + 1;
    }
    true
}

/// Whether a lookup found something.
pub fn is_ok_some<T>(value: Option<T>) -> (r: bool)
    ensures
        r == value is Some,
{
    match value {
        Some(_) => true,
        None => false,
    }
}

impl NamedDag {
    pub open spec fn wf(&self) -> bool {
        consistent(self.spec_map(), self.spec_dag())
    }

    /// Opens the index stored at `loc`, reading map and segments together.
    /// Fails with `Contention` while a writer holds the lock.
    pub fn open(loc: &Location) -> (r: Result<NamedDag, DagError>)
        requires
            loc.wf(),
        ensures
            loc.held() ==> r == Err::<NamedDag, DagError>(DagError::Contention),
            !loc.held() ==> r is Ok,
            r matches Ok(d) ==> d.wf() && linked(d, *loc) && same_map(d.spec_map(), loc.committed_map())
                && same_dag(d.spec_dag(), loc.committed_dag()),
    {
        if loc.is_locked() {
            return Err(DagError::Contention);
        }
        let map = loc.map.duplicate();
        let dag = loc.dag.duplicate();
        proof {
            lemma_consistent_same(loc.map, loc.dag, map, dag);
        }
        Ok(NamedDag { dag, map })
    }

    /// Reads the latest committed map and segments of `loc`. Master ids only
    /// grow: every master name of the handle keeps its id.
    pub fn reload(&mut self, loc: &Location) -> (r: Result<(), DagError>)
        requires
            old(self).wf(),
            loc.wf(),
            linked(*old(self), *loc),
        ensures
            r is Ok,
            final(self).wf(),
            linked(*final(self), *loc),
            old(self).spec_map().names(Group::Master).is_prefix_of(
                final(self).spec_map().names(Group::Master),
            ),
            same_map(final(self).spec_map(), loc.committed_map()),
            same_dag(final(self).spec_dag(), loc.committed_dag()),
    {
        self.map = loc.map.duplicate();
        self.dag = loc.dag.duplicate();
        proof {
            lemma_consistent_same(loc.map, loc.dag, self.map, self.dag);
        }
        Ok(())
    }

    /// What `build` promises, as one statement over the states before and
    /// after the call.
    pub open spec fn build_outcome<R: ParentResolver>(
        d0: NamedDag,
        loc0: Location,
        res: &R,
        master: Seq<Seq<u8>>,
        non_master: Seq<Seq<u8>>,
        r: Result<(), DagError>,
        d1: NamedDag,
        loc1: Location,
    ) -> bool {
        &&& d1.wf()
        &&& loc1.wf()
        &&& covers(d0.spec_map(), master, non_master) ==> r is Ok && d1 == d0 && loc1 == loc0
        &&& !covers(d0.spec_map(), master, non_master) && loc0.held() ==> r == Err::<
            (),
            DagError,
        >(DagError::Contention)
        &&& r is Err ==> d1 == d0 && loc1 == loc0
        &&& r == Err::<(), DagError>(DagError::Contention) ==> loc0.held()
        &&& !loc0.held() && build_ready(loc0.committed_map(), res, master, non_master) ==> r is Ok
        &&& linked(d0, loc0) ==> linked(d1, loc1) && d0.spec_map().names(Group::Master).is_prefix_of(
            d1.spec_map().names(Group::Master),
        )
        &&& loc0.committed_map().names(Group::Master).is_prefix_of(
            loc1.committed_map().names(Group::Master),
        )
        &&& loc0.committed_map().closed(res) ==> loc1.committed_map().closed(res)
        &&& r is Ok && !covers(d0.spec_map(), master, non_master) ==> {
            &&& !loc0.held()
            &&& !loc1.held()
            &&& build_post(
                loc0.committed_map(),
                loc0.committed_dag(),
                res,
                master,
                non_master,
                d1.spec_map(),
                d1.spec_dag(),
            )
            &&& same_map(loc1.committed_map(), d1.spec_map())
            &&& same_dag(loc1.committed_dag(), d1.spec_dag())
        }
    }

    /// Makes sure the heads are indexed: `master_names` in the master group,
    /// `non_master_names` in any group. Where this handle already knows them
    /// all, nothing is done. Otherwise the lock of `loc` is taken (failing
    /// with `Contention` where it is held), the build runs on a copy of the
    /// committed state, and only on success are the map and then the segments
    /// committed, and this handle moved to the new state. On failure neither
    /// this handle nor `loc` changes. With the lock free, the build succeeds
    /// whenever `build_ready` holds of the committed map.
    pub fn build<R: ParentResolver>(
        &mut self,
        loc: &mut Location,
        res: &R,
        master_names: &[Vec<u8>],
        non_master_names: &[Vec<u8>],
    ) -> (r: Result<(), DagError>)
        requires
            old(self).wf(),
            old(loc).wf(),
            old(loc).committed_map().closed(res),
            linked(*old(self), *old(loc)),
        ensures
            NamedDag::build_outcome(
                *old(self),
                *old(loc),
                res,
                names_view(master_names@),
                names_view(non_master_names@),
                r,
                *final(self),
                *final(loc),
            ),
    {
        if all_found(&self.map, master_names, Group::Master) && all_found(
            &self.map,
            non_master_names,
            Group::NonMaster,
        ) {
            return Ok(());
        }
        match loc.try_lock() {
            Ok(()) => {},
            Err(e) => {
                return Err(e);
            },
        }
        let mut map = loc.map.duplicate();
        let mut dag = loc.dag.duplicate();
        proof {
            lemma_same_state(loc.map, loc.dag, map, dag, res);
        }
        match build(&mut map, &mut dag, res, master_names, non_master_names) {
            Ok(()) => {},
            Err(e) => {
                loc.unlock();
                return Err(e);
            },
        }
        loc.map = map.duplicate();
        loc.dag = dag.duplicate();
        loc.unlock();
        proof {
            lemma_same_state(map, dag, loc.map, loc.dag, res);
        }
        self.map = map;
        self.dag = dag;
        Ok(())
    }
}

/// Building twice with the same heads and resolver: the second build
/// succeeds and changes neither the handle nor the location, so it assigns
/// no id.
pub proof fn lemma_build_idempotent<R: ParentResolver>(
    d0: NamedDag,
    loc0: Location,
    res: &R,
    master: Seq<Seq<u8>>,
    non_master: Seq<Seq<u8>>,
    d1: NamedDag,
    loc1: Location,
    r2: Result<(), DagError>,
    d2: NamedDag,
    loc2: Location,
)
    requires
        NamedDag::build_outcome(d0, loc0, res, master, non_master, Ok(()), d1, loc1),
        NamedDag::build_outcome(d1, loc1, res, master, non_master, r2, d2, loc2),
    ensures
        r2 is Ok,
        d2 == d1,
        loc2 == loc1,
{
}

/// Master ids are stable: a vertex with a master id keeps that id, in the
/// master group, through any build, whether it succeeds or fails. This holds
/// at the location, and on a handle that is a snapshot of the location.
pub proof fn lemma_master_ids_stable<R: ParentResolver>(
    d0: NamedDag,
    loc0: Location,
    res: &R,
    master: Seq<Seq<u8>>,
    non_master: Seq<Seq<u8>>,
    r: Result<(), DagError>,
    d1: NamedDag,
    loc1: Location,
    v: Seq<u8>,
)
    requires
        loc0.wf(),
        d0.wf(),
        linked(d0, loc0),
        NamedDag::build_outcome(d0, loc0, res, master, non_master, r, d1, loc1),
    ensures
        loc0.committed_map().names(Group::Master).contains(v) ==> loc1.committed_map().names(
            Group::Master,
        ).contains(v) && loc1.committed_map().id_of(v) == loc0.committed_map().id_of(v),
        d0.spec_map().names(Group::Master).contains(v) ==> d1.spec_map().names(
            Group::Master,
        ).contains(v) && d1.spec_map().id_of(v) == d0.spec_map().id_of(v),
{
    if loc0.committed_map().names(Group::Master).contains(v) {
        loc0.committed_map().lemma_master_prefix(&loc1.committed_map(), v);
    }
    if d0.spec_map().names(Group::Master).contains(v) {
        d0.spec_map().lemma_master_prefix(&d1.spec_map(), v);
    }
}

/// In a closed map, every ancestor of a numbered vertex is numbered, and
/// every ancestor of a master vertex is a master vertex. So after a build,
/// every ancestor of a head has an id, a master one for a master head.
pub proof fn lemma_ancestors_numbered<R: ParentResolver>(map: IdMap, res: &R, p: Seq<Seq<u8>>)
    requires
        map.wf(),
        map.closed(res),
        fresh_path(res, Seq::empty(), p),
        map.contains(p[0]),
    ensures
        map.contains(p.last()),
        map.names(Group::Master).contains(p[0]) ==> map.names(Group::Master).contains(p.last()),
    decreases p.len(),
{
    if p.len() > 1 {
        let q = p.drop_last();
        assert forall|k: int| 0 <= k < q.len() - 1 implies res.parents_of(q[k]).contains(
            #[trigger] q[k + 1],
        ) by {
            assert(q[k] == p[k] && q[k + 1] == p[k + 1]);
        }
        assert(fresh_path(res, Seq::empty(), q));
        lemma_ancestors_numbered(map, res, q);
        let v = q.last();
        let w = p.last();
        assert(v == p[p.len() - 2] && w == p[p.len() - 1]);
        assert(res.parents_of(p[p.len() - 2]).contains(p[p.len() - 2 + 1]));
        assert(map.parents_below(res, v));
        let j = choose|j: int| 0 <= j < res.parents_of(v).len() && res.parents_of(v)[j] == w;
        assert(map.contains(res.parents_of(v)[j]));
        if map.names(Group::Master).contains(p[0]) {
            map.lemma_ids(v);
            map.lemma_ids(w);
            let iw = map.id_of(w);
            assert(iw < map.id_of(v));
            assert(map.name_of(iw) == Some(w));
        }
    } else {
        assert(p.last() == p[0]);
    }
}

/// Amending a draft: a build that has work to do, whose master heads all
/// have master ids already, on a handle that holds the location's state, leaves the master group as
/// it was, names and segments alike, while the non-master group becomes
/// exactly the vertices reached from the new non-master heads outside the
/// master group; a replaced draft that they do not reach has no id.
pub proof fn lemma_amend_keeps_master<R: ParentResolver>(
    d0: NamedDag,
    loc0: Location,
    res: &R,
    master: Seq<Seq<u8>>,
    non_master: Seq<Seq<u8>>,
    d1: NamedDag,
    loc1: Location,
    v: Seq<u8>,
)
    requires
        d0.wf(),
        same_map(d0.spec_map(), loc0.committed_map()),
        same_dag(d0.spec_dag(), loc0.committed_dag()),
        forall|h: int| 0 <= h < master.len() ==> d0.spec_map().names(Group::Master).contains(#[trigger] master[h]),
        !covers(d0.spec_map(), master, non_master),
        NamedDag::build_outcome(d0, loc0, res, master, non_master, Ok(()), d1, loc1),
    ensures
        d1.spec_map().names(Group::Master) == d0.spec_map().names(Group::Master),
        d1.spec_dag().segments(Group::Master) == d0.spec_dag().segments(Group::Master),
        d1.spec_dag().next(Group::Master) == d0.spec_dag().next(Group::Master),
        d1.spec_map().names(Group::NonMaster).contains(v) <==> (!d1.spec_map().names(
            Group::Master,
        ).contains(v) && reached_from_heads(
            res,
            d1.spec_map().names(Group::Master),
            non_master,
            non_master.len() as int,
            v,
        )),
{
    let m0 = loc0.committed_map();
    let m1 = d1.spec_map();
    {
        assert(m1.names(Group::Master).len() == m0.names(Group::Master).len()) by {
            if m1.names(Group::Master).len() > m0.names(Group::Master).len() {
                let k = m0.names(Group::Master).len() as int;
                let w = m1.names(Group::Master)[k];
                assert(reached_from_heads(res, m0.names(Group::Master), master, master.len() as int, w));
                let h = choose|h: int|
                    0 <= h < master.len() && fresh_ancestor(res, m0.names(Group::Master), #[trigger] master[h], w);
                let p = choose|p: Seq<Seq<u8>>|
                    #[trigger] fresh_path(res, m0.names(Group::Master), p) && p[0] == master[h] && p.last() == w;
                assert(!m0.names(Group::Master).contains(p[0]));
            }
        }
        assert(m1.names(Group::Master) =~= m0.names(Group::Master));
        lemma_build_numbers_exactly(
            m0,
            loc0.committed_dag(),
            res,
            master,
            non_master,
            m1,
            d1.spec_dag(),
            v,
        );
    }
}

/// Ids are numbered in topological order. At every id the segments cover,
/// each parent id is smaller; and after a build that did work, each vertex
/// numbered by it (every vertex without a master id before) has every parent
/// that the resolver reports numbered, below itself.
pub proof fn lemma_topological_order<R: ParentResolver>(
    d0: NamedDag,
    loc0: Location,
    res: &R,
    master: Seq<Seq<u8>>,
    non_master: Seq<Seq<u8>>,
    d1: NamedDag,
    loc1: Location,
)
    requires
        NamedDag::build_outcome(d0, loc0, res, master, non_master, Ok(()), d1, loc1),
        !covers(d0.spec_map(), master, non_master),
    ensures
        forall|v: Seq<u8>|
            #[trigger] d1.spec_map().contains(v) && !loc0.committed_map().names(
                Group::Master,
            ).contains(v) ==> d1.spec_map().parents_below(res, v),
        forall|i: int, j: int|
            #![trigger d1.spec_dag().parents_at(i)->Some_0[j]]
            d1.spec_dag().parents_at(i) is Some && 0 <= j < d1.spec_dag().parents_at(
                i,
            )->Some_0.len() ==> d1.spec_dag().parents_at(i)->Some_0[j] < i,
{
    let m0 = loc0.committed_map();
    let m1 = d1.spec_map();
    assert forall|v: Seq<u8>|
        #[trigger] m1.contains(v) && !m0.names(Group::Master).contains(v) implies m1.parents_below(
        res,
        v,
    ) by {
        if m1.names(Group::Master).contains(v) {
            let k = choose|k: int|
                0 <= k < m1.names(Group::Master).len() && m1.names(Group::Master)[k] == v;
            if k < m0.names(Group::Master).len() {
                assert(m0.names(Group::Master)[k] == v);
            }
        } else {
            let k = choose|k: int|
                0 <= k < m1.names(Group::NonMaster).len() && m1.names(Group::NonMaster)[k] == v;
        }
    }
    assert forall|i: int, j: int|
        #![trigger d1.spec_dag().parents_at(i)->Some_0[j]]
        d1.spec_dag().parents_at(i) is Some && 0 <= j < d1.spec_dag().parents_at(i)->Some_0.len()
            implies d1.spec_dag().parents_at(i)->Some_0[j] < i by {
        d1.spec_dag().lemma_parents_smaller(i);
    }
}

/// Segment completeness: after a build that did work, every id below the
/// watermark of its group is covered by the segments; ids covered before
/// keep their parents, and every other id gets exactly the parent ids that
/// the resolver and the map give it.
pub proof fn lemma_segments_complete<R: ParentResolver>(
    d0: NamedDag,
    loc0: Location,
    res: &R,
    master: Seq<Seq<u8>>,
    non_master: Seq<Seq<u8>>,
    d1: NamedDag,
    loc1: Location,
)
    requires
        NamedDag::build_outcome(d0, loc0, res, master, non_master, Ok(()), d1, loc1),
        !covers(d0.spec_map(), master, non_master),
    ensures
        forall|g: Group, i: int|
            #![trigger d1.spec_map().next_free(g), d1.spec_dag().parents_at(i)]
            group_min(g) <= i < d1.spec_map().next_free(g) ==> d1.spec_dag().parents_at(i) is Some,
        forall|i: int|
            0 <= i < loc0.committed_dag().next(Group::Master) ==> #[trigger] d1.spec_dag().parents_at(
                i,
            ) == loc0.committed_dag().parents_at(i),
        forall|i: int|
            loc0.committed_dag().next(Group::Master) <= i < d1.spec_map().next_free(Group::Master)
                ==> #[trigger] d1.spec_dag().parents_at(i) == Some(
                d1.spec_map().derived_parents(res, i),
            ),
        forall|i: int|
            NON_MASTER_MIN <= i < d1.spec_map().next_free(Group::NonMaster)
                ==> #[trigger] d1.spec_dag().parents_at(i) == Some(
                d1.spec_map().derived_parents(res, i),
            ),
{
    let dag = d1.spec_dag();
    assert forall|g: Group, i: int|
        #![trigger d1.spec_map().next_free(g), dag.parents_at(i)]
        group_min(g) <= i < d1.spec_map().next_free(g) implies dag.parents_at(i) is Some by {
        assert(group_of(i as u64) == g);
    }
}

/// Along a path that avoids the master names of `map0` and starts at a master
/// name of `map1`, every vertex is a master name of `map1`.
proof fn lemma_master_path<R: ParentResolver>(
    map0: IdMap,
    map1: IdMap,
    res: &R,
    p: Seq<Seq<u8>>,
)
    requires
        map1.wf(),
        map0.names(Group::Master).is_prefix_of(map1.names(Group::Master)),
        forall|k: int|
            map0.names(Group::Master).len() <= k < map1.names(Group::Master).len()
                ==> map1.parents_below(res, #[trigger] map1.names(Group::Master)[k]),
        fresh_path(res, map0.names(Group::Master), p),
        map1.names(Group::Master).contains(p[0]),
    ensures
        map1.names(Group::Master).contains(p.last()),
    decreases p.len(),
{
    if p.len() > 1 {
        let q = p.drop_last();
        assert forall|k: int| 0 <= k < q.len() - 1 implies res.parents_of(q[k]).contains(
            #[trigger] q[k + 1],
        ) by {
            assert(q[k] == p[k] && q[k + 1] == p[k + 1]);
        }
        assert forall|k: int| 0 <= k < q.len() implies !map0.names(Group::Master).contains(
            #[trigger] q[k],
        ) by {
            assert(q[k] == p[k]);
        }
        lemma_master_path(map0, map1, res, q);
        let v = q.last();
        let w = p.last();
        assert(v == p[p.len() - 2]);
        assert(w == p[p.len() - 1]);
        assert(res.parents_of(p[p.len() - 2]).contains(p[p.len() - 2 + 1]));
        let m1 = map1.names(Group::Master);
        let i = choose|i: int| 0 <= i < m1.len() && m1[i] == v;
        if i < map0.names(Group::Master).len() {
            assert(map0.names(Group::Master)[i] == v);
        }
        assert(map1.parents_below(res, m1[i]));
        let j = choose|j: int| 0 <= j < res.parents_of(v).len() && res.parents_of(v)[j] == w;
        assert(map1.contains(res.parents_of(v)[j]));
        assert(m1.contains(v));
        map1.lemma_ids(v);
        map1.lemma_ids(w);
        let id = map1.id_of(w);
        assert(map1.name_of(id) == Some(w));
    } else {
        assert(p.last() == p[0]);
    }
}

/// Along a path that avoids the master names of `map1` and starts at a
/// non-master name of `map1`, every vertex is a non-master name of `map1`.
proof fn lemma_non_master_path<R: ParentResolver>(map1: IdMap, res: &R, p: Seq<Seq<u8>>)
    requires
        map1.wf(),
        forall|k: int|
            0 <= k < map1.names(Group::NonMaster).len() ==> map1.parents_below(
                res,
                #[trigger] map1.names(Group::NonMaster)[k],
            ),
        fresh_path(res, map1.names(Group::Master), p),
        map1.contains(p[0]),
    ensures
        map1.names(Group::NonMaster).contains(p.last()),
    decreases p.len(),
{
    assert(!map1.names(Group::Master).contains(p[0]));
    if p.len() > 1 {
        let q = p.drop_last();
        assert forall|k: int| 0 <= k < q.len() - 1 implies res.parents_of(q[k]).contains(
            #[trigger] q[k + 1],
        ) by {
            assert(q[k] == p[k] && q[k + 1] == p[k + 1]);
        }
        assert forall|k: int| 0 <= k < q.len() implies !map1.names(Group::Master).contains(
            #[trigger] q[k],
        ) by {
            assert(q[k] == p[k]);
        }
        lemma_non_master_path(map1, res, q);
        let v = q.last();
        let w = p.last();
        assert(v == p[p.len() - 2]);
        assert(w == p[p.len() - 1]);
        assert(res.parents_of(p[p.len() - 2]).contains(p[p.len() - 2 + 1]));
        let n1 = map1.names(Group::NonMaster);
        let i = choose|i: int| 0 <= i < n1.len() && n1[i] == v;
        assert(map1.parents_below(res, n1[i]));
        let j = choose|j: int| 0 <= j < res.parents_of(v).len() && res.parents_of(v)[j] == w;
        assert(map1.contains(res.parents_of(v)[j]));
        assert(!map1.names(Group::Master).contains(p[p.len() - 1]));
    } else {
        assert(p.last() == p[0]);
    }
}

/// A build numbers exactly the vertices it must. The new master names are
/// the vertices reached from a master head through vertices without a master
/// id before the build; the non-master names are the vertices reached from a
/// non-master head through vertices without a master id after it.
pub proof fn lemma_build_numbers_exactly<R: ParentResolver>(
    map0: IdMap,
    dag0: SegmentStore,
    res: &R,
    master: Seq<Seq<u8>>,
    non_master: Seq<Seq<u8>>,
    map1: IdMap,
    dag1: SegmentStore,
    v: Seq<u8>,
)
    requires
        build_post(map0, dag0, res, master, non_master, map1, dag1),
    ensures
        (map1.names(Group::Master).contains(v) && !map0.names(Group::Master).contains(v))
            <==> (!map0.names(Group::Master).contains(v) && reached_from_heads(
            res,
            map0.names(Group::Master),
            master,
            master.len() as int,
            v,
        )),
        map1.names(Group::NonMaster).contains(v) <==> (!map1.names(Group::Master).contains(v)
            && reached_from_heads(res, map1.names(Group::Master), non_master, non_master.len() as int, v)),
{
    let m0 = map0.names(Group::Master);
    let m1 = map1.names(Group::Master);
    let n1 = map1.names(Group::NonMaster);
    if m1.contains(v) && !m0.contains(v) {
        let k = choose|k: int| 0 <= k < m1.len() && m1[k] == v;
        if k < m0.len() {
            assert(m0[k] == v);
        }
        assert(reached_from_heads(res, m0, master, master.len() as int, m1[k]));
    }
    if !m0.contains(v) && reached_from_heads(res, m0, master, master.len() as int, v) {
        let h = choose|h: int| 0 <= h < master.len() && fresh_ancestor(res, m0, #[trigger] master[h], v);
        let p = choose|p: Seq<Seq<u8>>| #[trigger] fresh_path(res, m0, p) && p[0] == master[h] && p.last() == v;
        assert(m1.contains(master[h]));
        lemma_master_path(map0, map1, res, p);
    }
    if n1.contains(v) {
        let k = choose|k: int| 0 <= k < n1.len() && n1[k] == v;
        assert(reached_from_heads(res, m1, non_master, non_master.len() as int, n1[k]));
        assert(!m1.contains(n1[k]));
    }
    if !m1.contains(v) && reached_from_heads(res, m1, non_master, non_master.len() as int, v) {
        let h = choose|h: int| 0 <= h < non_master.len() && fresh_ancestor(res, m1, #[trigger] non_master[h], v);
        let p = choose|p: Seq<Seq<u8>>| #[trigger] fresh_path(res, m1, p) && p[0] == non_master[h] && p.last() == v;
        assert(map1.contains(non_master[h]));
        lemma_non_master_path(map1, res, p);
    }
}

} // verus!
