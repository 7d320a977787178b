use dag::error::DagError;
use dag::id::{Group, NON_MASTER_MIN};
use dag::nameddag::{build, is_ok_some, LowLevelAccess, Location, NamedDag};
use dag::idmap::IdMap;
use dag::resolver::{ParentResolver, ParentTable};
use dag::segment::SegmentStore;

fn v(s: &str) -> Vec<u8> {
    s.as_bytes().to_vec()
}

fn table(rows: &[(&str, &[&str])]) -> ParentTable {
    let mut t = ParentTable::new();
    for (child, parents) in rows {
        t.insert(v(child), parents.iter().map(|p| v(p)).collect());
    }
    t
}

fn id_of(d: &NamedDag, name: &str) -> Option<u64> {
    d.map().find(name.as_bytes())
}

fn segment_dump(s: &SegmentStore, g: Group) -> Vec<(u64, u64, Vec<u64>)> {
    let mut out = Vec::new();
    let mut id = g.min_id();
    while id < s.next_free_id(g) {
        let (low, high) = s.segment_containing(id).unwrap();
        out.push((low, high, s.parent_ids(low).unwrap()));
        id = high + 1;
    }
    out
}

#[test]
fn linear_pair_gets_ids_in_order() {
    let res = table(&[("A", &["B"]), ("B", &[])]);
    let mut loc = Location::new();
    let mut d = NamedDag::open(&loc).unwrap();
    d.build(&mut loc, &res, &[v("A")], &[]).unwrap();
    assert_eq!(id_of(&d, "B"), Some(0));
    assert_eq!(id_of(&d, "A"), Some(1));
    assert_eq!(d.map().next_free_id(Group::Master), 2);

    let before = segment_dump(d.dag(), Group::Master);
    d.build(&mut loc, &res, &[v("A")], &[]).unwrap();
    assert_eq!(d.map().next_free_id(Group::Master), 2);
    assert_eq!(segment_dump(d.dag(), Group::Master), before);
    assert_eq!(id_of(&d, "B"), Some(0));
    assert_eq!(id_of(&d, "A"), Some(1));
}

#[test]
fn second_build_with_same_heads_changes_nothing() {
    let res = table(&[("C", &["B"]), ("B", &["A"]), ("A", &[]), ("D", &["C"])]);
    let mut loc = Location::new();
    let mut d = NamedDag::open(&loc).unwrap();
    d.build(&mut loc, &res, &[v("C")], &[v("D")]).unwrap();
    let m1 = segment_dump(d.dag(), Group::Master);
    let n1 = segment_dump(d.dag(), Group::NonMaster);
    let ids1: Vec<Option<u64>> = ["A", "B", "C", "D"].iter().map(|n| id_of(&d, n)).collect();
    d.build(&mut loc, &res, &[v("C")], &[v("D")]).unwrap();
    let ids2: Vec<Option<u64>> = ["A", "B", "C", "D"].iter().map(|n| id_of(&d, n)).collect();
    assert_eq!(ids1, ids2);
    assert_eq!(segment_dump(d.dag(), Group::Master), m1);
    assert_eq!(segment_dump(d.dag(), Group::NonMaster), n1);
    // The location holds the same state as the handle.
    let fresh = NamedDag::open(&loc).unwrap();
    assert_eq!(segment_dump(fresh.dag(), Group::Master), m1);
    assert_eq!(id_of(&fresh, "D"), Some(NON_MASTER_MIN));
}

#[test]
fn merge_of_unrelated_histories() {
    let res = table(&[("M", &["X", "Y"]), ("X", &[]), ("Y", &[])]);
    let mut loc = Location::new();
    let mut d = NamedDag::open(&loc).unwrap();
    d.build(&mut loc, &res, &[v("M")], &[]).unwrap();
    let x = id_of(&d, "X").unwrap();
    let y = id_of(&d, "Y").unwrap();
    let m = id_of(&d, "M").unwrap();
    assert_eq!((x, y, m), (0, 1, 2));
    // M starts a segment of its own, with both parents.
    assert_eq!(d.dag().segment_containing(m), Some((m, m)));
    assert_eq!(d.dag().parent_ids(m), Some(vec![x, y]));
    assert!(d.dag().is_ancestor(x, m));
    assert!(d.dag().is_ancestor(y, m));
    assert!(!d.dag().is_ancestor(x, y));
    assert!(!d.dag().is_ancestor(y, x));
    assert!(!d.dag().is_ancestor(m, x));
    assert!(d.dag().is_ancestor(m, m));
}

#[test]
fn amended_draft_loses_its_id() {
    let res = table(&[
        ("P", &["R"]),
        ("R", &[]),
        ("D1", &["P"]),
        ("D2", &["P"]),
    ]);
    let mut loc = Location::new();
    let mut d = NamedDag::open(&loc).unwrap();
    d.build(&mut loc, &res, &[v("P")], &[v("D1")]).unwrap();
    assert_eq!(id_of(&d, "D1"), Some(NON_MASTER_MIN));
    let master_segments = segment_dump(d.dag(), Group::Master);
    let master_ids: Vec<Option<u64>> = ["R", "P"].iter().map(|n| id_of(&d, n)).collect();

    // D1 is amended into D2, which has the same parent.
    d.build(&mut loc, &res, &[v("P")], &[v("D2")]).unwrap();
    assert_eq!(segment_dump(d.dag(), Group::Master), master_segments);
    let master_ids2: Vec<Option<u64>> = ["R", "P"].iter().map(|n| id_of(&d, n)).collect();
    assert_eq!(master_ids, master_ids2);
    assert_eq!(id_of(&d, "D1"), None);
    assert_eq!(id_of(&d, "D2"), Some(NON_MASTER_MIN));
    assert_eq!(d.map().find_name_by_id(NON_MASTER_MIN), Some(v("D2")));
    assert_eq!(d.dag().parent_ids(NON_MASTER_MIN), Some(vec![1]));
}

#[test]
fn master_ids_survive_later_builds() {
    let res = table(&[("A", &[]), ("B", &["A"]), ("C", &["B"]), ("E", &["C"]), ("F", &["E"])]);
    let mut loc = Location::new();
    let mut d = NamedDag::open(&loc).unwrap();
    d.build(&mut loc, &res, &[v("B")], &[v("E")]).unwrap();
    assert_eq!(id_of(&d, "A"), Some(0));
    assert_eq!(id_of(&d, "B"), Some(1));
    assert_eq!(id_of(&d, "C"), Some(NON_MASTER_MIN));
    assert_eq!(id_of(&d, "E"), Some(NON_MASTER_MIN + 1));
    // Publishing F moves its drafts into the master group after A and B.
    d.build(&mut loc, &res, &[v("F")], &[]).unwrap();
    assert_eq!(id_of(&d, "A"), Some(0));
    assert_eq!(id_of(&d, "B"), Some(1));
    assert_eq!(id_of(&d, "C"), Some(2));
    assert_eq!(id_of(&d, "E"), Some(3));
    assert_eq!(id_of(&d, "F"), Some(4));
    assert_eq!(d.map().next_free_id(Group::NonMaster), NON_MASTER_MIN);
}

#[test]
fn segments_match_parent_ids() {
    let res = table(&[
        ("A", &[]),
        ("B", &["A"]),
        ("C", &["B"]),
        ("D", &["A"]),
        ("E", &["C", "D"]),
    ]);
    let mut loc = Location::new();
    let mut d = NamedDag::open(&loc).unwrap();
    d.build(&mut loc, &res, &[v("E")], &[]).unwrap();
    let next = d.map().next_free_id(Group::Master);
    assert_eq!(next, 5);
    for id in 0..next {
        let from_map = d.map().parent_ids(&res, id).unwrap();
        assert_eq!(d.dag().parent_ids(id), Some(from_map));
    }
    assert_eq!(d.dag().parent_ids(next), None);
}

#[test]
fn linear_history_takes_one_segment() {
    let mut t = ParentTable::new();
    t.insert(v("c0"), vec![]);
    for i in 1..50 {
        t.insert(format!("c{}", i).into_bytes(), vec![format!("c{}", i - 1).into_bytes()]);
    }
    let mut loc = Location::new();
    let mut d = NamedDag::open(&loc).unwrap();
    d.build(&mut loc, &t, &[v("c49")], &[]).unwrap();
    assert_eq!(segment_dump(d.dag(), Group::Master), vec![(0, 49, vec![])]);
    assert!(d.dag().is_ancestor(0, 49));
    assert!(d.dag().is_ancestor(17, 30));
    assert!(!d.dag().is_ancestor(31, 30));
    assert_eq!(d.dag().parent_ids(30), Some(vec![29]));
}

#[test]
fn branches_start_new_segments() {
    let res = table(&[("A", &[]), ("B", &["A"]), ("C", &["A"]), ("H", &["B", "C"])]);
    let mut loc = Location::new();
    let mut d = NamedDag::open(&loc).unwrap();
    d.build(&mut loc, &res, &[v("H")], &[]).unwrap();
    assert_eq!(
        segment_dump(d.dag(), Group::Master),
        vec![(0, 1, vec![]), (2, 2, vec![0]), (3, 3, vec![1, 2])]
    );
    assert!(d.dag().is_ancestor(0, 3));
    assert!(!d.dag().is_ancestor(1, 2));
}

#[test]
fn empty_frontier_builds_nothing() {
    let res = ParentTable::new();
    let mut loc = Location::new();
    let mut d = NamedDag::open(&loc).unwrap();
    d.build(&mut loc, &res, &[], &[]).unwrap();
    assert_eq!(d.map().next_free_id(Group::Master), 0);
    assert_eq!(d.dag().next_free_id(Group::NonMaster), NON_MASTER_MIN);
    assert!(segment_dump(d.dag(), Group::Master).is_empty());
}

#[test]
fn locked_location_reports_contention() {
    let res = table(&[("A", &[])]);
    let mut loc = Location::new();
    let mut d = NamedDag::open(&loc).unwrap();
    loc.try_lock().unwrap();
    assert!(loc.is_locked());
    assert_eq!(loc.try_lock(), Err(DagError::Contention));
    assert_eq!(d.build(&mut loc, &res, &[v("A")], &[]), Err(DagError::Contention));
    assert!(NamedDag::open(&loc).is_err());
    loc.unlock();
    assert!(d.build(&mut loc, &res, &[v("A")], &[]).is_ok());
    assert!(!loc.is_locked());
    assert_eq!(id_of(&d, "A"), Some(0));
}

#[test]
fn resolver_failure_leaves_state_alone() {
    let good = table(&[("A", &[])]);
    let mut loc = Location::new();
    let mut d = NamedDag::open(&loc).unwrap();
    d.build(&mut loc, &good, &[v("A")], &[]).unwrap();
    let bad = table(&[("A", &[]), ("B", &["A", "missing"])]);
    assert_eq!(
        d.build(&mut loc, &bad, &[v("B")], &[]),
        Err(DagError::ResolverFailure)
    );
    assert!(!loc.is_locked());
    assert_eq!(id_of(&d, "B"), None);
    let fresh = NamedDag::open(&loc).unwrap();
    assert_eq!(fresh.map().next_free_id(Group::Master), 1);
    assert_eq!(id_of(&fresh, "missing"), None);
}

#[test]
fn cyclic_history_is_an_integrity_error() {
    let res = table(&[("A", &["B"]), ("B", &["A"])]);
    let mut loc = Location::new();
    let mut d = NamedDag::open(&loc).unwrap();
    assert_eq!(d.build(&mut loc, &res, &[v("A")], &[]), Err(DagError::Integrity));
    assert_eq!(d.map().next_free_id(Group::Master), 0);
}

#[test]
fn reload_sees_other_writers() {
    let res = table(&[("A", &[]), ("B", &["A"])]);
    let mut loc = Location::new();
    let mut reader = NamedDag::open(&loc).unwrap();
    let mut writer = NamedDag::open(&loc).unwrap();
    writer.build(&mut loc, &res, &[v("B")], &[]).unwrap();
    assert_eq!(id_of(&reader, "B"), None);
    reader.reload(&loc).unwrap();
    assert_eq!(id_of(&reader, "B"), Some(1));
    assert_eq!(segment_dump(reader.dag(), Group::Master), vec![(0, 1, vec![])]);
}

#[test]
fn free_build_on_staged_structures() {
    let res = table(&[("A", &[]), ("B", &["A"]), ("X", &["B"])]);
    let mut map = IdMap::new();
    let mut segs = SegmentStore::new();
    build(&mut map, &mut segs, &res, &[v("B")], &[v("X")]).unwrap();
    assert_eq!(map.find(b"B"), Some(1));
    assert_eq!(map.find_with_max_group(b"X", Group::Master), None);
    assert_eq!(map.find_with_max_group(b"X", Group::NonMaster), Some(NON_MASTER_MIN));
    assert_eq!(segs.next_free_id(Group::NonMaster), NON_MASTER_MIN + 1);
    assert_eq!(segs.parent_ids(NON_MASTER_MIN), Some(vec![1]));
}

#[test]
fn assign_head_numbers_ancestors_first() {
    let res = table(&[("A", &[]), ("B", &["A"]), ("C", &["A"]), ("D", &["B", "C"])]);
    let mut map = IdMap::new();
    let id = map.assign_head(b"D", &res, Group::Master).unwrap();
    assert_eq!(id, 3);
    for name in ["A", "B", "C", "D"] {
        let i = map.find(name.as_bytes()).unwrap();
        for p in res.parent_names(name.as_bytes()).unwrap() {
            assert!(map.find(&p).unwrap() < i);
        }
    }
    // Already known: nothing new, and the resolver is not needed.
    let empty = ParentTable::new();
    assert_eq!(map.assign_head(b"B", &empty, Group::Master), Ok(1));
    assert_eq!(map.next_free_id(Group::Master), 4);
}

#[test]
fn parent_ids_reports_inconsistency() {
    let res = table(&[("A", &[])]);
    let mut map = IdMap::new();
    map.assign_head(b"A", &res, Group::Master).unwrap();
    assert_eq!(map.parent_ids(&res, 0), Ok(vec![]));
    assert_eq!(map.parent_ids(&res, 5), Err(DagError::Integrity));
    let other = table(&[("A", &["Z"])]);
    assert_eq!(map.parent_ids(&other, 0), Err(DagError::Integrity));
}

#[test]
fn parent_table_replaces_rows() {
    let mut t = ParentTable::new();
    assert_eq!(t.parent_names(b"A"), Err(DagError::ResolverFailure));
    t.insert(v("A"), vec![v("B")]);
    assert_eq!(t.parent_names(b"A"), Ok(vec![v("B")]));
    t.insert(v("A"), vec![v("C"), v("D")]);
    assert_eq!(t.parent_names(b"A"), Ok(vec![v("C"), v("D")]));
}

#[test]
fn groups_partition_ids() {
    assert_eq!(Group::of(0), Group::Master);
    assert_eq!(Group::of(NON_MASTER_MIN - 1), Group::Master);
    assert_eq!(Group::of(NON_MASTER_MIN), Group::NonMaster);
    assert_eq!(Group::of(u64::MAX), Group::NonMaster);
    assert_eq!(Group::Master.max_id() + 1, Group::NonMaster.min_id());
    assert_eq!(Group::NonMaster.max_id(), u64::MAX);
    assert_eq!(Group::ALL, [Group::Master, Group::NonMaster]);
}

#[test]
fn is_ok_some_tells_found() {
    assert!(is_ok_some(Some(3u64)));
    assert!(!is_ok_some::<u64>(None));
}

#[test]
fn extending_covered_segments_changes_nothing() {
    let res = table(&[("A", &[]), ("B", &["A"]), ("C", &["A"])]);
    let mut map = IdMap::new();
    map.assign_head(b"B", &res, Group::Master).unwrap();
    map.assign_head(b"C", &res, Group::Master).unwrap();
    let mut segs = SegmentStore::new();
    segs.build_segments_persistent(1, &map, &res).unwrap();
    assert_eq!(segment_dump(&segs, Group::Master), vec![(0, 1, vec![])]);
    // Already covered: a no-op.
    segs.build_segments_persistent(0, &map, &res).unwrap();
    assert_eq!(segment_dump(&segs, Group::Master), vec![(0, 1, vec![])]);
    // C's parent is A, not the id below it: a new segment.
    segs.build_segments_persistent(2, &map, &res).unwrap();
    assert_eq!(segment_dump(&segs, Group::Master), vec![(0, 1, vec![]), (2, 2, vec![0])]);
    assert_eq!(segs.next_free_id(Group::Master), 3);
}

#[test]
fn segments_fail_on_unknown_ids() {
    let res = table(&[("A", &[])]);
    let map = IdMap::new();
    let mut segs = SegmentStore::new();
    assert_eq!(segs.build_segments_persistent(0, &map, &res), Err(DagError::Integrity));
    assert_eq!(segs.next_free_id(Group::Master), 0);
}
