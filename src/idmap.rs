//! The identifier map: a bidirectional relation between vertex names and
//! dense integer ids, one dense range per group.

use vstd::prelude::*;

use crate::bytes::{bytes_eq, copy_bytes, copy_names, names_view, position};
use crate::error::DagError;
use crate::id::{group_max, group_min, Group, Id, NON_MASTER_MIN};
use crate::resolver::{acyclic_from, all_answer, fresh_ancestor, fresh_path, ParentResolver};

verus! {

/// A vertex waiting for an id, with the parents its resolver reported.
struct Pending {
    vertex: Vec<u8>,
    parents: Vec<Vec<u8>>,
}

spec fn pending_names(s: Seq<Pending>) -> Seq<Seq<u8>> {
    s.map_values(|e: Pending| e.vertex@)
}

/// Whether `v` is one of the vertices waiting on the stack.
fn is_pending(stack: &Vec<Pending>, v: &[u8]) -> (r: bool)
    ensures
        r == pending_names(stack@).contains(v@),
{
    let mut i: usize = 0;
    while i < stack.len()
        invariant
            i <= stack@.len(),
            forall|k: int| 0 <= k < i ==> stack@[k].vertex@ != v@,
        decreases stack@.len() - i,
    {
        if bytes_eq(stack[i].vertex.as_slice(), v) {
            assert(pending_names(stack@)[i as int] == v@);
            return true;
        }
        i = i + 1;
    }
    proof {
        if pending_names(stack@).contains(v@) {
            let k = choose|k: int|
                0 <= k < pending_names(stack@).len() && pending_names(stack@)[k] == v@;
            assert(stack@[k].vertex@ == v@);
        }
    }
    false
}

/// Vertex names and their ids. The name at position `k` of a group's list has
/// id `min_id + k` of that group, so ids are dense and assigned in order.
pub struct IdMap {
    master: Vec<Vec<u8>>,
    non_master: Vec<Vec<u8>>,
}

impl IdMap {
    /// The names of group `g`, in id order.
    pub closed spec fn names(&self, g: Group) -> Seq<Seq<u8>> {
        match g {
            Group::Master => names_view(self.master@),
            Group::NonMaster => names_view(self.non_master@),
        }
    }

    /// All names, master ones first.
    pub open spec fn all_names(&self) -> Seq<Seq<u8>> {
        self.names(Group::Master) + self.names(Group::NonMaster)
    }

    /// No name has two ids, and each group keeps its last id free, so that
    /// the next free id always fits in an `Id`.
    pub open spec fn wf(&self) -> bool {
        &&& self.all_names().no_duplicates()
        &&& self.next_free(Group::Master) <= group_max(Group::Master)
        &&& self.next_free(Group::NonMaster) <= group_max(Group::NonMaster)
    }

    /// Whether `v` has an id in some group.
    pub open spec fn contains(&self, v: Seq<u8>) -> bool {
        self.names(Group::Master).contains(v) || self.names(Group::NonMaster).contains(v)
    }

    /// The smallest id of `g` that no name holds.
    pub open spec fn next_free(&self, g: Group) -> int {
        group_min(g) + self.names(g).len()
    }

    /// The name that holds `id`, if any.
    pub open spec fn name_of(&self, id: int) -> Option<Seq<u8>> {
        if 0 <= id < self.names(Group::Master).len() {
            Some(self.names(Group::Master)[id])
        } else if NON_MASTER_MIN <= id < self.next_free(Group::NonMaster) {
            Some(self.names(Group::NonMaster)[id - NON_MASTER_MIN])
        } else {
            None
        }
    }

    /// The id of `v`; meaningful where `self.contains(v)`.
    pub open spec fn id_of(&self, v: Seq<u8>) -> int {
        if self.names(Group::Master).contains(v) {
            self.names(Group::Master).index_of(v)
        } else {
            NON_MASTER_MIN + self.names(Group::NonMaster).index_of(v)
        }
    }

    /// Every parent of `v` (as `res` reports them) has an id, smaller than
    /// the id of `v`.
    pub open spec fn parents_below<R: ParentResolver>(&self, res: &R, v: Seq<u8>) -> bool {
        forall|j: int|
            0 <= j < res.parents_of(v).len() ==> self.contains(#[trigger] res.parents_of(v)[j])
                && self.id_of(res.parents_of(v)[j]) < self.id_of(v)
    }

    /// Every name has its parents (as `res` reports them) numbered below it:
    /// the map holds whole histories, in topological order.
    pub open spec fn closed<R: ParentResolver>(&self, res: &R) -> bool {
        forall|v: Seq<u8>| #[trigger] self.contains(v) ==> self.parents_below(res, v)
    }

    /// `later` holds every id of `self`, for the same name.
    pub open spec fn extended_by(&self, later: &IdMap) -> bool {
        &&& self.names(Group::Master).is_prefix_of(later.names(Group::Master))
        &&& self.names(Group::NonMaster).is_prefix_of(later.names(Group::NonMaster))
    }

    /// Ids and names correspond one to one.
    pub proof fn lemma_ids(&self, v: Seq<u8>)
        requires
            self.wf(),
            self.contains(v),
        ensures
            self.name_of(self.id_of(v)) == Some(v),
            0 <= self.id_of(v) < self.next_free(Group::Master) || NON_MASTER_MIN <= self.id_of(v)
                < self.next_free(Group::NonMaster),
            forall|id: int| self.name_of(id) == Some(v) ==> id == self.id_of(v),
    {
        let m = self.names(Group::Master);
        let n = self.names(Group::NonMaster);
        let a = self.all_names();
        assert forall|id: int| self.name_of(id) == Some(v) implies id == self.id_of(v) by {
            if m.contains(v) {
                let k = m.index_of(v);
                if 0 <= id < m.len() {
                    assert(a[id] == v && a[k] == v);
                } else {
                    let x = id - NON_MASTER_MIN;
                    assert(a[m.len() + x] == v && a[k] == v);
                }
            } else {
                let k = n.index_of(v);
                if 0 <= id < m.len() {
                    assert(m[id] == v);
                } else {
                    let x = id - NON_MASTER_MIN;
                    assert(a[m.len() + x] == v && a[m.len() + k] == v);
                }
            }
        }
    }

    /// What `extended_by` keeps: names, ids, and the ordering of parents.
    pub proof fn lemma_extended<R: ParentResolver>(&self, later: &IdMap, res: &R)
        requires
            self.wf(),
            later.wf(),
            self.extended_by(later),
        ensures
            forall|v: Seq<u8>|
                #![trigger self.contains(v)]
                #![trigger later.contains(v)]
                self.contains(v) ==> later.contains(v) && later.id_of(v) == self.id_of(v),
            forall|v: Seq<u8>|
                self.contains(v) && #[trigger] self.parents_below(res, v) ==> later.parents_below(
                    res,
                    v,
                ),
            forall|id: int|
                #![trigger self.name_of(id)]
                self.name_of(id) is Some ==> later.name_of(id) == self.name_of(id),
    {
        assert forall|v: Seq<u8>| #![trigger self.contains(v)] self.contains(v) implies later.contains(v)
            && later.id_of(v) == self.id_of(v) by {
            self.lemma_ids(v);
            let id = self.id_of(v);
            assert(later.name_of(id) == Some(v));
            later.lemma_ids(v);
        }
        assert forall|v: Seq<u8>| self.contains(v) && #[trigger] self.parents_below(res, v) implies later.parents_below(
            res,
            v,
        ) by {
            assert forall|j: int| 0 <= j < res.parents_of(v).len() implies later.contains(
                #[trigger] res.parents_of(v)[j],
            ) && later.id_of(res.parents_of(v)[j]) < later.id_of(v) by {
                let p = res.parents_of(v)[j];
                assert(self.contains(p));
            }
        }
    }

    /// An empty map.
    pub fn new() -> (r: IdMap)
        ensures
            r.wf(),
            r.names(Group::Master) == Seq::<Seq<u8>>::empty(),
            r.names(Group::NonMaster) == Seq::<Seq<u8>>::empty(),
    {
        let r = IdMap { master: Vec::new(), non_master: Vec::new() };
        assert(r.names(Group::Master) =~= Seq::<Seq<u8>>::empty());
        assert(r.names(Group::NonMaster) =~= Seq::<Seq<u8>>::empty());
        assert(r.all_names() =~= Seq::<Seq<u8>>::empty());
        r
    }

    /// A copy of the map.
    pub fn duplicate(&self) -> (r: IdMap)
        ensures
            r.names(Group::Master) == self.names(Group::Master),
            r.names(Group::NonMaster) == self.names(Group::NonMaster),
    {
        IdMap { master: copy_names(&self.master), non_master: copy_names(&self.non_master) }
    }

    /// The id of `v` in any group, or `None` where `v` has no id.
    pub fn find(&self, v: &[u8]) -> (r: Option<Id>)
        requires
            self.wf(),
        ensures
            r matches Some(id) ==> self.contains(v@) && id as int == self.id_of(v@),
            r is None ==> !self.contains(v@),
    {
        let r = self.find_with_max_group(v, Group::NonMaster);
        r
    }

    /// The id of `v`, searching only the groups up to `max_group`: with
    /// `Group::Master`, a name known only to the non-master group is not found.
    pub fn find_with_max_group(&self, v: &[u8], max_group: Group) -> (r: Option<Id>)
        requires
            self.wf(),
        ensures
            r matches Some(id) ==> self.contains(v@) && id as int == self.id_of(v@) && (max_group
                == Group::Master ==> self.names(Group::Master).contains(v@)),
            r is None ==> !self.names(Group::Master).contains(v@) && (max_group == Group::NonMaster
                ==> !self.contains(v@)),
    {
        match position(&self.master, v) {
            Some(i) => {
                proof {
                    assert(self.names(Group::Master)[i as int] == v@);
                    assert(self.names(Group::Master).contains(v@));
                    self.lemma_ids(v@);
                    assert(self.name_of(i as int) == Some(v@));
                }
                return Some(i as u64);
            },
            None => {},
        }
        match max_group {
            Group::Master => None,
            Group::NonMaster => match position(&self.non_master, v) {
                Some(i) => {
                    proof {
                        assert(self.names(Group::NonMaster)[i as int] == v@);
                        assert(self.names(Group::NonMaster).contains(v@));
                        self.lemma_ids(v@);
                        assert(self.name_of(NON_MASTER_MIN + i) == Some(v@));
                    }
                    Some(NON_MASTER_MIN + i as u64)
                },
                None => None,
            },
        }
    }

    /// The smallest free id of group `g`.
    pub fn next_free_id(&self, g: Group) -> (r: Id)
        requires
            self.wf(),
        ensures
            r as int == self.next_free(g),
    {
        match g {
            Group::Master => self.master.len() as u64,
            Group::NonMaster => NON_MASTER_MIN + self.non_master.len() as u64,
        }
    }

    /// The name that holds `id`, or `None` where no name does.
    pub fn find_name_by_id(&self, id: Id) -> (r: Option<Vec<u8>>)
        requires
            self.wf(),
        ensures
            r matches Some(n) ==> self.name_of(id as int) == Some(n@),
            r is None ==> self.name_of(id as int) is None,
    {
        if id < self.master.len() as u64 {
            Some(copy_bytes(self.master[id as usize].as_slice()))
        } else if NON_MASTER_MIN <= id && id - NON_MASTER_MIN < self.non_master.len() as u64 {
            Some(copy_bytes(self.non_master[(id - NON_MASTER_MIN) as usize].as_slice()))
        } else {
            None
        }
    }

    /// A name has an id exactly when it is among all names.
    pub proof fn lemma_contains_all(&self, v: Seq<u8>)
        ensures
            self.contains(v) == self.all_names().contains(v),
    {
        let m = self.names(Group::Master);
        let a = self.all_names();
        if a.contains(v) {
            let i = choose|i: int| 0 <= i < a.len() && a[i] == v;
            if i < m.len() {
                assert(m[i] == v);
            } else {
                assert(self.names(Group::NonMaster)[i - m.len()] == v);
            }
        }
        if m.contains(v) {
            let i = choose|i: int| 0 <= i < m.len() && m[i] == v;
            assert(a[i] == v);
        }
        if self.names(Group::NonMaster).contains(v) {
            let i = choose|i: int|
                0 <= i < self.names(Group::NonMaster).len() && self.names(Group::NonMaster)[i] == v;
            assert(a[m.len() + i] == v);
        }
    }

    /// Vertices of `res` that have no id yet.
    pub open spec fn unassigned<R: ParentResolver>(&self, res: &R) -> Set<Seq<u8>> {
        res.vertices().difference(self.all_names().to_set())
    }

    /// Every id is below the next free id of `g`, where `g` is the highest
    /// group in use.
    proof fn lemma_below_next_free(&self, g: Group, v: Seq<u8>)
        requires
            self.wf(),
            self.contains(v),
            g == Group::Master ==> self.names(Group::NonMaster).len() == 0,
        ensures
            0 <= self.id_of(v) < self.next_free(g),
    {
        self.lemma_ids(v);
    }

    /// Gives `v` the next free id of `g`.
    fn push_name(&mut self, g: Group, v: Vec<u8>) -> (r: Id)
        requires
            old(self).wf(),
            !old(self).contains(v@),
            old(self).next_free(g) < group_max(g),
        ensures
            final(self).wf(),
            r as int == old(self).next_free(g),
            final(self).names(g) == old(self).names(g).push(v@),
            g == Group::Master ==> final(self).names(Group::NonMaster) == old(self).names(
                Group::NonMaster,
            ),
            g == Group::NonMaster ==> final(self).names(Group::Master) == old(self).names(
                Group::Master,
            ),
            final(self).contains(v@),
            final(self).id_of(v@) == r as int,
            old(self).extended_by(final(self)),
            final(self).all_names().to_set() == old(self).all_names().to_set().insert(v@),
    {
        let ghost m0 = self.names(Group::Master);
        let ghost n0 = self.names(Group::NonMaster);
        let ghost vv = v@;
        let r = self.next_free_id(g);
        match g {
            Group::Master => {
                self.master.push(v);
                assert(self.names(Group::Master) =~= m0.push(vv));
            },
            Group::NonMaster => {
                self.non_master.push(v);
                assert(self.names(Group::NonMaster) =~= n0.push(vv));
            },
        }
        proof {
            let a0 = m0 + n0;
            let a = self.all_names();
            assert(!a0.contains(vv));
            assert(a.to_set() =~= a0.to_set().insert(vv)) by {
                assert forall|x: Seq<u8>| a.to_set().contains(x) implies a0.to_set().insert(
                    x,
                ).contains(x) && (x == vv || a0.to_set().contains(x)) by {
                    let i = choose|i: int| 0 <= i < a.len() && a[i] == x;
                    if x != vv {
                        if g == Group::Master {
                            if i < m0.len() {
                                assert(a0[i] == x);
                            } else {
                                assert(a0[i - 1] == x);
                            }
                        } else {
                            assert(a0[i] == x);
                        }
                    }
                }
                assert forall|x: Seq<u8>| a0.to_set().insert(vv).contains(x) implies a.to_set().contains(
                    x,
                ) by {
                    if x == vv {
                        if g == Group::Master {
                            assert(a[m0.len() as int] == x);
                        } else {
                            assert(a[a0.len() as int] == x);
                        }
                    } else {
                        let i = choose|i: int| 0 <= i < a0.len() && a0[i] == x;
                        if g == Group::Master {
                            if i < m0.len() {
                                assert(a[i] == x);
                            } else {
                                assert(a[i + 1] == x);
                            }
                        } else {
                            assert(a[i] == x);
                        }
                    }
                }
            }
            assert(a.no_duplicates()) by {
                assert forall|i: int, j: int|
                    0 <= i < a.len() && 0 <= j < a.len() && i != j implies a[i] != a[j] by {
                    if g == Group::Master {
                        let k = m0.len() as int;
                        if i == k {
                            if j < k {
                                assert(a0[j] == a[j]);
                            } else {
                                assert(a0[j - 1] == a[j]);
                            }
                        } else if j == k {
                            if i < k {
                                assert(a0[i] == a[i]);
                            } else {
                                assert(a0[i - 1] == a[i]);
                            }
                        } else {
                            let ii = if i < k { i } else { i - 1 };
                            let jj = if j < k { j } else { j - 1 };
                            assert(a0[ii] == a[i] && a0[jj] == a[j]);
                        }
                    } else {
                        let k = a0.len() as int;
                        if i == k {
                            assert(a0[j] == a[j]);
                        } else if j == k {
                            assert(a0[i] == a[i]);
                        } else {
                            assert(a0[i] == a[i] && a0[j] == a[j]);
                        }
                    }
                }
            }
            let id = r as int;
            assert(self.name_of(id) == Some(vv));
            assert(self.contains(vv));
            self.lemma_ids(vv);
        }
        r
    }

    /// Drops every name of the non-master group.
    pub fn clear_non_master(&mut self)
        requires
            old(self).wf(),
        ensures
            final(self).wf(),
            final(self).names(Group::Master) == old(self).names(Group::Master),
            final(self).names(Group::NonMaster) == Seq::<Seq<u8>>::empty(),
    {
        self.non_master = Vec::new();
        assert(self.names(Group::NonMaster) =~= Seq::<Seq<u8>>::empty());
        assert(self.all_names() =~= self.names(Group::Master));
        assert(old(self).all_names().subrange(0, self.names(Group::Master).len() as int)
            =~= self.all_names());
    }

    /// Position of the first name of `ps` without an id, if any.
    fn first_missing(&self, ps: &Vec<Vec<u8>>) -> (r: Option<usize>)
        requires
            self.wf(),
        ensures
            r matches Some(j) ==> j < ps@.len() && !self.contains(ps@[j as int]@),
            r is None ==> forall|j: int| 0 <= j < ps@.len() ==> self.contains(#[trigger] ps@[j]@),
    {
        let mut j: usize = 0;
        while j < ps.len()
            invariant
                self.wf(),
                j <= ps@.len(),
                forall|k: int| 0 <= k < j ==> self.contains(#[trigger] ps@[k]@),
            decreases ps@.len() - j,
        {
            if self.find(ps[j].as_slice()).is_none() {
                return Some(j);
            }
            j = j + 1;
        }
        None
    }

    /// Gives `head` and each of its ancestors without an id an id in `g`,
    /// ancestors before descendants. The walk stops at vertices that already
    /// have an id: the resolver is only asked about vertices without one.
    ///
    /// It succeeds when every vertex it reaches answers, no walk from `head`
    /// meets a vertex twice, and the group has room for every vertex of the
    /// resolver still without an id. Master ids are only given while the
    /// non-master group is empty: a master id must lie below the ids of all
    /// descendants, and every non-master id lies above every master id.
    pub fn assign_head<R: ParentResolver>(&mut self, head: &[u8], res: &R, g: Group) -> (r: Result<
        Id,
        DagError,
    >)
        requires
            old(self).wf(),
            g == Group::Master ==> old(self).names(Group::NonMaster).len() == 0,
        ensures
            final(self).wf(),
            old(self).extended_by(final(self)),
            g == Group::Master ==> final(self).names(Group::NonMaster) == old(self).names(
                Group::NonMaster,
            ),
            g == Group::NonMaster ==> final(self).names(Group::Master) == old(self).names(
                Group::Master,
            ),
            forall|k: int|
                old(self).names(g).len() <= k < final(self).names(g).len() ==> !old(self).contains(
                    #[trigger] final(self).names(g)[k],
                ) && final(self).parents_below(res, final(self).names(g)[k]),
            forall|k: int|
                old(self).names(g).len() <= k < final(self).names(g).len() ==> fresh_ancestor(
                    res,
                    old(self).all_names(),
                    head@,
                    #[trigger] final(self).names(g)[k],
                ),
            forall|k: int|
                old(self).names(g).len() <= k < final(self).names(g).len() ==> res.answers(
                    #[trigger] final(self).names(g)[k],
                ),
            final(self).next_free(g) + final(self).unassigned(res).len() <= old(self).next_free(g)
                + old(self).unassigned(res).len(),
            all_answer(res, old(self).all_names(), head@) && acyclic_from(
                res,
                old(self).all_names(),
                head@,
            ) && old(self).next_free(g) + old(self).unassigned(res).len() <= group_max(g)
                ==> r is Ok,
            r matches Err(e) ==> e != DagError::Contention,
            r == Err::<Id, DagError>(DagError::ResolverFailure) ==> !all_answer(
                res,
                old(self).all_names(),
                head@,
            ),
            r == Err::<Id, DagError>(DagError::Integrity) ==> !acyclic_from(
                res,
                old(self).all_names(),
                head@,
            ),
            r == Err::<Id, DagError>(DagError::IdsExhausted) ==> old(self).next_free(g) + old(
                self,
            ).unassigned(res).len() > group_max(g),
            r matches Ok(id) ==> final(self).contains(head@) && id as int == final(self).id_of(
                head@,
            ),
            old(self).contains(head@) ==> r is Ok && final(self).names(Group::Master) == old(
                self,
            ).names(Group::Master) && final(self).names(Group::NonMaster) == old(self).names(
                Group::NonMaster,
            ),
    {
        if let Some(id) = self.find(head) {
            return Ok(id);
        }
        let ghost start = *self;
        proof {
            res.lemma_vertices_finite();
            self.lemma_contains_all(head@);
        }
        let parents = match res.parent_names(head) {
            Ok(ps) => ps,
            Err(e) => {
                proof {
                    let q = seq![head@];
                    assert(fresh_path(res, start.all_names(), q));
                    assert(fresh_ancestor(res, start.all_names(), head@, head@));
                }
                return Err(e);
            },
        };
        let mut stack: Vec<Pending> = Vec::new();
        stack.push(Pending { vertex: copy_bytes(head), parents });
        proof {
            res.lemma_vertices_finite();
            assert(pending_names(stack@) =~= seq![head@]);
            self.lemma_contains_all(head@);
            assert(!self.all_names().contains(head@));
        }
        while stack.len() > 0
            invariant
                self.wf(),
                start == *old(self),
                !start.contains(head@),
                start.wf(),
                start.extended_by(self),
                g == Group::Master ==> self.names(Group::NonMaster) == start.names(
                    Group::NonMaster,
                ),
                g == Group::NonMaster ==> self.names(Group::Master) == start.names(Group::Master),
                g == Group::Master ==> start.names(Group::NonMaster).len() == 0,
                forall|k: int|
                    start.names(g).len() <= k < self.names(g).len() ==> !start.contains(
                        #[trigger] self.names(g)[k],
                    ) && self.parents_below(res, self.names(g)[k]),
                forall|k: int|
                    start.names(g).len() <= k < self.names(g).len() ==> fresh_ancestor(
                        res,
                        start.all_names(),
                        head@,
                        #[trigger] self.names(g)[k],
                    ),
                forall|i: int|
                    0 <= i < stack@.len() ==> !start.all_names().contains(#[trigger] stack@[i].vertex@),
                forall|i: int| 0 <= i < stack@.len() ==> res.answers(#[trigger] stack@[i].vertex@),
                forall|k: int|
                    start.names(g).len() <= k < self.names(g).len() ==> res.answers(
                        #[trigger] self.names(g)[k],
                    ),
                self.next_free(g) + self.unassigned(res).len() <= start.next_free(g)
                    + start.unassigned(res).len(),
                forall|i: int|
                    0 <= i < stack@.len() - 1 ==> res.parents_of(stack@[i].vertex@).contains(
                        #[trigger] stack@[i + 1].vertex@,
                    ),
                res.vertices().finite(),
                pending_names(stack@).no_duplicates(),
                forall|i: int|
                    0 <= i < stack@.len() ==> {
                        &&& res.vertices().contains(#[trigger] stack@[i].vertex@)
                        &&& !self.all_names().contains(stack@[i].vertex@)
                        &&& names_view(stack@[i].parents@) == res.parents_of(stack@[i].vertex@)
                    },
                stack@.len() > 0 ==> stack@[0].vertex@ == head@,
                stack@.len() == 0 ==> self.contains(head@),
            decreases self.unassigned(res).len(), self.unassigned(res).len() - stack@.len(),
        {
            proof {
                let ps = pending_names(stack@);
                assert(ps.to_set().subset_of(self.unassigned(res))) by {
                    assert forall|x: Seq<u8>| ps.to_set().contains(x) implies self.unassigned(
                        res,
                    ).contains(x) by {
                        let i = choose|i: int| 0 <= i < ps.len() && ps[i] == x;
                        assert(stack@[i].vertex@ == x);
                        assert(!self.all_names().to_set().contains(x));
                    }
                }
                ps.unique_seq_to_set();
                vstd::set_lib::lemma_len_subset(ps.to_set(), self.unassigned(res));
            }
            let top = stack.len() - 1;
            match self.first_missing(&stack[top].parents) {
                None => {
                    if self.next_free_id(g) >= g.max_id() {
                        proof {
                            let v = stack@[top as int].vertex@;
                            assert(!self.all_names().to_set().contains(v));
                            assert(self.unassigned(res).contains(v));
                            assert(self.unassigned(res).remove(v).len() == self.unassigned(res).len()
                                - 1);
                        }
                        return Err(DagError::IdsExhausted);
                    }
                    let ghost before = *self;
                    let ghost unassigned_before = self.unassigned(res);
                    let ghost stack_before = stack@;
                    let entry = stack.pop().unwrap();
                    let ghost v = entry.vertex@;
                    assert(stack_before[top as int] == entry);
                    assert(stack@ =~= stack_before.subrange(0, top as int));
                    assert(pending_names(stack@) =~= pending_names(stack_before).subrange(
                        0,
                        top as int,
                    ));
                    proof {
                        before.lemma_contains_all(v);
                        assert forall|j: int|
                            0 <= j < res.parents_of(v).len() implies before.contains(
                            #[trigger] res.parents_of(v)[j],
                        ) by {
                            assert(names_view(entry.parents@)[j] == entry.parents@[j]@);
                        }
                    }
                    self.push_name(g, entry.vertex);
                    proof {
                        before.lemma_extended(self, res);
                        start.lemma_extended(self, res);
                        assert(self.unassigned(res) =~= unassigned_before.remove(v));
                        assert forall|j: int|
                            0 <= j < res.parents_of(v).len() implies self.contains(
                            #[trigger] res.parents_of(v)[j],
                        ) && self.id_of(res.parents_of(v)[j]) < self.id_of(v) by {
                            before.lemma_below_next_free(g, res.parents_of(v)[j]);
                        }
                        assert forall|k: int|
                            start.names(g).len() <= k < self.names(g).len() implies !start.contains(
                            #[trigger] self.names(g)[k],
                        ) && self.parents_below(res, self.names(g)[k]) by {
                            if k < before.names(g).len() {
                                assert(before.names(g)[k] == self.names(g)[k]);
                                assert(before.contains(before.names(g)[k]));
                            } else {
                                assert(self.names(g)[k] == v);
                                assert(!before.all_names().contains(v));
                                if start.contains(v) {
                                    assert(before.contains(v));
                                    if before.names(Group::Master).contains(v) {
                                        let i = choose|i: int|
                                            0 <= i < before.names(Group::Master).len()
                                                && before.names(Group::Master)[i] == v;
                                        assert(before.all_names()[i] == v);
                                    } else {
                                        let i = choose|i: int|
                                            0 <= i < before.names(Group::NonMaster).len()
                                                && before.names(Group::NonMaster)[i] == v;
                                        assert(before.all_names()[before.names(
                                            Group::Master,
                                        ).len() + i] == v);
                                    }
                                }
                            }
                        }
                        assert forall|i: int| 0 <= i < stack@.len() implies {
                            &&& res.vertices().contains(#[trigger] stack@[i].vertex@)
                            &&& !self.all_names().contains(stack@[i].vertex@)
                            &&& names_view(stack@[i].parents@) == res.parents_of(
                                stack@[i].vertex@,
                            )
                        } by {
                            assert(stack@[i] == stack_before[i]);
                            assert(pending_names(stack_before)[i] != pending_names(
                                stack_before,
                            )[top as int]);
                            let x = stack@[i].vertex@;
                            assert(!before.all_names().to_set().contains(x));
                            assert(!self.all_names().to_set().contains(x));
                        }
                        if stack@.len() == 0 {
                            assert(v == head@);
                        }
                        assert(unassigned_before.contains(v));
                        assert forall|k: int|
                            start.names(g).len() <= k < self.names(g).len() implies res.answers(
                            #[trigger] self.names(g)[k],
                        ) by {
                            if k < before.names(g).len() {
                                assert(before.names(g)[k] == self.names(g)[k]);
                            } else {
                                assert(self.names(g)[k] == v);
                            }
                        }
                        assert forall|i: int| 0 <= i < stack@.len() implies res.answers(
                            #[trigger] stack@[i].vertex@,
                        ) by {
                            assert(stack@[i] == stack_before[i]);
                        }
                        let path = Seq::new((top + 1) as nat, |i: int| stack_before[i].vertex@);
                        assert(fresh_path(res, start.all_names(), path)) by {
                            assert forall|k: int| 0 <= k < path.len() - 1 implies res.parents_of(
                                path[k],
                            ).contains(#[trigger] path[k + 1]) by {
                                assert(path[k] == stack_before[k].vertex@);
                                assert(path[k + 1] == stack_before[k + 1].vertex@);
                            }
                        }
                        assert(path[0] == head@ && path.last() == v);
                        assert forall|k: int|
                            start.names(g).len() <= k < self.names(g).len() implies fresh_ancestor(
                            res,
                            start.all_names(),
                            head@,
                            #[trigger] self.names(g)[k],
                        ) by {
                            if k < before.names(g).len() {
                                assert(before.names(g)[k] == self.names(g)[k]);
                            } else {
                                assert(self.names(g)[k] == v);
                            }
                        }
                        assert forall|i: int| 0 <= i < stack@.len() - 1 implies res.parents_of(
                            stack@[i].vertex@,
                        ).contains(#[trigger] stack@[i + 1].vertex@) by {
                            assert(stack@[i] == stack_before[i]);
                            assert(stack@[i + 1] == stack_before[i + 1]);
                        }
                    }
                },
                Some(j) => {
                    let p = copy_bytes(stack[top].parents[j].as_slice());
                    let ghost q = pending_names(stack@).push(p@);
                    proof {
                        let ps = pending_names(stack@);
                        let top_entry = stack@[top as int];
                        assert(names_view(top_entry.parents@)[j as int] == p@);
                        assert(res.parents_of(top_entry.vertex@).contains(p@));
                        start.lemma_extended(self, res);
                        start.lemma_contains_all(p@);
                        self.lemma_contains_all(p@);
                        assert(!start.all_names().contains(p@));
                        assert forall|k: int| 0 <= k < q.len() - 1 implies res.parents_of(q[k]).contains(
                            #[trigger] q[k + 1],
                        ) by {
                            assert(q[k] == stack@[k].vertex@);
                            if k + 1 < ps.len() {
                                assert(q[k + 1] == stack@[k + 1].vertex@);
                            } else {
                                assert(q[k + 1] == p@);
                            }
                        }
                        assert forall|k: int| 0 <= k < q.len() implies !start.all_names().contains(
                            #[trigger] q[k],
                        ) by {
                            if k < ps.len() {
                                assert(q[k] == stack@[k].vertex@);
                            }
                        }
                        assert(fresh_path(res, start.all_names(), q));
                        assert(q[0] == head@);
                        assert(q.last() == p@);
                    }
                    if is_pending(&stack, p.as_slice()) {
                        proof {
                            let ps = pending_names(stack@);
                            let x = choose|x: int| 0 <= x < ps.len() && ps[x] == p@;
                            assert(q[x] == q[q.len() - 1]);
                            assert(!q.no_duplicates());
                        }
                        return Err(DagError::Integrity);
                    }
                    let pp = match res.parent_names(p.as_slice()) {
                        Ok(pp) => pp,
                        Err(e) => {
                            proof {
                                assert(fresh_ancestor(res, start.all_names(), head@, p@));
                            }
                            return Err(e);
                        },
                    };
                    let ghost stack_before = stack@;
                    let ghost pv = p@;
                    stack.push(Pending { vertex: p, parents: pp });
                    proof {
                        assert(pending_names(stack@) =~= pending_names(stack_before).push(pv));
                        assert(!self.all_names().contains(pv)) by {
                            if self.all_names().contains(pv) {
                                let i = choose|i: int|
                                    0 <= i < self.all_names().len() && self.all_names()[i] == pv;
                                if i < self.names(Group::Master).len() {
                                    assert(self.names(Group::Master)[i] == pv);
                                } else {
                                    assert(self.names(Group::NonMaster)[i - self.names(
                                        Group::Master,
                                    ).len()] == pv);
                                }
                            }
                        }
                        assert forall|i: int| 0 <= i < stack@.len() implies {
                            &&& res.vertices().contains(#[trigger] stack@[i].vertex@)
                            &&& !self.all_names().contains(stack@[i].vertex@)
                            &&& names_view(stack@[i].parents@) == res.parents_of(
                                stack@[i].vertex@,
                            )
                        } by {
                            if i < stack_before.len() {
                                assert(stack@[i] == stack_before[i]);
                            }
                        }
                        assert(!start.all_names().contains(pv)) by {
                            start.lemma_extended(self, res);
                            start.lemma_contains_all(pv);
                            self.lemma_contains_all(pv);
                        }
                        assert forall|i: int|
                            0 <= i < stack@.len() implies !start.all_names().contains(
                            #[trigger] stack@[i].vertex@,
                        ) && res.answers(stack@[i].vertex@) by {
                            if i < stack_before.len() {
                                assert(stack@[i] == stack_before[i]);
                            }
                        }
                        let top_entry = stack_before[top as int];
                        assert(names_view(top_entry.parents@)[j as int] == pv);
                        assert(res.parents_of(top_entry.vertex@).contains(pv));
                        assert forall|i: int| 0 <= i < stack@.len() - 1 implies res.parents_of(
                            stack@[i].vertex@,
                        ).contains(#[trigger] stack@[i + 1].vertex@) by {
                            assert(stack@[i] == stack_before[i]);
                            if i + 1 < stack_before.len() {
                                assert(stack@[i + 1] == stack_before[i + 1]);
                            }
                        }
                        assert(pending_names(stack@).no_duplicates()) by {
                            let ps = pending_names(stack@);
                            assert forall|a: int, b: int|
                                0 <= a < ps.len() && 0 <= b < ps.len() && a != b implies ps[a]
                                != ps[b] by {
                                if a == stack_before.len() {
                                    assert(pending_names(stack_before)[b] == ps[b]);
                                } else if b == stack_before.len() {
                                    assert(pending_names(stack_before)[a] == ps[a]);
                                } else {
                                    assert(pending_names(stack_before)[a] == ps[a]);
                                    assert(pending_names(stack_before)[b] == ps[b]);
                                }
                            }
                        }
                        let ps = pending_names(stack@);
                        assert(ps.to_set().subset_of(self.unassigned(res))) by {
                            assert forall|x: Seq<u8>| ps.to_set().contains(x) implies self.unassigned(
                                res,
                            ).contains(x) by {
                                let i = choose|i: int| 0 <= i < ps.len() && ps[i] == x;
                                assert(stack@[i].vertex@ == x);
                                assert(!self.all_names().to_set().contains(x));
                            }
                        }
                        ps.unique_seq_to_set();
                        vstd::set_lib::lemma_len_subset(ps.to_set(), self.unassigned(res));
                    }
                },
            }
        }
        match self.find(head) {
            Some(id) => Ok(id),
            None => Err(DagError::Integrity),
        }
    }

    /// The parent ids of `id`: the ids of the parents that `res` reports for
    /// the name holding `id`.
    pub open spec fn derived_parents<R: ParentResolver>(&self, res: &R, id: int) -> Seq<u64> {
        res.parents_of(self.name_of(id)->Some_0).map_values(|p: Seq<u8>| self.id_of(p) as u64)
    }

    /// A master name keeps its id in a map whose master names extend these.
    pub proof fn lemma_master_prefix(&self, later: &IdMap, v: Seq<u8>)
        requires
            self.wf(),
            later.wf(),
            self.names(Group::Master).is_prefix_of(later.names(Group::Master)),
            self.names(Group::Master).contains(v),
        ensures
            later.names(Group::Master).contains(v),
            later.id_of(v) == self.id_of(v),
    {
        self.lemma_ids(v);
        let iv = self.id_of(v);
        assert(later.names(Group::Master)[iv] == v);
        assert(later.name_of(iv) == Some(v));
        later.lemma_ids(v);
    }

    /// A master name keeps its parents numbered below it in a map whose
    /// master names extend these.
    pub proof fn lemma_master_closed_kept<R: ParentResolver>(&self, later: &IdMap, res: &R, v: Seq<u8>)
        requires
            self.wf(),
            later.wf(),
            self.names(Group::Master).is_prefix_of(later.names(Group::Master)),
            self.names(Group::Master).contains(v),
            self.parents_below(res, v),
        ensures
            later.names(Group::Master).contains(v),
            later.id_of(v) == self.id_of(v),
            later.parents_below(res, v),
    {
        let m0 = self.names(Group::Master);
        let m1 = later.names(Group::Master);
        self.lemma_ids(v);
        let iv = self.id_of(v);
        assert(m1[iv] == v);
        assert(later.name_of(iv) == Some(v));
        later.lemma_ids(v);
        assert forall|j: int| 0 <= j < res.parents_of(v).len() implies later.contains(
            #[trigger] res.parents_of(v)[j],
        ) && later.id_of(res.parents_of(v)[j]) < later.id_of(v) by {
            let p = res.parents_of(v)[j];
            self.lemma_ids(p);
            let ip = self.id_of(p);
            assert(ip < iv);
            assert(self.name_of(ip) == Some(p));
            assert(m0[ip] == p);
            assert(m1[ip] == p);
            assert(later.name_of(ip) == Some(p));
            assert(later.contains(p));
            later.lemma_ids(p);
        }
    }

    /// `id` has a name whose parents `res` knows and this map numbers below it.
    pub open spec fn id_ready<R: ParentResolver>(&self, res: &R, id: int) -> bool {
        &&& self.name_of(id) is Some
        &&& res.answers(self.name_of(id)->Some_0)
        &&& self.parents_below(res, self.name_of(id)->Some_0)
    }

    /// A name that holds an id is in the map, with that id.
    pub proof fn lemma_name_of(&self, id: int)
        requires
            self.wf(),
            self.name_of(id) is Some,
        ensures
            self.contains(self.name_of(id)->Some_0),
            self.id_of(self.name_of(id)->Some_0) == id,
    {
        let v = self.name_of(id)->Some_0;
        if 0 <= id < self.names(Group::Master).len() {
            assert(self.names(Group::Master)[id] == v);
        } else {
            assert(self.names(Group::NonMaster)[id - NON_MASTER_MIN] == v);
        }
        self.lemma_ids(v);
    }

    /// The parent ids of `id`, found through `res` and this map. Fails with
    /// `Integrity` where no name holds `id`, or a parent has no id.
    pub fn parent_ids<R: ParentResolver>(&self, res: &R, id: Id) -> (r: Result<Vec<Id>, DagError>)
        requires
            self.wf(),
        ensures
            self.name_of(id as int) is None ==> r == Err::<Vec<Id>, DagError>(DagError::Integrity),
            self.name_of(id as int) is Some && res.answers(self.name_of(id as int)->Some_0) && (
            forall|j: int|
                0 <= j < res.parents_of(self.name_of(id as int)->Some_0).len() ==> self.contains(
                    #[trigger] res.parents_of(self.name_of(id as int)->Some_0)[j],
                )) ==> r is Ok,
            r matches Err(e) ==> e != DagError::Contention,
            r matches Ok(ps) ==> {
                &&& self.name_of(id as int) is Some
                &&& forall|j: int|
                    0 <= j < ps@.len() ==> self.contains(
                        #[trigger] res.parents_of(self.name_of(id as int)->Some_0)[j],
                    )
                &&& ps@ == self.derived_parents(res, id as int)
            },
    {
        let name = match self.find_name_by_id(id) {
            Some(n) => n,
            None => {
                return Err(DagError::Integrity);
            },
        };
        let names = match res.parent_names(name.as_slice()) {
            Ok(ns) => ns,
            Err(e) => {
                return Err(e);
            },
        };
        let ghost ps_spec = res.parents_of(name@);
        let mut out: Vec<Id> = Vec::with_capacity(names.len());
        let mut j: usize = 0;
        while j < names.len()
            invariant
                self.wf(),
                j <= names@.len(),
                names_view(names@) == ps_spec,
                out@.len() == j,
                self.name_of(id as int) == Some(name@),
                ps_spec == res.parents_of(name@),
                forall|k: int|
                    0 <= k < j ==> self.contains(#[trigger] ps_spec[k]) && out@[k] as int
                        == self.id_of(ps_spec[k]),
            decreases names@.len() - j,
        {
            match self.find(names[j].as_slice()) {
                Some(pid) => {
                    out.push(pid);
                },
                None => {
                    assert(names_view(names@)[j as int] == names@[j as int]@);
                    return Err(DagError::Integrity);
                },
            }
            j = j + 1;
        }
        assert(out@ =~= self.derived_parents(res, id as int));
        Ok(out)
    }
}

} // verus!
