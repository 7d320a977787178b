//! Parent resolvers: where the index learns the parents of a vertex.

use vstd::prelude::*;

use crate::bytes::{bytes_eq, copy_names, names_view};
use crate::error::DagError;

verus! {

/// A source of parent data, supplied by the caller of a build.
///
/// The index never stores history of its own: it asks the resolver for the
/// parents of each vertex it has not seen yet.
pub trait ParentResolver {
    /// The parents of `v` in the history this resolver describes.
    spec fn parents_of(&self, v: Seq<u8>) -> Seq<Seq<u8>>;

    /// Every vertex that this resolver resolves, and the parents it reports.
    spec fn vertices(&self) -> Set<Seq<u8>>;

    /// Whether the resolver knows the parents of `v`.
    spec fn answers(&self, v: Seq<u8>) -> bool;

    proof fn lemma_vertices_finite(&self)
        ensures
            self.vertices().finite(),
    ;

    /// Looks up the parents of `v`. A failure aborts the build that asked.
    fn parent_names(&self, v: &[u8]) -> (r: Result<Vec<Vec<u8>>, DagError>)
        ensures
            r is Ok <==> self.answers(v@),
            r is Err ==> r == Err::<Vec<Vec<u8>>, DagError>(DagError::ResolverFailure),
            r matches Ok(ps) ==> {
                &&& self.vertices().contains(v@)
                &&& names_view(ps@) == self.parents_of(v@)
                &&& forall|j: int|
                    0 <= j < ps@.len() ==> self.vertices().contains(
                        #[trigger] self.parents_of(v@)[j],
                    )
            },
    ;
}

/// `p` walks from a vertex to a parent, step by step, and meets no name of
/// `known` on the way.
pub open spec fn fresh_path<R: ParentResolver>(res: &R, known: Seq<Seq<u8>>, p: Seq<Seq<u8>>) -> bool {
    &&& p.len() >= 1
    &&& forall|k: int| 0 <= k < p.len() - 1 ==> res.parents_of(p[k]).contains(#[trigger] p[k + 1])
    &&& forall|k: int| 0 <= k < p.len() ==> !known.contains(#[trigger] p[k])
}

/// `w` is `head` or an ancestor of it, reached through vertices that are not
/// in `known`.
pub open spec fn fresh_ancestor<R: ParentResolver>(
    res: &R,
    known: Seq<Seq<u8>>,
    head: Seq<u8>,
    w: Seq<u8>,
) -> bool {
    exists|p: Seq<Seq<u8>>| #[trigger] fresh_path(res, known, p) && p[0] == head && p.last() == w
}

/// Every vertex reached from `head` through vertices outside `known`
/// answers.
pub open spec fn all_answer<R: ParentResolver>(res: &R, known: Seq<Seq<u8>>, head: Seq<u8>) -> bool {
    forall|w: Seq<u8>| #[trigger] fresh_ancestor(res, known, head, w) ==> res.answers(w)
}

/// No walk from `head` through vertices outside `known` meets a vertex twice.
pub open spec fn acyclic_from<R: ParentResolver>(res: &R, known: Seq<Seq<u8>>, head: Seq<u8>) -> bool {
    forall|p: Seq<Seq<u8>>| #[trigger] fresh_path(res, known, p) && p[0] == head ==> p.no_duplicates()
}

/// Both conditions, weakened: what holds outside `big` holds outside a
/// `small` that `big` contains.
pub proof fn lemma_ready_weaken<R: ParentResolver>(
    res: &R,
    small: Seq<Seq<u8>>,
    big: Seq<Seq<u8>>,
    head: Seq<u8>,
)
    requires
        forall|x: Seq<u8>| small.contains(x) ==> big.contains(x),
        all_answer(res, small, head),
        acyclic_from(res, small, head),
    ensures
        all_answer(res, big, head),
        acyclic_from(res, big, head),
{
    assert forall|w: Seq<u8>| #[trigger] fresh_ancestor(res, big, head, w) implies res.answers(w) by {
        let p = choose|p: Seq<Seq<u8>>| #[trigger] fresh_path(res, big, p) && p[0] == head && p.last() == w;
        assert(fresh_path(res, small, p));
        assert(fresh_ancestor(res, small, head, w));
    }
    assert forall|p: Seq<Seq<u8>>| #[trigger] fresh_path(res, big, p) && p[0] == head implies p.no_duplicates() by {
        assert(fresh_path(res, small, p));
    }
}

/// A path that avoids the names of `big` avoids those of `small` too.
pub proof fn lemma_fresh_weaken<R: ParentResolver>(
    res: &R,
    small: Seq<Seq<u8>>,
    big: Seq<Seq<u8>>,
    head: Seq<u8>,
    w: Seq<u8>,
)
    requires
        forall|x: Seq<u8>| small.contains(x) ==> big.contains(x),
        fresh_ancestor(res, big, head, w),
    ensures
        fresh_ancestor(res, small, head, w),
{
    let p = choose|p: Seq<Seq<u8>>| #[trigger] fresh_path(res, big, p) && p[0] == head && p.last() == w;
    assert(fresh_path(res, small, p));
}

/// A vertex and its parents.
pub struct ParentEntry {
    pub vertex: Vec<u8>,
    pub parents: Vec<Vec<u8>>,
}

/// A resolver backed by an explicit table of vertices and their parents.
/// A vertex missing from the table fails to resolve.
pub struct ParentTable {
    entries: Vec<ParentEntry>,
}

/// The table's rows as byte strings.
pub open spec fn table_view(e: Seq<ParentEntry>) -> Seq<(Seq<u8>, Seq<Seq<u8>>)> {
    e.map_values(|x: ParentEntry| (x.vertex@, names_view(x.parents@)))
}

/// The vertices that appear in a table, as a row or as a parent.
pub open spec fn table_vertices(t: Seq<(Seq<u8>, Seq<Seq<u8>>)>) -> Set<Seq<u8>>
    decreases t.len(),
{
    if t.len() == 0 {
        Set::empty()
    } else {
        table_vertices(t.drop_last()).insert(t.last().0).union(t.last().1.to_set())
    }
}

proof fn lemma_table_vertices_finite(t: Seq<(Seq<u8>, Seq<Seq<u8>>)>)
    ensures
        table_vertices(t).finite(),
    decreases t.len(),
{
    broadcast use vstd::seq_lib::seq_to_set_is_finite;

    if t.len() > 0 {
        lemma_table_vertices_finite(t.drop_last());
    }
}

proof fn lemma_table_vertices_contains(t: Seq<(Seq<u8>, Seq<Seq<u8>>)>, i: int)
    requires
        0 <= i < t.len(),
    ensures
        table_vertices(t).contains(t[i].0),
        forall|j: int| 0 <= j < t[i].1.len() ==> table_vertices(t).contains(#[trigger] t[i].1[j]),
    decreases t.len(),
{
    if i < t.len() - 1 {
        lemma_table_vertices_contains(t.drop_last(), i);
        assert(t.drop_last()[i] == t[i]);
    } else {
        assert forall|j: int| 0 <= j < t[i].1.len() implies table_vertices(t).contains(
            #[trigger] t[i].1[j],
        ) by {
            assert(t.last().1.to_set().contains(t[i].1[j]));
        }
    }
}

/// The parents recorded for `v`: the last row of `v` wins.
pub open spec fn row_lookup(t: Seq<(Seq<u8>, Seq<Seq<u8>>)>, v: Seq<u8>) -> Option<Seq<Seq<u8>>>
    decreases t.len(),
{
    if t.len() == 0 {
        None
    } else if t.last().0 == v {
        Some(t.last().1)
    } else {
        row_lookup(t.drop_last(), v)
    }
}

impl ParentTable {
    /// The rows of the table, in insertion order.
    pub closed spec fn rows(&self) -> Seq<(Seq<u8>, Seq<Seq<u8>>)> {
        table_view(self.entries@)
    }

    /// Whether `v` has a row.
    pub open spec fn has_row(&self, v: Seq<u8>) -> bool {
        row_lookup(self.rows(), v) is Some
    }

    /// An empty table.
    pub fn new() -> (r: ParentTable)
        ensures
            forall|v: Seq<u8>| !r.has_row(v),
            r.vertices() == Set::<Seq<u8>>::empty(),
    {
        let r = ParentTable { entries: Vec::new() };
        assert(r.rows().len() == 0);
        r
    }

    /// Records `parents` as the parents of `vertex`, replacing what an earlier
    /// row of the same vertex said.
    pub fn insert(&mut self, vertex: Vec<u8>, parents: Vec<Vec<u8>>)
        ensures
            final(self).vertices() == old(self).vertices().insert(vertex@).union(
                names_view(parents@).to_set(),
            ),
            final(self).has_row(vertex@),
            final(self).parents_of(vertex@) == names_view(parents@),
            forall|w: Seq<u8>|
                w != vertex@ ==> (#[trigger] final(self).parents_of(w)) == old(self).parents_of(w)
                    && final(self).has_row(w) == old(self).has_row(w),
    {
        let ghost old_rows = self.rows();
        let ghost row = (vertex@, names_view(parents@));
        self.entries.push(ParentEntry { vertex, parents });
        proof {
            assert(self.rows() =~= old_rows.push(row));
            assert(self.rows().drop_last() =~= old_rows);
        }
    }
}

impl ParentResolver for ParentTable {
    /// The parents in the last row of `v`; none where `v` has no row.
    open spec fn parents_of(&self, v: Seq<u8>) -> Seq<Seq<u8>> {
        match row_lookup(self.rows(), v) {
            Some(ps) => ps,
            None => Seq::empty(),
        }
    }

    open spec fn vertices(&self) -> Set<Seq<u8>> {
        table_vertices(self.rows())
    }

    open spec fn answers(&self, v: Seq<u8>) -> bool {
        self.has_row(v)
    }

    proof fn lemma_vertices_finite(&self) {
        lemma_table_vertices_finite(self.rows());
    }

    fn parent_names(&self, v: &[u8]) -> (r: Result<Vec<Vec<u8>>, DagError>) {
        let ghost t = self.rows();
        let mut i: usize = self.entries.len();
        assert(t.subrange(0, i as int) =~= t);
        while i > 0
            invariant
                i <= self.entries@.len(),
                t == self.rows(),
                row_lookup(t, v@) == row_lookup(t.subrange(0, i as int), v@),
            decreases i,
        {
            let k = i - 1;
            if bytes_eq(self.entries[k].vertex.as_slice(), v) {
                let ps = copy_names(&self.entries[k].parents);
                proof {
                    let s = t.subrange(0, i as int);
                    assert(s.last() == t[k as int]);
                    lemma_table_vertices_contains(t, k as int);
                }
                return Ok(ps);
            }
            proof {
                let s = t.subrange(0, i as int);
                assert(s.last() == t[k as int]);
                assert(s.drop_last() =~= t.subrange(0, k as int));
            }
            i = k;
        }
        assert(t.subrange(0, 0).len() == 0);
        Err(DagError::ResolverFailure)
    }
}

} // verus!
