//! The element arena and adjacency index.
//!
//! Every element, node or edge, owns an identity from one shared identity
//! space; an edge additionally records a source and a target, each of which
//! may name a node or another edge. Identities are allocated from a counter
//! and never reused, so a lookup against a removed identity reports absence
//! rather than resolving to a newer element.
//!
//! Removal cascades: removing an element also removes every edge that
//! directly or transitively depends on it, in either direction, even
//! through cycles of edges referencing edges.

use vstd::prelude::*;

use crate::pairs::Pairs;
use crate::pairs::seconds_seq;
use crate::table::Table;

verus! {

/// An element identity: an opaque, unique, comparable key. The value `0`
/// is never allocated, so `ID::default()` names no element.
pub type ID = u64;

/// Placeholder payload of a node; extensible, empty in this system.
#[derive(Clone, Copy, Debug, Default, PartialEq, Eq)]
pub struct NodeData {}

/// A node as reported by lookups: its identity and payload.
#[derive(Clone, Copy, Debug, PartialEq, Eq)]
pub struct Node {
    pub id: ID,
    pub data: NodeData,
}

/// An edge as reported by lookups: its own identity — an element like any
/// other — and the identities of its endpoints.
#[derive(Clone, Copy, Debug, PartialEq, Eq)]
pub struct Edge {
    pub id: ID,
    pub source: ID,
    pub target: ID,
}

/// What an identity names in the arena: a plain node, or a relation
/// between two other elements.
#[derive(Clone, Copy, Debug, PartialEq, Eq)]
pub enum Kind {
    Plain,
    Relation { source: ID, target: ID },
}

/// The identity names a plain node in the model `m`.
pub open spec fn node_in(m: Map<ID, Kind>, id: ID) -> bool {
    m.dom().contains(id) && m[id] == Kind::Plain
}

/// The identity names an edge in the model `m`.
pub open spec fn edge_in(m: Map<ID, Kind>, id: ID) -> bool {
    m.dom().contains(id) && (m[id] matches Kind::Relation { .. })
}

/// The source endpoint of an edge of the model (meaningful only under
/// `edge_in`).
pub open spec fn edge_source(m: Map<ID, Kind>, id: ID) -> ID {
    match m[id] {
        Kind::Relation { source, target: _ } => source,
        Kind::Plain => 0,
    }
}

/// The target endpoint of an edge of the model (meaningful only under
/// `edge_in`).
pub open spec fn edge_target(m: Map<ID, Kind>, id: ID) -> ID {
    match m[id] {
        Kind::Relation { source: _, target } => target,
        Kind::Plain => 0,
    }
}

/// The kind is a relation.
pub open spec fn kind_is_relation(k: Kind) -> bool {
    k matches Kind::Relation { .. }
}

/// The source recorded in a kind (meaningful only for relations).
pub open spec fn kind_source(k: Kind) -> ID {
    match k {
        Kind::Relation { source, target: _ } => source,
        Kind::Plain => 0,
    }
}

/// The target recorded in a kind (meaningful only for relations).
pub open spec fn kind_target(k: Kind) -> ID {
    match k {
        Kind::Relation { source: _, target } => target,
        Kind::Plain => 0,
    }
}

/// Edge `e` directly depends on element `x`: it has `x` as source or
/// target.
pub open spec fn depends_on(m: Map<ID, Kind>, e: ID, x: ID) -> bool {
    edge_in(m, e) && (edge_source(m, e) == x || edge_target(m, e) == x)
}

/// `c` is a chain of direct dependences starting at `root`: each later
/// entry is an edge depending on the one before it.
pub open spec fn dependence_chain(m: Map<ID, Kind>, c: Seq<ID>, root: ID) -> bool {
    c.len() >= 1 && c[0] == root && forall|i: int|
        1 <= i < c.len() ==> #[trigger] depends_on(m, c[i], c[i - 1])
}

/// `x` belongs to the cascade of `root`: it is `root` itself or an edge
/// depending, directly or transitively, on `root`.
pub open spec fn in_cascade(m: Map<ID, Kind>, x: ID, root: ID) -> bool {
    exists|c: Seq<ID>| dependence_chain(m, c, root) && c.last() == x
}

/// What cascading removal leaves behind: exactly the elements outside the
/// cascade of `root`, unchanged.
pub open spec fn cascade_result(m0: Map<ID, Kind>, m1: Map<ID, Kind>, root: ID) -> bool {
    &&& forall|k: ID| #[trigger] m1.dom().contains(k) <==> (m0.dom().contains(k) && !in_cascade(m0, k, root))
    &&& forall|k: ID| #[trigger] m1.dom().contains(k) ==> m1[k] == m0[k]
}

/// Everything in a cascade besides the root itself is an edge: removal
/// never sweeps a node along, only dependent edges.
pub proof fn lemma_cascade_members(m: Map<ID, Kind>, x: ID, root: ID)
    requires
        in_cascade(m, x, root),
        x != root,
    ensures
        edge_in(m, x),
{
    let c = choose|c: Seq<ID>| dependence_chain(m, c, root) && c.last() == x;
    assert(c.len() >= 2);
    let i = c.len() - 1;
    assert(depends_on(m, c[i], c[i - 1]));
    assert(c[i] == x);
}

/// The root of a removal is in its own cascade.
pub proof fn lemma_cascade_root(m: Map<ID, Kind>, root: ID)
    ensures
        in_cascade(m, root, root),
{
    let c: Seq<ID> = seq![root];
    assert(dependence_chain(m, c, root));
    assert(c.last() == root);
}

proof fn lemma_cascade_extend(m: Map<ID, Kind>, root: ID, x: ID, e: ID)
    requires
        in_cascade(m, x, root),
        depends_on(m, e, x),
    ensures
        in_cascade(m, e, root),
{
    let c = choose|c: Seq<ID>| dependence_chain(m, c, root) && c.last() == x;
    let c2 = c.push(e);
    assert(dependence_chain(m, c2, root)) by {
        assert forall|i: int| 1 <= i < c2.len() implies #[trigger] depends_on(m, c2[i], c2[i - 1]) by {
            if i < c2.len() - 1 {
                assert(c2[i] == c[i]);
                assert(c2[i - 1] == c[i - 1]);
            } else {
                assert(c2[i] == e);
                assert(c2[i - 1] == c.last());
            }
        }
    }
    assert(c2.last() == e);
}

/// In a state where the removal of `root` has finished — `root` is gone,
/// the state is a restriction of `m0`, and no surviving edge has a dead
/// endpoint — nothing in the cascade of `root` survives.
proof fn lemma_cascade_complete(m0: Map<ID, Kind>, mf: Map<ID, Kind>, root: ID, c: Seq<ID>)
    requires
        dependence_chain(m0, c, root),
        !mf.dom().contains(root),
        forall|k: ID| #[trigger] mf.dom().contains(k) ==> m0.dom().contains(k) && mf[k] == m0[k],
        forall|e: ID| #[trigger] edge_in(mf, e) ==> mf.dom().contains(edge_source(mf, e))
            && mf.dom().contains(edge_target(mf, e)),
    ensures
        !mf.dom().contains(c.last()),
    decreases c.len(),
{
    if c.len() == 1 {
    } else {
        assert(dependence_chain(m0, c.drop_last(), root)) by {
            assert forall|i: int| 1 <= i < c.drop_last().len() implies #[trigger] depends_on(
                m0,
                c.drop_last()[i],
                c.drop_last()[i - 1],
            ) by {
                assert(c.drop_last()[i] == c[i]);
                assert(c.drop_last()[i - 1] == c[i - 1]);
            }
        }
        lemma_cascade_complete(m0, mf, root, c.drop_last());
        let x = c[c.len() - 2];
        let e = c.last();
        assert(c.drop_last().last() == x);
        assert(depends_on(m0, e, x));
        if mf.dom().contains(e) {
            assert(edge_in(mf, e));
            assert(mf[e] == m0[e]);
            assert(mf.dom().contains(x));
        }
    }
}

/// What a decoded element list must satisfy before it can stand as an
/// arena: distinct bounded identities, live endpoints, no self-reference.
pub open spec fn parts_valid(next: ID, s: Seq<(ID, Kind)>) -> bool {
    &&& 1 <= next
    &&& crate::table::entry_keys_distinct(s)
    &&& forall|i: int| 0 <= i < s.len() ==> 1 <= (#[trigger] s[i]).0 < next
    &&& forall|i: int|
        0 <= i < s.len() ==> ((#[trigger] s[i]).1 matches Kind::Relation { source, target }
            ==> source != s[i].0 && target != s[i].0 && (exists|j: int|
            0 <= j < s.len() && (#[trigger] s[j]).0 == source) && (exists|j: int|
            0 <= j < s.len() && (#[trigger] s[j]).0 == target))
}

/// The graph engine: the arena of elements and the two-directional
/// adjacency index, kept strictly consistent with one another.
pub struct Graph {
    next: u64,
    elems: Table<Kind>,
    outgoing: Pairs,
    incoming: Pairs,
}

impl View for Graph {
    type V = Map<ID, Kind>;

    /// The abstract state: which identities exist and what they name.
    closed spec fn view(&self) -> Map<ID, Kind> {
        self.elems@
    }
}

impl Graph {
    /// Identities at or above this bound have never been allocated; every
    /// element's identity lies strictly below it, and it never decreases,
    /// which is why identities are never reused.
    pub closed spec fn id_bound(self) -> ID {
        self.next
    }

    /// The arena's entry sequence, in insertion order; the codec reads it.
    pub closed spec fn elems_seq(self) -> Seq<(ID, Kind)> {
        self.elems.entries_seq()
    }

    /// The outgoing half of the adjacency index at `id`, as a sequence.
    pub closed spec fn outgoing_seq(self, id: ID) -> Seq<ID> {
        seconds_seq(self.outgoing.items_seq(), id)
    }

    /// The incoming half of the adjacency index at `id`, as a sequence.
    pub closed spec fn incoming_seq(self, id: ID) -> Seq<ID> {
        seconds_seq(self.incoming.items_seq(), id)
    }

    spec fn tables_wf(self) -> bool {
        self.elems.wf() && self.outgoing.wf() && self.incoming.wf()
    }

    /// The adjacency index is exactly right: an index entry exists if and
    /// only if it records a live edge's endpoint.
    spec fn index_ok(self) -> bool {
        &&& forall|a: ID, e: ID| #[trigger] self.outgoing.has(a, e) ==> edge_in(self@, e)
            && edge_source(self@, e) == a
        &&& forall|a: ID, e: ID| #[trigger] self.incoming.has(a, e) ==> edge_in(self@, e)
            && edge_target(self@, e) == a
        &&& forall|e: ID| #[trigger] edge_in(self@, e) ==> self.outgoing.has(edge_source(self@, e), e)
            && self.incoming.has(edge_target(self@, e), e)
    }

    spec fn ids_bounded(self) -> bool {
        1 <= self.next && forall|k: ID| #[trigger] self@.dom().contains(k) ==> 1 <= k < self.next
    }

    /// Every edge's endpoints name live elements.
    spec fn endpoints_live(self) -> bool {
        forall|e: ID| #[trigger] edge_in(self@, e) ==> self@.dom().contains(edge_source(self@, e))
            && self@.dom().contains(edge_target(self@, e))
    }

    /// No edge is its own endpoint; impossible to create, since an edge's
    /// endpoints must exist before the edge's own identity is allocated.
    spec fn no_self_reference(self) -> bool {
        forall|e: ID| #[trigger] edge_in(self@, e) ==> edge_source(self@, e) != e
            && edge_target(self@, e) != e
    }

    /// Well-formedness: the invariant every operation preserves. It ties
    /// the adjacency index exactly to the arena's edges, keeps endpoints
    /// live, and bounds all identities below the allocation counter.
    pub closed spec fn wf(self) -> bool {
        &&& self.tables_wf()
        &&& self.index_ok()
        &&& self.ids_bounded()
        &&& self.endpoints_live()
        &&& self.no_self_reference()
    }

    /// A fresh, empty graph.
    pub fn new() -> (g: Graph)
        ensures
            g.wf(),
            g@ == Map::<ID, Kind>::empty(),
            g.id_bound() == 1,
    {
        Graph { next: 1, elems: Table::new(), outgoing: Pairs::new(), incoming: Pairs::new() }
    }

    /// Allocate a fresh node. Always succeeds (up to exhaustion of the
    /// identity space, which the precondition excludes).
    pub fn add_node(&mut self, data: NodeData) -> (id: ID)
        requires
            old(self).wf(),
            old(self).id_bound() < u64::MAX,
        ensures
            final(self).wf(),
            !old(self)@.dom().contains(id),
            id == old(self).id_bound(),
            final(self).id_bound() == old(self).id_bound() + 1,
            final(self)@ == old(self)@.insert(id, Kind::Plain),
    {
        let id = self.next;
        self.next = self.next + 1;
        self.elems.insert(id, Kind::Plain);
        proof {
            assert(!old(self)@.dom().contains(id));
            assert forall|e: ID| #[trigger] edge_in(self@, e) implies edge_in(old(self)@, e)
                && self@[e] == old(self)@[e] by {
                assert(e != id);
            }
            assert forall|e: ID| #[trigger] edge_in(old(self)@, e) implies edge_in(self@, e)
                && self@[e] == old(self)@[e] by {
                assert(e != id);
            }
        }
        id
    }

    /// Create an edge between two existing elements (nodes or edges).
    /// Fails, leaving the graph unchanged, exactly when an endpoint is
    /// absent.
    pub fn add_edge(&mut self, source: ID, target: ID) -> (r: Option<ID>)
        requires
            old(self).wf(),
            old(self).id_bound() < u64::MAX,
        ensures
            final(self).wf(),
            old(self).id_bound() <= final(self).id_bound(),
            (old(self)@.dom().contains(source) && old(self)@.dom().contains(target)) ==> (r matches Some(e)
                && !old(self)@.dom().contains(e)
                && e == old(self).id_bound()
                && final(self).id_bound() == old(self).id_bound() + 1
                && final(self)@ == old(self)@.insert(e, Kind::Relation { source, target })),
            !(old(self)@.dom().contains(source) && old(self)@.dom().contains(target)) ==> (r
                == None::<ID> && *final(self) == *old(self)),
    {
        let source_exists = self.elems.has(source);
        let target_exists = self.elems.has(target);
        if !source_exists || !target_exists {
            return None;
        }
        let id = self.next;
        self.next = self.next + 1;
        self.elems.insert(id, Kind::Relation { source, target });
        proof {
            assert(!old(self)@.dom().contains(id));
            assert(!self.outgoing.has(source, id)) by {
                if self.outgoing.has(source, id) {
                    assert(edge_in(old(self)@, id));
                }
            }
            assert(!self.incoming.has(target, id)) by {
                if self.incoming.has(target, id) {
                    assert(edge_in(old(self)@, id));
                }
            }
        }
        self.outgoing.insert(source, id);
        self.incoming.insert(target, id);
        proof {
            let m0 = old(self)@;
            let m1 = self@;
            assert(m1 == m0.insert(id, Kind::Relation { source, target }));
            assert forall|a: ID, e: ID| #[trigger] self.outgoing.has(a, e) implies edge_in(m1, e)
                && edge_source(m1, e) == a by {
                if (a, e) == (source, id) {
                } else {
                    assert(old(self).outgoing.has(a, e));
                    assert(edge_in(m0, e));
                    assert(e != id);
                }
            }
            assert forall|a: ID, e: ID| #[trigger] self.incoming.has(a, e) implies edge_in(m1, e)
                && edge_target(m1, e) == a by {
                if (a, e) == (target, id) {
                } else {
                    assert(old(self).incoming.has(a, e));
                    assert(edge_in(m0, e));
                    assert(e != id);
                }
            }
            assert forall|e: ID| #[trigger] edge_in(m1, e) implies self.outgoing.has(
                edge_source(m1, e),
                e,
            ) && self.incoming.has(edge_target(m1, e), e) by {
                if e != id {
                    assert(edge_in(m0, e));
                    assert(old(self).outgoing.has(edge_source(m0, e), e));
                    assert(old(self).incoming.has(edge_target(m0, e), e));
                }
            }
            assert forall|e: ID| #[trigger] edge_in(m1, e) implies m1.dom().contains(
                edge_source(m1, e),
            ) && m1.dom().contains(edge_target(m1, e)) && edge_source(m1, e) != e && edge_target(
                m1,
                e,
            ) != e by {
                if e != id {
                    assert(edge_in(m0, e));
                }
            }
        }
        Some(id)
    }

    /// The allocation counter, for the codec.
    pub(crate) fn next_value(&self) -> (r: u64)
        ensures
            r == self.id_bound(),
    {
        self.next
    }

    /// The arena's entries in order, for the codec.
    pub(crate) fn elems_list(&self) -> (r: Vec<(ID, Kind)>)
        ensures
            r@ == self.elems_seq(),
    {
        let n = self.elems.len();
        let mut r: Vec<(ID, Kind)> = Vec::new();
        let mut i: usize = 0;
        while i < n
            invariant
                0 <= i <= n,
                n == self.elems_seq().len(),
                r@ == self.elems_seq().subrange(0, i as int),
            decreases n - i,
        {
            r.push(self.elems.entry_at(i));
            proof {
                assert(r@ =~= self.elems_seq().subrange(0, i + 1));
            }
            i = i + 1;
        }
        proof {
            assert(r@ =~= self.elems_seq());
        }
        r
    }

    /// Whether the identity space is exhausted; while this is false,
    /// `add_node` and `add_edge` may be called. (Reaching it would take
    /// an allocation per counter value.)
    pub fn at_capacity(&self) -> (r: bool)
        ensures
            r == (self.id_bound() == u64::MAX),
    {
        self.next == u64::MAX
    }

    /// Whether any element, node or edge, has this identity.
    pub fn contains_element(&self, id: ID) -> (r: bool)
        ensures
            r == self@.dom().contains(id),
    {
        self.elems.has(id)
    }

    /// The arena's entry list always fits the machine.
    pub(crate) proof fn lemma_elems_len_bounded(self)
        ensures
            self.elems_seq().len() <= usize::MAX,
    {
        self.elems.lemma_len_bounded();
    }

    /// The arena's domain is always finite.
    pub proof fn lemma_dom_finite(self)
        ensures
            self@.dom().finite(),
    {
        self.elems.lemma_view_dom();
    }

    /// Every identity stored in the adjacency index names a live element;
    /// propagation's termination rests on this.
    pub proof fn lemma_neighbors_live(self, id: ID)
        requires
            self.wf(),
        ensures
            forall|j: int| 0 <= j < self.outgoing_seq(id).len() ==> self@.dom().contains(
                #[trigger] self.outgoing_seq(id)[j],
            ),
            forall|j: int| 0 <= j < self.incoming_seq(id).len() ==> self@.dom().contains(
                #[trigger] self.incoming_seq(id)[j],
            ),
    {
        self.outgoing.lemma_has_iff_seconds(id);
        self.incoming.lemma_has_iff_seconds(id);
        assert forall|j: int| 0 <= j < self.outgoing_seq(id).len() implies self@.dom().contains(
            #[trigger] self.outgoing_seq(id)[j],
        ) by {
            let e = self.outgoing_seq(id)[j];
            assert(self.outgoing_seq(id).contains(e));
            assert(self.outgoing.has(id, e));
        }
        assert forall|j: int| 0 <= j < self.incoming_seq(id).len() implies self@.dom().contains(
            #[trigger] self.incoming_seq(id)[j],
        ) by {
            let e = self.incoming_seq(id)[j];
            assert(self.incoming_seq(id).contains(e));
            assert(self.incoming.has(id, e));
        }
    }

    /// Look up a plain node. Absent identities — including removed ones
    /// and edge identities — report `None`.
    pub fn get_node(&self, id: ID) -> (r: Option<Node>)
        requires
            self.wf(),
        ensures
            node_in(self@, id) ==> r == Some(Node { id, data: NodeData {} }),
            !node_in(self@, id) ==> r == None::<Node>,
    {
        match self.elems.get(id) {
            Some(Kind::Plain) => Some(Node { id, data: NodeData {} }),
            _ => None,
        }
    }

    /// Look up an edge and its endpoints. Absent identities — including
    /// removed ones and node identities — report `None`.
    pub fn get_edge(&self, id: ID) -> (r: Option<Edge>)
        requires
            self.wf(),
        ensures
            edge_in(self@, id) ==> r == Some(
                Edge { id, source: edge_source(self@, id), target: edge_target(self@, id) },
            ),
            !edge_in(self@, id) ==> r == None::<Edge>,
    {
        match self.elems.get(id) {
            Some(Kind::Relation { source, target }) => Some(Edge { id, source, target }),
            _ => None,
        }
    }

    /// How many elements (nodes and edges together) the arena holds.
    pub fn element_count(&self) -> (n: usize)
        requires
            self.wf(),
        ensures
            n == self@.dom().len(),
    {
        proof {
            self.elems.lemma_view_len();
        }
        self.elems.len()
    }

    /// The edges whose source is `id`, in index order, without duplicates.
    pub fn get_outgoing_edges(&self, id: ID) -> (r: Vec<ID>)
        requires
            self.wf(),
        ensures
            r@ == self.outgoing_seq(id),
            r@.no_duplicates(),
            forall|e: ID| #[trigger] r@.contains(e) <==> (edge_in(self@, e) && edge_source(self@, e)
                == id),
    {
        let r = self.outgoing.seconds_of(id);
        proof {
            assert forall|e: ID| #[trigger] r@.contains(e) <==> (edge_in(self@, e) && edge_source(
                self@,
                e,
            ) == id) by {
                if edge_in(self@, e) && edge_source(self@, e) == id {
                    assert(self.outgoing.has(id, e));
                }
            }
        }
        r
    }

    /// The edges whose target is `id`, in index order, without duplicates.
    pub fn get_incoming_edges(&self, id: ID) -> (r: Vec<ID>)
        requires
            self.wf(),
        ensures
            r@ == self.incoming_seq(id),
            r@.no_duplicates(),
            forall|e: ID| #[trigger] r@.contains(e) <==> (edge_in(self@, e) && edge_target(self@, e)
                == id),
    {
        let r = self.incoming.seconds_of(id);
        proof {
            assert forall|e: ID| #[trigger] r@.contains(e) <==> (edge_in(self@, e) && edge_target(
                self@,
                e,
            ) == id) by {
                if edge_in(self@, e) && edge_target(self@, e) == id {
                    assert(self.incoming.has(id, e));
                }
            }
        }
        r
    }

    /// All plain nodes, in arena order, one record per node.
    pub fn nodes_iter(&self) -> (r: Vec<Node>)
        requires
            self.wf(),
        ensures
            forall|id: ID| node_in(self@, id) <==> r@.contains(Node { id, data: NodeData {} }),
            forall|k: int| 0 <= k < r@.len() ==> node_in(self@, #[trigger] r@[k].id) && r@[k]
                == (Node { id: r@[k].id, data: NodeData {} }),
            forall|i: int, j: int| 0 <= i < j < r@.len() ==> r@[i].id != r@[j].id,
    {
        let ghost s = self.elems.entries_seq();
        proof {
            self.elems.lemma_entries_distinct();
            self.elems.lemma_view_dom();
        }
        let n = self.elems.len();
        let mut r: Vec<Node> = Vec::new();
        let mut i: usize = 0;
        while i < n
            invariant
                0 <= i <= n,
                n == s.len(),
                self.elems.entries_seq() == s,
                forall|k: int| 0 <= k < r@.len() ==> exists|j: int|
                    0 <= j < i && #[trigger] s[j] == ((#[trigger] r@[k]).id, Kind::Plain)
                        && r@[k] == (Node { id: s[j].0, data: NodeData {} }),
                forall|j: int| 0 <= j < i && (#[trigger] s[j]).1 == Kind::Plain ==> r@.contains(
                    Node { id: s[j].0, data: NodeData {} },
                ),
                forall|p: int, q: int| 0 <= p < q < r@.len() ==> r@[p].id != r@[q].id,
            decreases n - i,
        {
            let ghost r_b = r@;
            let e = self.elems.entry_at(i);
            match e.1 {
                Kind::Plain => {
                    r.push(Node { id: e.0, data: NodeData {} });
                    proof {
                        assert(s[i as int] == (e.0, Kind::Plain));
                        assert(r@[r@.len() - 1] == (Node { id: e.0, data: NodeData {} }));
                        assert forall|k: int| 0 <= k < r@.len() implies exists|j: int|
                            0 <= j < i + 1 && #[trigger] s[j] == ((#[trigger] r@[k]).id, Kind::Plain)
                                && r@[k] == (Node { id: s[j].0, data: NodeData {} }) by {
                            if k < r@.len() - 1 {
                                assert(r@[k] == r_b[k]);
                                let j = choose|j: int|
                                    0 <= j < i && #[trigger] s[j] == ((#[trigger] r_b[k]).id, Kind::Plain)
                                        && r_b[k] == (Node { id: s[j].0, data: NodeData {} });
                                assert(0 <= j < i + 1 && s[j] == (r@[k].id, Kind::Plain)
                                    && r@[k] == (Node { id: s[j].0, data: NodeData {} }));
                            } else {
                                assert(s[i as int] == (r@[k].id, Kind::Plain)
                                    && r@[k] == (Node { id: s[i as int].0, data: NodeData {} }));
                            }
                        }
                        assert forall|j: int|
                            0 <= j < i + 1 && (#[trigger] s[j]).1 == Kind::Plain implies r@.contains(
                            Node { id: s[j].0, data: NodeData {} },
                        ) by {
                            if j < i {
                                let k = choose|k: int|
                                    0 <= k < r_b.len() && r_b[k] == (Node {
                                        id: s[j].0,
                                        data: NodeData {},
                                    });
                                assert(r@[k] == (Node { id: s[j].0, data: NodeData {} }));
                            } else {
                                assert(r@[r@.len() - 1] == (Node { id: s[j].0, data: NodeData {} }));
                            }
                        }
                        assert forall|p: int, q: int| 0 <= p < q < r@.len() implies r@[p].id
                            != r@[q].id by {
                            if q == r@.len() - 1 {
                                let jp = choose|j: int|
                                    0 <= j < i && #[trigger] s[j] == ((#[trigger] r@[p]).id, Kind::Plain)
                                        && r@[p] == (Node { id: s[j].0, data: NodeData {} });
                                assert(s[jp].0 == r@[p].id);
                                assert(s[jp].0 != s[i as int].0);
                            } else {
                                assert(r@[p] == r_b[p]);
                                assert(r@[q] == r_b[q]);
                            }
                        }
                    }
                },
                Kind::Relation { .. } => {
                    proof {
                        assert(s[i as int].1 == e.1);
                    }
                },
            }
            i = i + 1;
        }
        proof {
            assert forall|id: ID| node_in(self@, id) implies r@.contains(
                Node { id, data: NodeData {} },
            ) by {
                let j = choose|j: int| 0 <= j < s.len() && #[trigger] s[j].0 == id;
                self.elems.lemma_entry_view(j);
                assert(s[j] == (id, Kind::Plain));
            }
            assert forall|id: ID| r@.contains(Node { id, data: NodeData {} }) implies node_in(
                self@,
                id,
            ) by {
                let k = choose|k: int|
                    0 <= k < r@.len() && r@[k] == (Node { id, data: NodeData {} });
                let j = choose|j: int|
                    0 <= j < s.len() && #[trigger] s[j] == ((#[trigger] r@[k]).id, Kind::Plain)
                        && r@[k] == (Node { id: s[j].0, data: NodeData {} });
                self.elems.lemma_entry_view(j);
            }
            assert forall|k: int| 0 <= k < r@.len() implies node_in(self@, #[trigger] r@[k].id)
                && r@[k] == (Node { id: r@[k].id, data: NodeData {} }) by {
                let j = choose|j: int|
                    0 <= j < s.len() && #[trigger] s[j] == ((#[trigger] r@[k]).id, Kind::Plain)
                        && r@[k] == (Node { id: s[j].0, data: NodeData {} });
                self.elems.lemma_entry_view(j);
            }
        }
        r
    }

    /// All edges, in arena order, one record per edge.
    pub fn edges_iter(&self) -> (r: Vec<Edge>)
        requires
            self.wf(),
        ensures
            forall|k: int| 0 <= k < r@.len() ==> edge_in(self@, #[trigger] r@[k].id) && r@[k]
                == (Edge {
                id: r@[k].id,
                source: edge_source(self@, r@[k].id),
                target: edge_target(self@, r@[k].id),
            }),
            forall|id: ID| edge_in(self@, id) ==> r@.contains(
                Edge { id, source: edge_source(self@, id), target: edge_target(self@, id) },
            ),
            forall|i: int, j: int| 0 <= i < j < r@.len() ==> r@[i].id != r@[j].id,
    {
        let ghost s = self.elems.entries_seq();
        proof {
            self.elems.lemma_entries_distinct();
            self.elems.lemma_view_dom();
        }
        let n = self.elems.len();
        let mut r: Vec<Edge> = Vec::new();
        let mut i: usize = 0;
        while i < n
            invariant
                0 <= i <= n,
                n == s.len(),
                self.elems.entries_seq() == s,
                forall|k: int| 0 <= k < r@.len() ==> exists|j: int|
                    0 <= j < i && #[trigger] s[j] == ((#[trigger] r@[k]).id, Kind::Relation {
                        source: r@[k].source,
                        target: r@[k].target,
                    }),
                forall|j: int| 0 <= j < i ==> ((#[trigger] s[j]).1 matches Kind::Relation {
                    source,
                    target,
                } ==> r@.contains(Edge { id: s[j].0, source, target })),
                forall|p: int, q: int| 0 <= p < q < r@.len() ==> r@[p].id != r@[q].id,
            decreases n - i,
        {
            let ghost r_b = r@;
            let e = self.elems.entry_at(i);
            match e.1 {
                Kind::Relation { source, target } => {
                    r.push(Edge { id: e.0, source, target });
                    proof {
                        assert(s[i as int] == (e.0, Kind::Relation { source, target }));
                        assert(r@[r@.len() - 1] == (Edge { id: e.0, source, target }));
                        assert forall|k: int| 0 <= k < r@.len() implies exists|j: int|
                            0 <= j < i + 1 && #[trigger] s[j] == ((#[trigger] r@[k]).id, Kind::Relation {
                                source: r@[k].source,
                                target: r@[k].target,
                            }) by {
                            if k < r@.len() - 1 {
                                assert(r@[k] == r_b[k]);
                                let j = choose|j: int|
                                    0 <= j < i && #[trigger] s[j] == ((#[trigger] r_b[k]).id, Kind::Relation {
                                        source: r_b[k].source,
                                        target: r_b[k].target,
                                    });
                                assert(0 <= j < i + 1 && s[j] == (r@[k].id, Kind::Relation {
                                    source: r@[k].source,
                                    target: r@[k].target,
                                }));
                            } else {
                                assert(s[i as int] == (r@[k].id, Kind::Relation {
                                    source: r@[k].source,
                                    target: r@[k].target,
                                }));
                            }
                        }
                        assert forall|x: Edge| r_b.contains(x) implies r@.contains(x) by {
                            let k = choose|k: int| 0 <= k < r_b.len() && r_b[k] == x;
                            assert(r@[k] == x);
                        }
                        assert forall|j: int|
                            0 <= j < i + 1 implies ((#[trigger] s[j]).1 matches Kind::Relation {
                            source,
                            target,
                        } ==> r@.contains(Edge { id: s[j].0, source, target })) by {
                            if j == i {
                                assert(r@[r@.len() - 1] == (Edge { id: s[j].0, source, target }));
                            }
                        }
                        assert forall|p: int, q: int| 0 <= p < q < r@.len() implies r@[p].id
                            != r@[q].id by {
                            if q == r@.len() - 1 {
                                let jp = choose|j: int|
                                    0 <= j < i && #[trigger] s[j] == ((#[trigger] r@[p]).id, Kind::Relation {
                                        source: r@[p].source,
                                        target: r@[p].target,
                                    });
                                assert(s[jp].0 == r@[p].id);
                                assert(s[jp].0 != s[i as int].0);
                            } else {
                                assert(r@[p] == r_b[p]);
                                assert(r@[q] == r_b[q]);
                            }
                        }
                    }
                },
                Kind::Plain => {
                    proof {
                        assert(s[i as int].1 == e.1);
                    }
                },
            }
            i = i + 1;
        }
        proof {
            assert forall|k: int| 0 <= k < r@.len() implies edge_in(self@, #[trigger] r@[k].id)
                && r@[k] == (Edge {
                id: r@[k].id,
                source: edge_source(self@, r@[k].id),
                target: edge_target(self@, r@[k].id),
            }) by {
                let j = choose|j: int|
                    0 <= j < s.len() && #[trigger] s[j] == ((#[trigger] r@[k]).id, Kind::Relation {
                        source: r@[k].source,
                        target: r@[k].target,
                    });
                self.elems.lemma_entry_view(j);
            }
            assert forall|id: ID| edge_in(self@, id) implies r@.contains(
                Edge { id, source: edge_source(self@, id), target: edge_target(self@, id) },
            ) by {
                let j = choose|j: int| 0 <= j < s.len() && #[trigger] s[j].0 == id;
                self.elems.lemma_entry_view(j);
                assert(s[j] == (id, Kind::Relation {
                    source: edge_source(self@, id),
                    target: edge_target(self@, id),
                }));
            }
        }
        r
    }


    /// Remove a plain node and, cascading, every edge that directly or
    /// transitively depends on it. An absent or edge identity yields
    /// `None` with no side effects; repeating a removal is a no-op.
    pub fn remove_node(&mut self, id: ID) -> (r: Option<Node>)
        requires
            old(self).wf(),
        ensures
            final(self).wf(),
            final(self).id_bound() == old(self).id_bound(),
            node_in(old(self)@, id) ==> r == Some(Node { id, data: NodeData {} })
                && cascade_result(old(self)@, final(self)@, id),
            !node_in(old(self)@, id) ==> r == None::<Node> && *final(self) == *old(self),
    {
        match self.elems.get(id) {
            Some(Kind::Plain) => {
                self.remove_cascade(id);
                Some(Node { id, data: NodeData {} })
            },
            _ => None,
        }
    }

    /// Remove an edge and, cascading, every edge that directly or
    /// transitively depends on it, in either direction. An absent or node
    /// identity yields `None` with no side effects; repeating a removal is
    /// a no-op.
    pub fn remove_edge(&mut self, edge_id: ID) -> (r: Option<Edge>)
        requires
            old(self).wf(),
        ensures
            final(self).wf(),
            final(self).id_bound() == old(self).id_bound(),
            edge_in(old(self)@, edge_id) ==> r == Some(
                Edge {
                    id: edge_id,
                    source: edge_source(old(self)@, edge_id),
                    target: edge_target(old(self)@, edge_id),
                },
            ) && cascade_result(old(self)@, final(self)@, edge_id),
            !edge_in(old(self)@, edge_id) ==> r == None::<Edge> && *final(self) == *old(self),
    {
        match self.elems.get(edge_id) {
            Some(Kind::Relation { source, target }) => {
                self.remove_cascade(edge_id);
                Some(Edge { id: edge_id, source, target })
            },
            _ => None,
        }
    }

    /// The cascading-removal worklist. Pops one pending identity at a
    /// time; a pop of an already-removed identity is a no-op, which is
    /// what makes cycles among edges safe. When an element is removed,
    /// every edge incident on it, in both directions, becomes pending.
    fn remove_cascade(&mut self, root: ID)
        requires
            old(self).wf(),
            old(self)@.dom().contains(root),
        ensures
            final(self).wf(),
            final(self).id_bound() == old(self).id_bound(),
            cascade_result(old(self)@, final(self)@, root),
    {
        let ghost m0 = self@;
        let mut stack: Vec<ID> = Vec::new();
        stack.push(root);
        proof {
            lemma_cascade_root(m0, root);
            assert(stack@.len() == 1);
            assert(stack@[0] == root);
        }
        while stack.len() > 0
            invariant
                self.tables_wf(),
                self.index_ok(),
                self.ids_bounded(),
                self.no_self_reference(),
                self.next == old(self).next,
                forall|k: ID| #[trigger] self@.dom().contains(k) ==> m0.dom().contains(k)
                    && self@[k] == m0[k],
                forall|k: ID| m0.dom().contains(k) && !self@.dom().contains(k) ==> in_cascade(
                    m0,
                    k,
                    root,
                ),
                forall|j: int| 0 <= j < stack@.len() ==> in_cascade(m0, #[trigger] stack@[j], root),
                forall|e: ID| #[trigger] edge_in(self@, e) && (!self@.dom().contains(
                    edge_source(self@, e),
                ) || !self@.dom().contains(edge_target(self@, e))) ==> stack@.contains(e),
                self@.dom().contains(root) ==> stack@.contains(root),
            decreases self.elems_seq().len(), stack.len(),
        {
            let ghost stack_a = stack@;
            let popped = stack.pop();
            let cur = popped.unwrap();
            proof {
                assert(cur == stack_a.last());
                assert(in_cascade(m0, cur, root));
            }
            if !self.elems.has(cur) {
                proof {
                    assert forall|e: ID| #[trigger] edge_in(self@, e) && (!self@.dom().contains(
                        edge_source(self@, e),
                    ) || !self@.dom().contains(edge_target(self@, e))) implies stack@.contains(
                        e,
                    ) by {
                        assert(stack_a.contains(e));
                        let j = choose|j: int| 0 <= j < stack_a.len() && stack_a[j] == e;
                        assert(e != cur);
                        assert(j < stack_a.len() - 1);
                        assert(stack@[j] == e);
                    }
                    if self@.dom().contains(root) {
                        assert(stack_a.contains(root));
                        let j = choose|j: int| 0 <= j < stack_a.len() && stack_a[j] == root;
                        assert(root != cur);
                        assert(j < stack_a.len() - 1);
                        assert(stack@[j] == root);
                    }
                }
                continue ;
            }
            let ghost m_a = self@;
            let ghost out_a = self.outgoing;
            let ghost in_a = self.incoming;
            let mut out_edges = self.outgoing.seconds_of(cur);
            let mut in_edges = self.incoming.seconds_of(cur);
            match self.elems.get(cur) {
                Some(Kind::Relation { source, target }) => {
                    self.outgoing.remove(source, cur);
                    self.incoming.remove(target, cur);
                },
                _ => {},
            }
            proof {
                self.elems.lemma_view_dom();
                self.elems.lemma_view_len();
                assert(m_a.dom().contains(cur));
            }
            let ghost elems_len_a = self.elems.entries_seq().len();
            self.elems.remove(cur);
            proof {
                self.elems.lemma_view_len();
                assert(self@.dom() =~= m_a.dom().remove(cur));
                assert(self@.dom().len() == m_a.dom().len() - 1);
                assert(self.elems.entries_seq().len() < elems_len_a);
            }
            let ghost out_seq = out_edges@;
            let ghost in_seq = in_edges@;
            let ghost stack_b = stack@;
            stack.append(&mut out_edges);
            stack.append(&mut in_edges);
            proof {
                let m1 = self@;
                assert(m1 == m_a.remove(cur));
                assert(stack@ == stack_b + out_seq + in_seq);
                // the index is exactly right again
                assert forall|a: ID, e: ID| #[trigger] self.outgoing.has(a, e) implies edge_in(
                    m1,
                    e,
                ) && edge_source(m1, e) == a by {
                    assert(out_a.has(a, e));
                    assert(edge_in(m_a, e));
                    if e == cur {
                        assert(edge_source(m_a, cur) == a);
                        assert(false);
                    }
                }
                assert forall|a: ID, e: ID| #[trigger] self.incoming.has(a, e) implies edge_in(
                    m1,
                    e,
                ) && edge_target(m1, e) == a by {
                    assert(in_a.has(a, e));
                    assert(edge_in(m_a, e));
                    if e == cur {
                        assert(edge_target(m_a, cur) == a);
                        assert(false);
                    }
                }
                assert forall|e: ID| #[trigger] edge_in(m1, e) implies self.outgoing.has(
                    edge_source(m1, e),
                    e,
                ) && self.incoming.has(edge_target(m1, e), e) by {
                    assert(edge_in(m_a, e));
                    assert(e != cur);
                    assert(out_a.has(edge_source(m_a, e), e));
                    assert(in_a.has(edge_target(m_a, e), e));
                }
                // everything pushed is in the cascade
                assert forall|j: int| 0 <= j < stack@.len() implies in_cascade(
                    m0,
                    #[trigger] stack@[j],
                    root,
                ) by {
                    if j < stack_b.len() {
                        assert(stack@[j] == stack_b[j]);
                    } else {
                        let e = stack@[j];
                        if j < stack_b.len() + out_seq.len() {
                            assert(e == out_seq[j - stack_b.len()]);
                            assert(out_seq.contains(e));
                            assert(out_a.has(cur, e));
                            assert(edge_in(m_a, e) && edge_source(m_a, e) == cur);
                            assert(depends_on(m0, e, cur));
                        } else {
                            assert(e == in_seq[j - stack_b.len() - out_seq.len()]);
                            assert(in_seq.contains(e));
                            assert(in_a.has(cur, e));
                            assert(edge_in(m_a, e) && edge_target(m_a, e) == cur);
                            assert(depends_on(m0, e, cur));
                        }
                        lemma_cascade_extend(m0, root, cur, e);
                    }
                }
                // every surviving edge with a dead endpoint is pending
                assert forall|e: ID| #[trigger] edge_in(m1, e) && (!m1.dom().contains(
                    edge_source(m1, e),
                ) || !m1.dom().contains(edge_target(m1, e))) implies stack@.contains(e) by {
                    assert(edge_in(m_a, e));
                    assert(e != cur);
                    let s = edge_source(m1, e);
                    let t = edge_target(m1, e);
                    if !m1.dom().contains(s) && s != cur {
                        assert(!m_a.dom().contains(s));
                        assert(stack_a.contains(e));
                        let j = choose|j: int| 0 <= j < stack_a.len() && stack_a[j] == e;
                        assert(j < stack_a.len() - 1);
                        assert(stack_b[j] == e);
                        assert(stack@[j] == e);
                    } else if !m1.dom().contains(t) && t != cur {
                        assert(!m_a.dom().contains(t));
                        assert(stack_a.contains(e));
                        let j = choose|j: int| 0 <= j < stack_a.len() && stack_a[j] == e;
                        assert(j < stack_a.len() - 1);
                        assert(stack_b[j] == e);
                        assert(stack@[j] == e);
                    } else if s == cur {
                        assert(out_a.has(cur, e));
                        assert(out_seq.contains(e));
                        let j = choose|j: int| 0 <= j < out_seq.len() && out_seq[j] == e;
                        assert(stack@[stack_b.len() + j] == e);
                    } else {
                        assert(t == cur);
                        assert(in_a.has(cur, e));
                        assert(in_seq.contains(e));
                        let j = choose|j: int| 0 <= j < in_seq.len() && in_seq[j] == e;
                        assert(stack@[stack_b.len() + out_seq.len() + j] == e);
                    }
                }
                // the root stays pending until removed
                if m1.dom().contains(root) {
                    assert(root != cur);
                    assert(stack_a.contains(root));
                    let j = choose|j: int| 0 <= j < stack_a.len() && stack_a[j] == root;
                    assert(j < stack_a.len() - 1);
                    assert(stack@[j] == root);
                }
            }
        }
        proof {
            let mf = self@;
            assert(!mf.dom().contains(root));
            assert forall|e: ID| #[trigger] edge_in(mf, e) implies mf.dom().contains(
                edge_source(mf, e),
            ) && mf.dom().contains(edge_target(mf, e)) by {
                assert(!stack@.contains(e));
            }
            assert forall|k: ID| #[trigger] mf.dom().contains(k) implies m0.dom().contains(k)
                && !in_cascade(m0, k, root) by {
                if in_cascade(m0, k, root) {
                    let c = choose|c: Seq<ID>| dependence_chain(m0, c, root) && c.last() == k;
                    lemma_cascade_complete(m0, mf, root, c);
                }
            }
        }
    }
}

impl Graph {
    /// A well-formed graph's parts pass the decoder's validation.
    pub proof fn lemma_wf_parts_valid(self)
        requires
            self.wf(),
        ensures
            parts_valid(self.id_bound(), self.elems_seq()),
    {
        self.elems.lemma_entries_distinct();
        self.elems.lemma_view_dom();
        let s = self.elems_seq();
        assert forall|i: int| 0 <= i < s.len() implies 1 <= (#[trigger] s[i]).0 < self.next by {
            self.elems.lemma_entry_view(i);
            assert(self@.dom().contains(s[i].0));
        }
        assert forall|i: int|
            0 <= i < s.len() implies ((#[trigger] s[i]).1 matches Kind::Relation { source, target }
            ==> source != s[i].0 && target != s[i].0 && (exists|j: int|
            0 <= j < s.len() && (#[trigger] s[j]).0 == source) && (exists|j: int|
            0 <= j < s.len() && s[j].0 == target)) by {
            self.elems.lemma_entry_view(i);
            if kind_is_relation(s[i].1) {
                let e = s[i].0;
                assert(edge_in(self@, e));
                assert(self@.dom().contains(edge_source(self@, e)));
                assert(self@.dom().contains(edge_target(self@, e)));
                let js = choose|j: int|
                    0 <= j < s.len() && #[trigger] s[j].0 == edge_source(self@, e);
                let jt = choose|j: int|
                    0 <= j < s.len() && #[trigger] s[j].0 == edge_target(self@, e);
                assert(s[js].0 == kind_source(s[i].1));
                assert(s[jt].0 == kind_target(s[i].1));
            }
        }
    }

    /// Rebuild a graph from decoded parts, validating them; `None`
    /// exactly when the parts would not form a well-formed graph.
    pub(crate) fn assemble(next: u64, elems: Vec<(ID, Kind)>) -> (r: Option<Graph>)
        ensures
            r matches Some(g) ==> parts_valid(next, elems@) && g.wf() && g.id_bound() == next
                && g.elems_seq() == elems@,
            r == None::<Graph> ==> !parts_valid(next, elems@),
    {
        if next < 1 {
            return None;
        }
        let n = elems.len();
        let mut t: Table<Kind> = Table::new();
        let mut i: usize = 0;
        while i < n
            invariant
                0 <= i <= n,
                n == elems@.len(),
                t.wf(),
                t.entries_seq() == elems@.subrange(0, i as int),
                forall|j: int| 0 <= j < i ==> 1 <= (#[trigger] elems@[j]).0 < next,
            decreases n - i,
        {
            let (id, k) = elems[i];
            if id < 1 || id >= next {
                proof {
                    assert(elems@[i as int].0 == id);
                }
                return None;
            }
            if t.has(id) {
                proof {
                    t.lemma_view_dom();
                    let j = choose|j: int|
                        0 <= j < t.entries_seq().len() && #[trigger] t.entries_seq()[j].0 == id;
                    assert(elems@[j] == t.entries_seq()[j]);
                    assert(elems@[j].0 == elems@[i as int].0);
                }
                return None;
            }
            proof {
                t.lemma_view_dom();
            }
            t.push_entry(id, k);
            proof {
                assert(t.entries_seq() =~= elems@.subrange(0, i + 1));
            }
            i = i + 1;
        }
        proof {
            assert(elems@.subrange(0, n as int) =~= elems@);
            t.lemma_view_dom();
        }
        let mut i: usize = 0;
        while i < n
            invariant
                0 <= i <= n,
                n == elems@.len(),
                t.wf(),
                t.entries_seq() == elems@,
                forall|j: int|
                    0 <= j < i ==> ((#[trigger] elems@[j]).1 matches Kind::Relation {
                        source,
                        target,
                    } ==> source != elems@[j].0 && target != elems@[j].0 && (exists|j2: int|
                        0 <= j2 < elems@.len() && (#[trigger] elems@[j2]).0 == source) && (exists|
                        j2: int,
                    |
                        0 <= j2 < elems@.len() && elems@[j2].0 == target)),
            decreases n - i,
        {
            let (id, k) = elems[i];
            match k {
                Kind::Relation { source, target } => {
                    if source == id || target == id {
                        proof {
                            assert(elems@[i as int] == (id, k));
                        }
                        return None;
                    }
                    let src_ok = t.has(source);
                    let tgt_ok = t.has(target);
                    proof {
                        t.lemma_view_dom();
                        assert(elems@[i as int] == (id, k));
                    }
                    if !src_ok || !tgt_ok {
                        return None;
                    }
                },
                Kind::Plain => {},
            }
            i = i + 1;
        }
        proof {
            t.lemma_entries_distinct();
        }
        let mut outgoing = Pairs::new();
        let mut incoming = Pairs::new();
        let mut i: usize = 0;
        while i < n
            invariant
                0 <= i <= n,
                n == elems@.len(),
                crate::table::entry_keys_distinct(elems@),
                outgoing.wf(),
                incoming.wf(),
                forall|a: ID, e: ID| #[trigger] outgoing.has(a, e) <==> (exists|j: int|
                    0 <= j < i && (#[trigger] elems@[j]).0 == e && kind_is_relation(elems@[j].1)
                        && kind_source(elems@[j].1) == a),
                forall|a: ID, e: ID| #[trigger] incoming.has(a, e) <==> (exists|j: int|
                    0 <= j < i && (#[trigger] elems@[j]).0 == e && kind_is_relation(elems@[j].1)
                        && kind_target(elems@[j].1) == a),
            decreases n - i,
        {
            let (id, k) = elems[i];
            proof {
                assert(elems@[i as int] == (id, k));
            }
            match k {
                Kind::Relation { source, target } => {
                    proof {
                        assert(!outgoing.has(source, id)) by {
                            if outgoing.has(source, id) {
                                let j = choose|j: int|
                                    0 <= j < i && (#[trigger] elems@[j]).0 == id && kind_is_relation(
                                        elems@[j].1,
                                    ) && kind_source(elems@[j].1) == source;
                                assert(elems@[j].0 == elems@[i as int].0);
                            }
                        }
                        assert(!incoming.has(target, id)) by {
                            if incoming.has(target, id) {
                                let j = choose|j: int|
                                    0 <= j < i && (#[trigger] elems@[j]).0 == id && kind_is_relation(
                                        elems@[j].1,
                                    ) && kind_target(elems@[j].1) == target;
                                assert(elems@[j].0 == elems@[i as int].0);
                            }
                        }
                    }
                    outgoing.insert(source, id);
                    incoming.insert(target, id);
                    proof {
                        assert forall|a: ID, e: ID| #[trigger] outgoing.has(a, e) implies (exists|
                            j: int,
                        |
                            0 <= j < i + 1 && (#[trigger] elems@[j]).0 == e && kind_is_relation(
                                elems@[j].1,
                            ) && kind_source(elems@[j].1) == a) by {
                            if (a, e) == (source, id) {
                                assert(elems@[i as int].0 == e && kind_is_relation(
                                    elems@[i as int].1,
                                ) && kind_source(elems@[i as int].1) == a);
                            }
                        }
                        assert forall|a: ID, e: ID| #[trigger] incoming.has(a, e) implies (exists|
                            j: int,
                        |
                            0 <= j < i + 1 && (#[trigger] elems@[j]).0 == e && kind_is_relation(
                                elems@[j].1,
                            ) && kind_target(elems@[j].1) == a) by {
                            if (a, e) == (target, id) {
                                assert(elems@[i as int].0 == e && kind_is_relation(
                                    elems@[i as int].1,
                                ) && kind_target(elems@[i as int].1) == a);
                            }
                        }
                    }
                },
                Kind::Plain => {
                    proof {
                        assert forall|a: ID, e: ID| #[trigger] outgoing.has(a, e) implies (exists|
                            j: int,
                        |
                            0 <= j < i + 1 && (#[trigger] elems@[j]).0 == e && kind_is_relation(
                                elems@[j].1,
                            ) && kind_source(elems@[j].1) == a) by {}
                        assert forall|a: ID, e: ID| #[trigger] incoming.has(a, e) implies (exists|
                            j: int,
                        |
                            0 <= j < i + 1 && (#[trigger] elems@[j]).0 == e && kind_is_relation(
                                elems@[j].1,
                            ) && kind_target(elems@[j].1) == a) by {}
                    }
                },
            }
            i = i + 1;
        }
        let g = Graph { next, elems: t, outgoing, incoming };
        proof {
            g.elems.lemma_view_dom();
            assert forall|a: ID, e: ID| #[trigger] g.outgoing.has(a, e) implies edge_in(g@, e)
                && edge_source(g@, e) == a by {
                let j = choose|j: int|
                    0 <= j < n && (#[trigger] elems@[j]).0 == e && kind_is_relation(elems@[j].1)
                        && kind_source(elems@[j].1) == a;
                g.elems.lemma_entry_view(j);
            }
            assert forall|a: ID, e: ID| #[trigger] g.incoming.has(a, e) implies edge_in(g@, e)
                && edge_target(g@, e) == a by {
                let j = choose|j: int|
                    0 <= j < n && (#[trigger] elems@[j]).0 == e && kind_is_relation(elems@[j].1)
                        && kind_target(elems@[j].1) == a;
                g.elems.lemma_entry_view(j);
            }
            assert forall|e: ID| #[trigger] edge_in(g@, e) implies g.outgoing.has(
                edge_source(g@, e),
                e,
            ) && g.incoming.has(edge_target(g@, e), e) by {
                let j = choose|j: int| 0 <= j < n && #[trigger] elems@[j].0 == e;
                g.elems.lemma_entry_view(j);
                assert(elems@[j].1 == g@[e]);
            }
            assert forall|k2: ID| #[trigger] g@.dom().contains(k2) implies 1 <= k2 < g.next by {
                let j = choose|j: int| 0 <= j < n && #[trigger] elems@[j].0 == k2;
            }
            assert forall|e: ID| #[trigger] edge_in(g@, e) implies g@.dom().contains(
                edge_source(g@, e),
            ) && g@.dom().contains(edge_target(g@, e)) && edge_source(g@, e) != e && edge_target(
                g@,
                e,
            ) != e by {
                let j = choose|j: int| 0 <= j < n && #[trigger] elems@[j].0 == e;
                g.elems.lemma_entry_view(j);
                assert(elems@[j].1 == g@[e]);
                assert(kind_is_relation(elems@[j].1));
                let src = kind_source(elems@[j].1);
                let tgt = kind_target(elems@[j].1);
                let js = choose|j2: int| 0 <= j2 < elems@.len() && (#[trigger] elems@[j2]).0 == src;
                let jt = choose|j2: int| 0 <= j2 < elems@.len() && (#[trigger] elems@[j2]).0 == tgt;
            }
        }
        Some(g)
    }
}

/// Two graphs with the same arena entries have the same model.
pub proof fn lemma_same_elems_same_view(g1: Graph, g2: Graph)
    requires
        g1.elems_seq() == g2.elems_seq(),
    ensures
        g1@ == g2@,
{
    crate::table::lemma_same_entries_same_view(g1.elems, g2.elems);
}

} // verus!
