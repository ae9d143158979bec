//! The graph session: the graph engine, the position overlay, and the
//! view parameters, owned together and saved or restored as one snapshot.
//!
//! The overlay mixes authoritative data (node coordinates, set from
//! outside) with derived data (edge coordinates, defined as the midpoint
//! of the edge's endpoint coordinates). Propagation keeps the derived
//! layer consistent as nodes move, rippling through chains of edges
//! attached to edges.

use vstd::prelude::*;

use crate::graph::Graph;
use crate::graph::ID;
use crate::graph::Kind;
use crate::graph::NodeData;
use crate::graph::cascade_result;
use crate::graph::edge_in;
use crate::graph::edge_source;
use crate::graph::edge_target;
use crate::table::Table;
use vstd::set_lib::lemma_len_subset;

verus! {

broadcast use vstd::seq_lib::seq_to_set_is_finite;

/// A 2-D coordinate in unsigned fixed-point world units. Callers that
/// work in another space (for instance floating-point screen space) map
/// into these units at the boundary; `COORD_ORIGIN` marks the origin of
/// that mapping.
#[derive(Clone, Copy, Debug, PartialEq, Eq)]
pub struct Coord {
    pub x: u64,
    pub y: u64,
}

/// The world origin in fixed-point units: coordinates are unsigned, so
/// the origin sits at the middle of the range.
pub const COORD_ORIGIN: u64 = 9223372036854775808;

/// Zoom is measured in units of `ZOOM_UNIT`, so `ZOOM_UNIT` itself is
/// the neutral zoom.
pub const ZOOM_UNIT: u64 = 1024;

/// The midpoint of two coordinate values: their mean, rounded down.
pub open spec fn mid_val(a: u64, b: u64) -> u64 {
    (((a + b) / 2) as u64)
}

/// The midpoint of two coordinates, componentwise.
pub open spec fn midpoint(a: Coord, b: Coord) -> Coord {
    Coord { x: mid_val(a.x, b.x), y: mid_val(a.y, b.y) }
}

fn mid_val_exec(a: u64, b: u64) -> (r: u64)
    ensures
        r == mid_val(a, b),
{
    (((a as u128) + (b as u128)) / 2) as u64
}

fn mid_coord(a: Coord, b: Coord) -> (r: Coord)
    ensures
        r == midpoint(a, b),
{
    Coord { x: mid_val_exec(a.x, b.x), y: mid_val_exec(a.y, b.y) }
}

/// Pan-and-zoom view parameters, carried with the session and preserved
/// by snapshots. The core only stores, resets and restores them; the
/// arithmetic that consumes them (world-to-screen mapping) belongs to
/// the rendering layer outside this crate.
#[derive(Clone, Copy, Debug, PartialEq, Eq)]
pub struct Camera {
    pub offset_x: u64,
    pub offset_y: u64,
    pub zoom: u64,
}

impl Camera {
    /// The home view: origin offset, neutral zoom.
    pub open spec fn home() -> Camera {
        Camera { offset_x: COORD_ORIGIN, offset_y: COORD_ORIGIN, zoom: ZOOM_UNIT }
    }

    /// Reset to the home view.
    pub fn reset(&mut self)
        ensures
            *final(self) == Camera::home(),
    {
        *self = Camera { offset_x: COORD_ORIGIN, offset_y: COORD_ORIGIN, zoom: ZOOM_UNIT };
    }
}

impl Default for Camera {
    fn default() -> (r: Camera)
        ensures
            r == Camera::home(),
    {
        Camera { offset_x: COORD_ORIGIN, offset_y: COORD_ORIGIN, zoom: ZOOM_UNIT }
    }
}

/// True when `p` lies strictly within `radius` of `q`, by Euclidean
/// distance, compared through squares so no rounding is involved.
pub open spec fn within_radius(p: Coord, q: Coord, radius: u64) -> bool {
    let dx = if p.x >= q.x {
        p.x - q.x
    } else {
        q.x - p.x
    };
    let dy = if p.y >= q.y {
        p.y - q.y
    } else {
        q.y - p.y
    };
    dx * dx + dy * dy < radius * radius
}

fn within_radius_exec(p: Coord, q: Coord, radius: u64) -> (r: bool)
    ensures
        r == within_radius(p, q, radius),
{
    let dx: u64 = if p.x >= q.x {
        p.x - q.x
    } else {
        q.x - p.x
    };
    let dy: u64 = if p.y >= q.y {
        p.y - q.y
    } else {
        q.y - p.y
    };
    proof {
        vstd::arithmetic::mul::lemma_mul_upper_bound(
            dx as int,
            u64::MAX as int,
            dx as int,
            u64::MAX as int,
        );
        vstd::arithmetic::mul::lemma_mul_upper_bound(
            dy as int,
            u64::MAX as int,
            dy as int,
            u64::MAX as int,
        );
        vstd::arithmetic::mul::lemma_mul_upper_bound(
            radius as int,
            u64::MAX as int,
            radius as int,
            u64::MAX as int,
        );
    }
    let dx2: u128 = (dx as u128) * (dx as u128);
    let dy2: u128 = (dy as u128) * (dy as u128);
    let r2: u128 = (radius as u128) * (radius as u128);
    if dx2 >= r2 {
        false
    } else {
        dy2 < r2 - dx2
    }
}

/// The adjacency neighbours enqueued when propagation processes `id`:
/// the edges out of `id`, then the edges into it, in index order.
pub open spec fn neighbors_seq(g: Graph, id: ID) -> Seq<ID> {
    g.outgoing_seq(id) + g.incoming_seq(id)
}

/// The identities propagation can still reach: the graph's elements and
/// everything queued, less what was already visited.
pub open spec fn prop_universe(g: Graph, queue: Seq<ID>, visited: Set<ID>) -> Set<ID> {
    g@.dom().union(queue.to_set()).difference(visited)
}

pub open spec fn prop_measure(g: Graph, queue: Seq<ID>, visited: Set<ID>) -> nat {
    prop_universe(g, queue, visited).len()
}

/// The result of breadth-first midpoint propagation.
///
/// One queued identity is processed per step, at most once per
/// propagation (the visited set guards cycles). A visited edge whose
/// endpoint coordinates are both known is re-derived as their midpoint;
/// then every edge incident on the identity, in either direction, is
/// enqueued. The order is the adjacency index's stored order, which is
/// why the whole graph value is a parameter.
///
/// Known staleness window: breadth-first order need not match the
/// dependency order of nested edges, so an edge two or more levels from
/// the start may read a not-yet-updated intermediate midpoint and settle
/// only on a later propagation pass.
///
/// The leading well-formedness test only makes the recursion total on
/// arbitrary graph values: termination rests on the index naming live
/// elements. Sessions always satisfy it, so it never changes what the
/// function means for them.
pub open spec fn spec_propagate(
    g: Graph,
    pos: Map<ID, Coord>,
    queue: Seq<ID>,
    visited: Set<ID>,
) -> Map<ID, Coord>
    decreases prop_measure(g, queue, visited), queue.len(),
    via spec_propagate_decreases
{
    if !g.wf() {
        pos
    } else if queue.len() == 0 {
        pos
    } else {
        let cur = queue[0];
        let rest = queue.drop_first();
        if visited.contains(cur) {
            spec_propagate(g, pos, rest, visited)
        } else {
            let pos2 = if edge_in(g@, cur) && pos.dom().contains(edge_source(g@, cur))
                && pos.dom().contains(edge_target(g@, cur)) {
                pos.insert(cur, midpoint(pos[edge_source(g@, cur)], pos[edge_target(g@, cur)]))
            } else {
                pos
            };
            spec_propagate(g, pos2, rest + neighbors_seq(g, cur), visited.insert(cur))
        }
    }
}

/// Propagation re-derives edge coordinates only: the authoritative
/// entries — node coordinates, set from outside — are never created,
/// dropped or changed by it.
pub proof fn lemma_propagate_preserves_nodes(
    g: Graph,
    pos: Map<ID, Coord>,
    queue: Seq<ID>,
    visited: Set<ID>,
)
    ensures
        forall|k: ID|
            !edge_in(g@, k) ==> (#[trigger] spec_propagate(g, pos, queue, visited).dom().contains(
                k,
            ) <==> pos.dom().contains(k)),
        forall|k: ID|
            !edge_in(g@, k) && pos.dom().contains(k) ==> #[trigger] spec_propagate(
                g,
                pos,
                queue,
                visited,
            )[k] == pos[k],
    decreases prop_measure(g, queue, visited), queue.len(),
{
    if !g.wf() || queue.len() == 0 {
    } else {
        let cur = queue[0];
        let rest = queue.drop_first();
        if visited.contains(cur) {
            lemma_prop_measure_skip(g, queue, visited);
            lemma_propagate_preserves_nodes(g, pos, rest, visited);
            assert(spec_propagate(g, pos, queue, visited) == spec_propagate(g, pos, rest, visited));
        } else {
            let pos2 = if edge_in(g@, cur) && pos.dom().contains(edge_source(g@, cur))
                && pos.dom().contains(edge_target(g@, cur)) {
                pos.insert(cur, midpoint(pos[edge_source(g@, cur)], pos[edge_target(g@, cur)]))
            } else {
                pos
            };
            lemma_prop_measure_step(g, queue, visited);
            lemma_propagate_preserves_nodes(
                g,
                pos2,
                rest + neighbors_seq(g, cur),
                visited.insert(cur),
            );
            assert(spec_propagate(g, pos, queue, visited) == spec_propagate(
                g,
                pos2,
                rest + neighbors_seq(g, cur),
                visited.insert(cur),
            ));
            assert forall|k: ID| !edge_in(g@, k) implies (pos2.dom().contains(k)
                <==> pos.dom().contains(k)) && (pos.dom().contains(k) ==> pos2[k] == pos[k]) by {
                if k == cur {
                    assert(pos2 == pos);
                }
            }
        }
    }
}

/// Dropping an already-visited head never raises the measure.
proof fn lemma_prop_measure_skip(g: Graph, queue: Seq<ID>, visited: Set<ID>)
    requires
        queue.len() > 0,
    ensures
        prop_measure(g, queue.drop_first(), visited) <= prop_measure(g, queue, visited),
{
    let u1 = prop_universe(g, queue, visited);
    let u2 = prop_universe(g, queue.drop_first(), visited);
    assert forall|x: ID| u2.contains(x) implies u1.contains(x) by {
        if queue.drop_first().to_set().contains(x) {
            let i = choose|i: int|
                0 <= i < queue.drop_first().len() && queue.drop_first()[i] == x;
            assert(queue[i + 1] == x);
            assert(queue.to_set().contains(x));
        }
    }
    g.lemma_dom_finite();
    assert(g@.dom().union(queue.to_set()).finite());
    assert(u1.finite());
    lemma_len_subset(u2, u1);
}

/// Processing an unvisited head strictly lowers the measure, because the
/// head joins the visited set and everything enqueued was already in the
/// universe.
proof fn lemma_prop_measure_step(g: Graph, queue: Seq<ID>, visited: Set<ID>)
    requires
        g.wf(),
        queue.len() > 0,
        !visited.contains(queue[0]),
    ensures
        prop_measure(g, queue.drop_first() + neighbors_seq(g, queue[0]), visited.insert(queue[0]))
            < prop_measure(g, queue, visited),
{
    let cur = queue[0];
    let rest = queue.drop_first();
    let q2 = rest + neighbors_seq(g, cur);
    let u1 = prop_universe(g, queue, visited);
    let u2 = prop_universe(g, q2, visited.insert(cur));
    g.lemma_dom_finite();
    g.lemma_neighbors_live(cur);
    assert forall|x: ID| u2.contains(x) implies u1.remove(cur).contains(x) by {
        assert(x != cur);
        assert(!visited.contains(x));
        if q2.to_set().contains(x) {
            let i = choose|i: int| 0 <= i < q2.len() && q2[i] == x;
            if i < rest.len() {
                assert(rest[i] == x);
                assert(queue[i + 1] == x);
                assert(queue.to_set().contains(x));
            } else {
                assert(neighbors_seq(g, cur)[i - rest.len()] == x);
                assert(g@.dom().contains(x));
            }
        }
    }
    assert(u1.contains(cur)) by {
        assert(queue.to_set().contains(cur));
    }
    assert(g@.dom().union(queue.to_set()).finite());
    assert(u1.finite());
    lemma_len_subset(u2, u1.remove(cur));
    assert(u1.remove(cur).len() == u1.len() - 1);
}

#[via_fn]
proof fn spec_propagate_decreases(g: Graph, pos: Map<ID, Coord>, queue: Seq<ID>, visited: Set<ID>) {
    if g.wf() && queue.len() > 0 {
        if visited.contains(queue[0]) {
            lemma_prop_measure_skip(g, queue, visited);
        } else {
            lemma_prop_measure_step(g, queue, visited);
        }
    }
}

fn id_vec_contains(v: &Vec<ID>, x: ID) -> (r: bool)
    ensures
        r == v@.contains(x),
{
    let n = v.len();
    let mut i: usize = 0;
    while i < n
        invariant
            0 <= i <= n,
            n == v@.len(),
            forall|j: int| 0 <= j < i ==> v@[j] != x,
        decreases n - i,
    {
        if v[i] == x {
            proof {
                assert(v@[i as int] == x);
            }
            return true;
        }
        i = i + 1;
    }
    false
}

/// One graph session: graph, overlay, view parameters.
pub struct GraphState {
    pub graph: Graph,
    pub positions: Table<Coord>,
    pub camera: Camera,
}

impl GraphState {
    /// The overlay as a map from identity to coordinate.
    pub closed spec fn positions_map(self) -> Map<ID, Coord> {
        self.positions@
    }

    /// The overlay's entry sequence behind the map; the codec reads it.
    pub closed spec fn positions_seq(self) -> Seq<(ID, Coord)> {
        self.positions.entries_seq()
    }

    /// Well-formedness of the whole session.
    pub closed spec fn wf(self) -> bool {
        self.graph.wf() && self.positions_wf()
    }

    pub closed spec fn positions_wf(self) -> bool {
        self.positions.wf()
    }

    /// Bridges for the codec: the closed session specs in terms of the
    /// session's parts.
    pub(crate) proof fn lemma_state_parts(self)
        ensures
            self.positions_seq() == self.positions.entries_seq(),
            self.positions_map() == self.positions@,
            self.wf() <==> (self.graph.wf() && self.positions.wf()),
    {
    }

    /// A well-formed session's overlay entries have distinct keys; the
    /// codec's validation accepts them.
    pub(crate) proof fn lemma_wf_positions_distinct(self)
        requires
            self.wf(),
        ensures
            crate::table::entry_keys_distinct(self.positions_seq()),
    {
        self.positions.lemma_entries_distinct();
    }

    /// A fresh, empty session.
    pub fn new() -> (s: GraphState)
        ensures
            s.wf(),
            s.graph@ == Map::<ID, Kind>::empty(),
            s.graph.id_bound() == 1,
            s.positions_map() == Map::<ID, Coord>::empty(),
            s.camera == Camera::home(),
    {
        GraphState { graph: Graph::new(), positions: Table::new(), camera: Camera::default() }
    }

    /// The stored coordinate of an element, if any.
    pub fn get_position(&self, id: ID) -> (r: Option<Coord>)
        requires
            self.wf(),
        ensures
            self.positions_map().dom().contains(id) ==> r == Some(self.positions_map()[id]),
            !self.positions_map().dom().contains(id) ==> r == None::<Coord>,
    {
        self.positions.get(id)
    }

    /// All overlay entries, in overlay order.
    pub fn positions_list(&self) -> (r: Vec<(ID, Coord)>)
        requires
            self.wf(),
        ensures
            r@ == self.positions_seq(),
            forall|j: int| 0 <= j < r@.len() ==> self.positions_map().dom().contains(
                (#[trigger] r@[j]).0,
            ) && self.positions_map()[r@[j].0] == r@[j].1,
    {
        let n = self.positions.len();
        let mut r: Vec<(ID, Coord)> = Vec::new();
        let mut i: usize = 0;
        while i < n
            invariant
                0 <= i <= n,
                n == self.positions_seq().len(),
                r@ == self.positions_seq().subrange(0, i as int),
            decreases n - i,
        {
            r.push(self.positions.entry_at(i));
            proof {
                assert(r@ =~= self.positions_seq().subrange(0, i + 1));
            }
            i = i + 1;
        }
        proof {
            assert(r@ =~= self.positions_seq());
            assert forall|j: int| 0 <= j < r@.len() implies self.positions_map().dom().contains(
                (#[trigger] r@[j]).0,
            ) && self.positions_map()[r@[j].0] == r@[j].1 by {
                self.positions.lemma_entry_view(j);
            }
        }
        r
    }

    /// Add a node at a coordinate: the node's overlay entry is
    /// authoritative, set here and by later moves.
    pub fn add_node_at(&mut self, position: Coord) -> (id: ID)
        requires
            old(self).wf(),
            old(self).graph.id_bound() < u64::MAX,
        ensures
            final(self).wf(),
            !old(self).graph@.dom().contains(id),
            id == old(self).graph.id_bound(),
            final(self).graph.id_bound() == old(self).graph.id_bound() + 1,
            final(self).graph@ == old(self).graph@.insert(id, Kind::Plain),
            final(self).positions_map() == old(self).positions_map().insert(id, position),
            final(self).camera == old(self).camera,
    {
        let id = self.graph.add_node(NodeData {});
        self.positions.insert(id, position);
        id
    }

    /// Create an edge between two existing elements; when both endpoint
    /// coordinates are known, the edge starts out at their midpoint,
    /// otherwise its coordinate stays unset. Fails, changing nothing,
    /// exactly when an endpoint is absent from the graph.
    pub fn add_edge_between(&mut self, source: ID, target: ID) -> (r: Option<ID>)
        requires
            old(self).wf(),
            old(self).graph.id_bound() < u64::MAX,
        ensures
            final(self).wf(),
            final(self).camera == old(self).camera,
            (old(self).graph@.dom().contains(source) && old(self).graph@.dom().contains(target))
                ==> (r matches Some(e) && !old(self).graph@.dom().contains(e)
                && e == old(self).graph.id_bound()
                && final(self).graph.id_bound() == old(self).graph.id_bound() + 1 && final(self).graph@
                == old(self).graph@.insert(e, Kind::Relation { source, target }) && (if old(self).positions_map().dom().contains(source) && old(self).positions_map().dom().contains(
                target,
            ) {
                final(self).positions_map() == old(self).positions_map().insert(
                    e,
                    midpoint(
                        old(self).positions_map()[source],
                        old(self).positions_map()[target],
                    ),
                )
            } else {
                final(self).positions_map() == old(self).positions_map()
            })),
            !(old(self).graph@.dom().contains(source) && old(self).graph@.dom().contains(target))
                ==> (r == None::<ID> && *final(self) == *old(self)),
    {
        let r = self.graph.add_edge(source, target);
        match r {
            Some(edge_id) => {
                let ps = self.positions.get(source);
                let pt = self.positions.get(target);
                match (ps, pt) {
                    (Some(a), Some(b)) => {
                        let m = mid_coord(a, b);
                        self.positions.insert(edge_id, m);
                    },
                    _ => {},
                }
                Some(edge_id)
            },
            None => None,
        }
    }

    /// Remove an element of either kind, with the engine's cascade; the
    /// element's own overlay entry goes with it, while entries of
    /// cascade-removed edges are garbage-collected lazily by
    /// `cleanup_positions`. Removing an absent identity only drops the
    /// overlay entry, if any; repeating a removal is a no-op.
    pub fn remove_element(&mut self, id: ID)
        requires
            old(self).wf(),
        ensures
            final(self).wf(),
            final(self).camera == old(self).camera,
            final(self).graph.id_bound() == old(self).graph.id_bound(),
            old(self).graph@.dom().contains(id) ==> cascade_result(
                old(self).graph@,
                final(self).graph@,
                id,
            ),
            !old(self).graph@.dom().contains(id) ==> final(self).graph@ == old(self).graph@,
            final(self).positions_map() == old(self).positions_map().remove(id),
    {
        if self.graph.get_node(id).is_some() {
            self.graph.remove_node(id);
        } else if self.graph.get_edge(id).is_some() {
            self.graph.remove_edge(id);
        }
        self.positions.remove(id);
    }

    /// Drop every overlay entry whose identity no longer names a graph
    /// element; invoked after a batch of mutations, before positions are
    /// read for rendering or propagation.
    pub fn cleanup_positions(&mut self)
        requires
            old(self).wf(),
        ensures
            final(self).wf(),
            final(self).graph == old(self).graph,
            final(self).camera == old(self).camera,
            forall|k: ID| #[trigger] final(self).positions_map().dom().contains(k) <==> (old(self).positions_map().dom().contains(k) && old(self).graph@.dom().contains(k)),
            forall|k: ID| #[trigger] final(self).positions_map().dom().contains(k) ==> final(self).positions_map()[k] == old(self).positions_map()[k],
    {
        let ghost s = self.positions.entries_seq();
        proof {
            self.positions.lemma_view_dom();
        }
        let n = self.positions.len();
        let mut kept: Table<Coord> = Table::new();
        let mut i: usize = 0;
        while i < n
            invariant
                0 <= i <= n,
                n == s.len(),
                self.positions.entries_seq() == s,
                kept.wf(),
                forall|k: ID| #[trigger] kept@.dom().contains(k) ==> self.graph@.dom().contains(k)
                    && self.positions@.dom().contains(k) && kept@[k] == self.positions@[k],
                forall|j: int| 0 <= j < i ==> (self.graph@.dom().contains((#[trigger] s[j]).0)
                    ==> kept@.dom().contains(s[j].0)),
            decreases n - i,
        {
            let e = self.positions.entry_at(i);
            proof {
                self.positions.lemma_entry_view(i as int);
            }
            if self.graph.contains_element(e.0) {
                kept.insert(e.0, e.1);
            }
            i = i + 1;
        }
        proof {
            assert forall|k: ID|
                self.positions@.dom().contains(k) && self.graph@.dom().contains(k) implies
                kept@.dom().contains(k) by {
                let j = choose|j: int| 0 <= j < s.len() && #[trigger] s[j].0 == k;
                assert(kept@.dom().contains(s[j].0));
            }
        }
        self.positions = kept;
    }

    /// Move an element to a new coordinate and propagate derived
    /// midpoints outward from it. Moving an absent identity changes
    /// nothing.
    pub fn move_node(&mut self, id: ID, new_pos: Coord)
        requires
            old(self).wf(),
        ensures
            final(self).wf(),
            final(self).graph == old(self).graph,
            final(self).camera == old(self).camera,
            old(self).graph@.dom().contains(id) ==> final(self).positions_map() == spec_propagate(
                old(self).graph,
                old(self).positions_map().insert(id, new_pos),
                seq![id],
                Set::empty(),
            ),
            !old(self).graph@.dom().contains(id) ==> *final(self) == *old(self),
    {
        if self.graph.contains_element(id) {
            self.positions.insert(id, new_pos);
            self.update_positions_recursive(id);
        }
    }

    /// Re-derive the midpoint coordinates of every edge reachable from
    /// `start_id` through edge incidence, in breadth-first order with a
    /// visited guard; see `spec_propagate` for the exact meaning and for
    /// the known staleness window on nested edge chains.
    pub fn update_positions_recursive(&mut self, start_id: ID)
        requires
            old(self).wf(),
        ensures
            final(self).wf(),
            final(self).graph == old(self).graph,
            final(self).camera == old(self).camera,
            final(self).positions_map() == spec_propagate(
                old(self).graph,
                old(self).positions_map(),
                seq![start_id],
                Set::empty(),
            ),
    {
        let ghost g = self.graph;
        let ghost target = spec_propagate(g, self.positions@, seq![start_id], Set::empty());
        let mut queue: Vec<ID> = Vec::new();
        queue.push(start_id);
        let mut head: usize = 0;
        let mut visited: Vec<ID> = Vec::new();
        proof {
            assert(queue@.subrange(0, 1) =~= seq![start_id]);
            assert(visited@.to_set() =~= Set::<ID>::empty());
        }
        while head < queue.len()
            invariant
                self.wf(),
                self.graph == g,
                self.camera == old(self).camera,
                g == old(self).graph,
                0 <= head <= queue@.len(),
                spec_propagate(
                    g,
                    self.positions@,
                    queue@.subrange(head as int, queue@.len() as int),
                    visited@.to_set(),
                ) == target,
            decreases prop_measure(
                g,
                queue@.subrange(head as int, queue@.len() as int),
                visited@.to_set(),
            ), queue@.len() - head,
        {
            let ghost suffix = queue@.subrange(head as int, queue@.len() as int);
            let ghost vset = visited@.to_set();
            let cur = queue[head];
            head = head + 1;
            proof {
                assert(suffix[0] == cur);
                assert(suffix.drop_first() =~= queue@.subrange(head as int, queue@.len() as int));
            }
            if id_vec_contains(&visited, cur) {
                proof {
                    assert(vset.contains(cur));
                    lemma_prop_measure_skip(g, suffix, vset);
                }
                continue ;
            }
            proof {
                assert(!vset.contains(cur));
            }
            let ghost vb = visited@;
            visited.push(cur);
            proof {
                assert(visited@.to_set() =~= vset.insert(cur)) by {
                    assert forall|x: ID| visited@.to_set().contains(x) implies vset.insert(
                        cur,
                    ).contains(x) by {
                        let j = choose|j: int| 0 <= j < visited@.len() && visited@[j] == x;
                        if j < visited@.len() - 1 {
                            assert(vb[j] == x);
                            assert(vb.to_set().contains(x));
                        }
                    }
                    assert forall|x: ID| vset.insert(cur).contains(x) implies
                        visited@.to_set().contains(x) by {
                        if x == cur {
                            assert(visited@[visited@.len() - 1] == x);
                        } else {
                            let j = choose|j: int| 0 <= j < vb.len() && vb[j] == x;
                            assert(visited@[j] == x);
                        }
                    }
                }
            }
            match self.graph.get_edge(cur) {
                Some(e) => {
                    let ps = self.positions.get(e.source);
                    let pt = self.positions.get(e.target);
                    match (ps, pt) {
                        (Some(a), Some(b)) => {
                            let m = mid_coord(a, b);
                            self.positions.insert(cur, m);
                        },
                        _ => {},
                    }
                },
                None => {},
            }
            let mut outs = self.graph.get_outgoing_edges(cur);
            let mut ins = self.graph.get_incoming_edges(cur);
            queue.append(&mut outs);
            queue.append(&mut ins);
            proof {
                assert(queue@.subrange(head as int, queue@.len() as int) =~= suffix.drop_first()
                    + neighbors_seq(g, cur));
                lemma_prop_measure_step(g, suffix, vset);
            }
        }
        proof {
            assert(queue@.subrange(head as int, queue@.len() as int) =~= Seq::<ID>::empty());
        }
    }

    /// The first overlay entry lying within `hit_radius` of `position`,
    /// in overlay order; `None` exactly when no entry is that close.
    pub fn find_element_at(&self, position: Coord, hit_radius: u64) -> (r: Option<ID>)
        requires
            self.wf(),
        ensures
            r matches Some(id) ==> self.positions_map().dom().contains(id) && within_radius(
                self.positions_map()[id],
                position,
                hit_radius,
            ) && (exists|j: int|
                0 <= j < self.positions_seq().len() && (#[trigger] self.positions_seq()[j]).0 == id
                    && within_radius(self.positions_seq()[j].1, position, hit_radius) && (forall|
                    k: int,
                |
                    0 <= k < j ==> !within_radius(
                        (#[trigger] self.positions_seq()[k]).1,
                        position,
                        hit_radius,
                    ))),
            r == None::<ID> ==> forall|id: ID| #[trigger] self.positions_map().dom().contains(id)
                ==> !within_radius(self.positions_map()[id], position, hit_radius),
    {
        let ghost s = self.positions.entries_seq();
        proof {
            self.positions.lemma_view_dom();
        }
        let n = self.positions.len();
        let mut i: usize = 0;
        while i < n
            invariant
                0 <= i <= n,
                n == s.len(),
                self.positions.entries_seq() == s,
                forall|j: int| 0 <= j < i ==> !within_radius(
                    (#[trigger] s[j]).1,
                    position,
                    hit_radius,
                ),
            decreases n - i,
        {
            let e = self.positions.entry_at(i);
            if within_radius_exec(e.1, position, hit_radius) {
                proof {
                    self.positions.lemma_entry_view(i as int);
                    assert(self.positions_seq()[i as int].0 == e.0);
                }
                return Some(e.0);
            }
            i = i + 1;
        }
        proof {
            assert forall|id: ID| #[trigger] self.positions_map().dom().contains(id) implies
                !within_radius(self.positions_map()[id], position, hit_radius) by {
                let j = choose|j: int| 0 <= j < s.len() && #[trigger] s[j].0 == id;
                self.positions.lemma_entry_view(j);
            }
        }
        None
    }
}

/// Two sessions with identical stored parts denote identical models;
/// together with the codec's round trip this says a decoded snapshot
/// means the same graph and overlay as the one encoded, identities
/// included.
pub proof fn lemma_same_parts_same_model(a: GraphState, b: GraphState)
    requires
        a.graph.elems_seq() == b.graph.elems_seq(),
        a.positions_seq() == b.positions_seq(),
    ensures
        a.graph@ == b.graph@,
        a.positions_map() == b.positions_map(),
{
    crate::graph::lemma_same_elems_same_view(a.graph, b.graph);
    crate::table::lemma_same_entries_same_view(a.positions, b.positions);
}

impl Default for GraphState {
    fn default() -> (s: GraphState)
        ensures
            s.wf(),
            s.graph@ == Map::<ID, Kind>::empty(),
            s.graph.id_bound() == 1,
            s.positions_map() == Map::<ID, Coord>::empty(),
            s.camera == Camera::home(),
    {
        GraphState::new()
    }
}

} // verus!
