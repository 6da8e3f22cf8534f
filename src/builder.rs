//! Building the pair-node graph: allocating node pairs and objects, and
//! splitting edges to attach objects at exact offsets.
use vstd::prelude::*;
use crate::cursor::{advance, Cursor};
use crate::infra::{
    Node,
    edge_length, lemma_link_edge_len, mate, same_node, Edges, NodeId, ObjectId, StaticInfrastructure,
    StaticObject,
};

verus! {

/// The stretch `[start, end)` of track `track_idx` that an edge covers.
#[derive(Clone, Copy, Debug, PartialEq, Eq, Structural)]
pub struct Interval {
    pub track_idx: usize,
    pub start: u64,
    pub end: u64,
}

pub struct DGraphBuilder {
    pub dgraph: StaticInfrastructure,
    /// For each node, the stretch of track covered by its plain link, if any.
    pub edge_tracks: Vec<Option<Interval>>,
}

impl DGraphBuilder {
    /// There is one slot per node, and a node with an interval has a plain
    /// link whose length is the interval's extent.
    pub open spec fn intervals_ok(&self) -> bool {
        &&& self.edge_tracks@.len() == self.dgraph.nodes@.len()
        &&& forall|n: int|
            0 <= n < self.edge_tracks@.len() ==> (#[trigger] self.edge_tracks@[n] matches Some(iv) ==> {
                &&& iv.start <= iv.end
                &&& self.dgraph.nodes@[n].edges matches Edges::Single(_, d) && d == iv.end - iv.start
            })
    }

    pub open spec fn wf(&self) -> bool {
        self.dgraph.wf() && self.intervals_ok()
    }

    pub fn new() -> (r: DGraphBuilder)
        ensures
            r.wf(),
            r.dgraph.nodes@.len() == 0,
            r.dgraph.objects@.len() == 0,
            r.edge_tracks@.len() == 0,
    {
        let model = StaticInfrastructure { nodes: Vec::new(), objects: Vec::new() };
        DGraphBuilder { dgraph: model, edge_tracks: Vec::new() }
    }

    /// Adds an object to the table and returns its id.
    pub fn new_object(&mut self, obj: StaticObject) -> (r: ObjectId)
        requires
            old(self).dgraph.objects@.len() < usize::MAX,
        ensures
            old(self).wf() ==> final(self).wf(),
            r == old(self).dgraph.objects@.len(),
            final(self).dgraph.objects@ == old(self).dgraph.objects@.push(obj),
            final(self).dgraph.nodes@ == old(self).dgraph.nodes@,
            final(self).edge_tracks@ == old(self).edge_tracks@,
    {
        let id = self.dgraph.objects.len();
        self.dgraph.objects.push(obj);
        proof {
            if old(self).wf() {
                lemma_push_object_keeps_links(&old(self).dgraph, &self.dgraph);
            }
        }
        id
    }

    /// Adds an object to the table and attaches it to `node`.
    pub fn new_object_at(&mut self, obj: StaticObject, node: NodeId) -> (r: ObjectId)
        requires
            old(self).wf(),
            old(self).dgraph.objects@.len() < usize::MAX,
            node < old(self).dgraph.len(),
        ensures
            final(self).wf(),
            r == old(self).dgraph.objects@.len(),
            final(self).dgraph.objects@ == old(self).dgraph.objects@.push(obj),
            final(self).dgraph.nodes@.len() == old(self).dgraph.nodes@.len(),
            final(self).dgraph.nodes@[node as int].objects@ == old(
                self,
            ).dgraph.nodes@[node as int].objects@.push(r),
            final(self).dgraph.nodes@[node as int].edges == old(self).dgraph.nodes@[node as int].edges,
            final(self).dgraph.nodes@[node as int].other_node == old(self).dgraph.nodes@[node as int].other_node,
            forall|n: int|
                0 <= n < old(self).dgraph.len() && n != node ==> final(self).dgraph.nodes@[n] == old(
                    self,
                ).dgraph.nodes@[n],
            final(self).edge_tracks@ == old(self).edge_tracks@,
    {
        let obj_id = self.new_object(obj);
        let ghost mid = self.dgraph;
        self.dgraph.nodes[node].objects.push(obj_id);
        proof {
            lemma_same_edges_keeps_links(&mid, &self.dgraph);
            let g = &self.dgraph;
            assert forall|n: int| 0 <= n < g.len() implies #[trigger] g.node_ok(n) by {
                assert(mid.node_ok(n));
                if n == node {
                    assert forall|k: int| 0 <= k < g.nodes@[n].objects@.len() implies #[trigger] g.nodes@[n].objects@[k]
                        < g.objects@.len() by {
                        if k < mid.nodes@[n].objects@.len() {
                            assert(g.nodes@[n].objects@[k] == mid.nodes@[n].objects@[k]);
                        }
                    }
                }
            }
        }
        obj_id
    }

    /// Allocates two mirrored nodes with no links.
    pub fn new_node_pair(&mut self) -> (r: (NodeId, NodeId))
        requires
            old(self).wf(),
            old(self).dgraph.nodes@.len() + 2 <= usize::MAX,
        ensures
            final(self).wf(),
            r.0 == old(self).dgraph.nodes@.len(),
            r.1 == r.0 + 1,
            final(self).dgraph.nodes@.len() == old(self).dgraph.nodes@.len() + 2,
            forall|n: int|
                0 <= n < old(self).dgraph.len() ==> final(self).dgraph.nodes@[n] == old(
                    self,
                ).dgraph.nodes@[n],
            final(self).dgraph.nodes@[r.0 as int].edges == Edges::Nothing,
            final(self).dgraph.nodes@[r.1 as int].edges == Edges::Nothing,
            final(self).dgraph.nodes@[r.0 as int].objects@.len() == 0,
            final(self).dgraph.nodes@[r.1 as int].objects@.len() == 0,
            final(self).dgraph.nodes@[r.0 as int].other_node == r.1,
            final(self).dgraph.nodes@[r.1 as int].other_node == r.0,
            final(self).dgraph.objects@ == old(self).dgraph.objects@,
            final(self).edge_tracks@ == old(self).edge_tracks@.push(None).push(None),
    {
        let i1 = self.dgraph.nodes.len();
        let i2 = self.dgraph.nodes.len() + 1;
        self.dgraph.nodes.push(Node { other_node: i2, edges: Edges::Nothing, objects: Vec::new() });
        self.dgraph.nodes.push(Node { other_node: i1, edges: Edges::Nothing, objects: Vec::new() });
        self.edge_tracks.push(None);
        self.edge_tracks.push(None);
        proof {
            let g0 = &old(self).dgraph;
            let g = &self.dgraph;
            assert forall|a: int, b: int, d: int| g.link(a, b, d) <==> g0.link(a, b, d) by {
                if 0 <= a < g0.len() {
                    assert(g.nodes@[a] == g0.nodes@[a]);
                }
            }
            assert forall|n: int| 0 <= n < g.len() implies #[trigger] g.node_ok(n) by {
                if n < g0.len() {
                    assert(g0.node_ok(n));
                    assert(g.nodes@[n] == g0.nodes@[n]);
                }
            }
            assert forall|n: int| #![auto] g.positive_out(n) <== g0.positive_out(n) || n >= g0.len() by {}
            assert forall|n: int| 0 <= n < self.edge_tracks@.len() implies (#[trigger] self.edge_tracks@[n]
                matches Some(iv) ==> {
                &&& iv.start <= iv.end
                &&& self.dgraph.nodes@[n].edges matches Edges::Single(_, d) && d == iv.end - iv.start
            }) by {
                if n < g0.len() {
                    assert(self.edge_tracks@[n] == old(self).edge_tracks@[n]);
                }
            }
        }
        (i1, i2)
    }

    /// Sets where node `n` leads.
    pub(crate) fn set_edges(&mut self, n: NodeId, e: Edges)
        requires
            n < old(self).dgraph.len(),
        ensures
            final(self).dgraph.nodes@.len() == old(self).dgraph.nodes@.len(),
            final(self).dgraph.objects@ == old(self).dgraph.objects@,
            final(self).edge_tracks@ == old(self).edge_tracks@,
            final(self).dgraph.nodes@[n as int].edges == e,
            final(self).dgraph.nodes@[n as int].other_node == old(self).dgraph.nodes@[n as int].other_node,
            final(self).dgraph.nodes@[n as int].objects@ == old(self).dgraph.nodes@[n as int].objects@,
            forall|m: int| 0 <= m < old(self).dgraph.len() && m != n ==> same_node(final(self).dgraph.nodes@[m], old(self).dgraph.nodes@[m]),
    {
        self.dgraph.nodes[n].edges = e;
    }

    /// Joins `na` and `nb` with a plain edge of length `d` in both directions.
    pub(crate) fn connect_linear(&mut self, na: NodeId, nb: NodeId, d: u64)
        requires
            na < old(self).dgraph.len(),
            nb < old(self).dgraph.len(),
        ensures
            final(self).dgraph.nodes@.len() == old(self).dgraph.nodes@.len(),
            final(self).dgraph.objects@ == old(self).dgraph.objects@,
            final(self).edge_tracks@ == old(self).edge_tracks@,
            final(self).dgraph.nodes@[nb as int].edges == Edges::Single(na, d),
            na != nb ==> final(self).dgraph.nodes@[na as int].edges == Edges::Single(nb, d),
            forall|n: int|
                0 <= n < old(self).dgraph.len() ==> {
                    &&& final(self).dgraph.nodes@[n].other_node == old(self).dgraph.nodes@[n].other_node
                    &&& final(self).dgraph.nodes@[n].objects@ == old(self).dgraph.nodes@[n].objects@
                    &&& (n != na && n != nb ==> final(self).dgraph.nodes@[n].edges == old(
                        self,
                    ).dgraph.nodes@[n].edges)
                },
    {
        self.dgraph.nodes[na].edges = Edges::Single(nb, d);
        self.dgraph.nodes[nb].edges = Edges::Single(na, d);
    }

    /// Redirects the link from `a` to `b` so that it goes to `x` with length
    /// `d`, and gives `x` a plain link back to `a`.
    fn replace_conn(&mut self, a: NodeId, b: NodeId, x: NodeId, d: u64)
        requires
            a < old(self).dgraph.len(),
            old(self).dgraph.node_ok(a as int),
            x < old(self).dgraph.len(),
            a != x,
            old(self).dgraph.edge_len(a as int, b as int) is Some,
        ensures
            final(self).dgraph.nodes@.len() == old(self).dgraph.nodes@.len(),
            final(self).edge_tracks@ == old(self).edge_tracks@,
            final(self).dgraph.nodes@[x as int].edges == Edges::Single(a, d),
            old(self).dgraph.nodes@[a as int].edges is Single ==> {
                &&& final(self).dgraph.nodes@[a as int].edges == Edges::Single(x, d)
                &&& final(self).dgraph.objects@ == old(self).dgraph.objects@
            },
            old(self).dgraph.nodes@[a as int].edges is Switchable ==> {
                let o = old(self).dgraph.nodes@[a as int].edges->Switchable_0 as int;
                let sw = old(self).dgraph.objects@[o];
                &&& final(self).dgraph.nodes@[a as int].edges == old(self).dgraph.nodes@[a as int].edges
                &&& final(self).dgraph.objects@.len() == old(self).dgraph.objects@.len()
                &&& forall|k: int|
                    0 <= k < old(self).dgraph.objects@.len() && k != o ==> final(self).dgraph.objects@[k]
                        == old(self).dgraph.objects@[k]
                &&& final(self).dgraph.objects@[o] matches StaticObject::Switch {
                    left_link,
                    right_link,
                    branch_side,
                } && branch_side == sw->Switch_branch_side && if sw->Switch_left_link.0 == b {
                    left_link == (x, d) && right_link == sw->Switch_right_link
                } else {
                    left_link == sw->Switch_left_link && right_link == (x, d)
                }
            },
            forall|n: int|
                0 <= n < old(self).dgraph.len() ==> {
                    &&& final(self).dgraph.nodes@[n].other_node == old(self).dgraph.nodes@[n].other_node
                    &&& final(self).dgraph.nodes@[n].objects@ == old(self).dgraph.nodes@[n].objects@
                    &&& (n != a && n != x ==> final(self).dgraph.nodes@[n].edges == old(
                        self,
                    ).dgraph.nodes@[n].edges)
                },
    {
        proof {
            assert(self.dgraph.node_ok(a as int));
        }
        match self.dgraph.nodes[a].edges {
            Edges::Single(_bx, _dist) => {
                self.dgraph.nodes[a].edges = Edges::Single(x, d);
            },
            Edges::Switchable(objid) => {
                match self.dgraph.objects[objid] {
                    StaticObject::Switch { left_link, right_link, branch_side } => {
                        if left_link.0 == b {
                            self.dgraph.objects.set(
                                objid,
                                StaticObject::Switch { left_link: (x, d), right_link, branch_side },
                            );
                        } else {
                            self.dgraph.objects.set(
                                objid,
                                StaticObject::Switch { left_link, right_link: (x, d), branch_side },
                            );
                        }
                    },
                    _ => {},
                }
            },
            _ => {},
        }
        self.dgraph.nodes[x].edges = Edges::Single(a, d);
    }

    /// Splits the edge between `a` and `b` with a fresh node pair placed
    /// `second_dist` before `b`; returns the new pair.
    fn split_edge(&mut self, a: NodeId, b: NodeId, second_dist: u64) -> (r: (NodeId, NodeId))
        requires
            old(self).wf(),
            old(self).dgraph.nodes@.len() + 2 <= usize::MAX,
            old(self).dgraph.edge_len(a as int, b as int) matches Some(len) && 0 < second_dist < len,
        ensures
            final(self).wf(),
            r == (old(self).dgraph.len() as usize, (old(self).dgraph.len() + 1) as usize),
            split_done(&old(self).dgraph, &final(self).dgraph, a as int, b as int, second_dist as int),
            intervals_split(old(self), final(self), a as int, b as int, second_dist as int),
    {
        let ghost g0 = self.dgraph;
        let ghost len = g0.edge_len(a as int, b as int)->Some_0;
        proof {
            lemma_link_edge_len(&g0, a as int, b as int, len as int);
            assert(g0.node_ok(a as int));
            assert(g0.link(b as int, a as int, len as int));
            lemma_link_edge_len(&g0, b as int, a as int, len as int);
            assert(g0.node_ok(b as int));
        }
        let (na, nb) = self.new_node_pair();
        proof {
            assert(self.dgraph.nodes@[a as int] == g0.nodes@[a as int]);
            assert(self.dgraph.nodes@[b as int] == g0.nodes@[b as int]);
            assert(self.dgraph.node_ok(a as int));
        }
        let reverse_dist = edge_length(&self.dgraph, b, a).unwrap();
        let first_dist = reverse_dist - second_dist;
        self.replace_conn(a, b, na, first_dist);
        proof {
            assert(same_node(self.dgraph.nodes@[b as int], g0.nodes@[b as int]));
            assert(self.dgraph.node_ok(b as int));
        }
        self.replace_conn(b, a, nb, second_dist);
        proof {
            lemma_split_wf(&g0, &self.dgraph, a as int, b as int, second_dist as int);
        }
        // Each side's interval is cut where the new pair stands.
        let ta = self.edge_tracks[a];
        let tb = self.edge_tracks[b];
        match ta {
            Some(Interval { track_idx, start, end }) => {
                self.edge_tracks.set(a, Some(Interval { track_idx, start, end: start + first_dist }));
                self.edge_tracks.set(nb, Some(Interval { track_idx, start: start + first_dist, end }));
            },
            None => {},
        }
        match tb {
            Some(Interval { track_idx, start, end }) => {
                self.edge_tracks.set(b, Some(Interval { track_idx, start, end: start + second_dist }));
                self.edge_tracks.set(na, Some(Interval { track_idx, start: start + second_dist, end }));
            },
            None => {},
        }
        proof {
            let t = self.edge_tracks@;
            let g = self.dgraph;
            assert forall|n: int| 0 <= n < t.len() implies (#[trigger] t[n] matches Some(iv) ==> {
                &&& iv.start <= iv.end
                &&& g.nodes@[n].edges matches Edges::Single(_, d) && d == iv.end - iv.start
            }) by {
                if n < g0.len() && n != a && n != b {
                    assert(t[n] == old(self).edge_tracks@[n]);
                    assert(same_node(g.nodes@[n], g0.nodes@[n]));
                }
            }
        }
        (na, nb)
    }

    /// Forces the cursor onto a node: a node stays as it is, a place at
    /// either end of an edge becomes the node there facing the same way, and
    /// a place inside an edge gets a fresh node pair, facing on.
    pub fn insert_node_pair(&mut self, at: Cursor) -> (r: Cursor)
        requires
            old(self).wf(),
            at.valid(&old(self).dgraph),
            old(self).dgraph.nodes@.len() + 2 <= usize::MAX,
        ensures
            final(self).wf(),
            r == placed(&old(self).dgraph, at),
            r.valid(&final(self).dgraph),
            splits(&old(self).dgraph, at) ==> {
                &&& split_done(&old(self).dgraph, &final(self).dgraph, at->Edge_0.0 as int, at->Edge_0.1 as int, at->Edge_1 as int)
                &&& intervals_split(old(self), final(self), at->Edge_0.0 as int, at->Edge_0.1 as int, at->Edge_1 as int)
            },
            !splits(&old(self).dgraph, at) ==> *final(self) == *old(self),
            forall|t: int, len: int| #[trigger] partitions(old(self).edge_tracks@, t, len) ==> partitions(final(self).edge_tracks@, t, len),
            forall|k: int| #[trigger] idx_below(old(self).edge_tracks@, k) ==> idx_below(final(self).edge_tracks@, k),
            forall|n: int, t: int, x: int| #[trigger] starts_at(old(self).edge_tracks@, n, t, x) ==> starts_at(final(self).edge_tracks@, n, t, x),
    {
        match at {
            Cursor::Node(x) => Cursor::Node(x),
            Cursor::Edge((a, b), d) => {
                proof {
                    let len = self.dgraph.edge_len(a as int, b as int)->Some_0;
                    lemma_link_edge_len(&self.dgraph, a as int, b as int, len as int);
                    assert(self.dgraph.node_ok(a as int));
                    assert(self.dgraph.link(b as int, a as int, len as int));
                    assert(self.dgraph.node_ok(b as int));
                }
                if d == 0 {
                    Cursor::Node(self.dgraph.nodes[b].other_node)
                } else if d == edge_length(&self.dgraph, a, b).unwrap() {
                    Cursor::Node(a)
                } else {
                    let ghost b0 = *self;
                    let (_na, nb) = self.split_edge(a, b, d);
                    proof {
                        assert(b0.dgraph.node_ok(a as int));
                        assert forall|t: int, len: int| #[trigger] partitions(b0.edge_tracks@, t, len) implies partitions(self.edge_tracks@, t, len) by {
                            lemma_split_partitions(&b0, self, a as int, b as int, d as int, t, len);
                        }
                        let t0 = b0.edge_tracks@;
                        let t1 = self.edge_tracks@;
                        let na = b0.dgraph.len();
                        assert forall|k: int| #[trigger] idx_below(t0, k) implies idx_below(t1, k) by {
                            assert forall|n: int| 0 <= n < t1.len() && (#[trigger] t1[n]) is Some implies t1[n]->Some_0.track_idx < k by {
                                let o = if n == na + 1 { a as int } else if n == na { b as int } else { n };
                                assert(t0[o] is Some);
                            }
                        }
                    }
                    Cursor::Node(nb)
                }
            },
        }
    }

    /// Attaches a new object at the cursor, first forcing the cursor onto a
    /// node; returns that node's cursor and the object's id.
    pub fn insert_object(&mut self, at: Cursor, obj: StaticObject) -> (r: (Cursor, ObjectId))
        requires
            old(self).wf(),
            at.valid(&old(self).dgraph),
            old(self).dgraph.nodes@.len() + 2 <= usize::MAX,
            old(self).dgraph.objects@.len() < usize::MAX,
        ensures
            final(self).wf(),
            r.0 == placed(&old(self).dgraph, at),
            r.1 == old(self).dgraph.objects@.len(),
            final(self).dgraph.objects@ == old(self).dgraph.objects@.push(obj),
            placed_links(&old(self).dgraph, &final(self).dgraph, at),
            final(self).dgraph.nodes@[r.0->Node_0 as int].objects@ == prior_objects(&old(self).dgraph, r.0->Node_0 as int).push(r.1),
            forall|m: int|
                0 <= m < final(self).dgraph.len() && m != r.0->Node_0 ==> final(self).dgraph.nodes@[m].objects@
                    == prior_objects(&old(self).dgraph, m),
            final(self).edge_tracks@.len() == final(self).dgraph.nodes@.len(),
            forall|t: int, len: int| #[trigger] partitions(old(self).edge_tracks@, t, len) ==> partitions(final(self).edge_tracks@, t, len),
            forall|k: int| #[trigger] idx_below(old(self).edge_tracks@, k) ==> idx_below(final(self).edge_tracks@, k),
            forall|n: int, t: int, x: int| #[trigger] starts_at(old(self).edge_tracks@, n, t, x) ==> starts_at(final(self).edge_tracks@, n, t, x),
            splits(&old(self).dgraph, at) ==> intervals_split(old(self), final(self), at->Edge_0.0 as int, at->Edge_0.1 as int, at->Edge_1 as int),
            !splits(&old(self).dgraph, at) ==> final(self).edge_tracks@ == old(self).edge_tracks@,
    {
        let ghost g0 = self.dgraph;
        let ghost at0 = at;
        let at = self.insert_node_pair(at);
        let ghost g1 = self.dgraph;
        match at {
            Cursor::Node(a) => {
                let objid = self.new_object_at(obj, a);
                proof {
                    let g = self.dgraph;
                    assert forall|m: int| 0 <= m < g.len() && m != a implies g.nodes@[m].objects@
                        == prior_objects(&g0, m) by {
                        assert(g.nodes@[m] == g1.nodes@[m]);
                    }
                    assert(g.nodes@[a as int].objects@ == prior_objects(&g0, a as int).push(objid));
                    assert forall|m: int| 0 <= m < g.len() implies g.nodes@[m].edges == g1.nodes@[m].edges
                        && g.nodes@[m].other_node == g1.nodes@[m].other_node by {
                        if m != a {
                            assert(g.nodes@[m] == g1.nodes@[m]);
                        }
                    }
                    assert forall|n: int| 0 <= n < g.len() implies g.nodes@[n].other_node == mate(n) by {
                        assert(g.node_ok(n));
                    }
                    if !splits(&g0, at0) {
                        assert forall|n: int| 0 <= n < g0.len() implies g.nodes@[n].edges == g0.nodes@[n].edges by {
                            assert(g.nodes@[n].edges == g1.nodes@[n].edges);
                        }
                    } else {
                        let a0 = at0->Edge_0.0 as int;
                        let b0 = at0->Edge_0.1 as int;
                        assert forall|n: int| 0 <= n < g0.len() && n != a0 && n != b0 implies g.nodes@[n].edges
                            == g0.nodes@[n].edges by {
                            assert(g.nodes@[n].edges == g1.nodes@[n].edges);
                            assert(same_node(g1.nodes@[n], g0.nodes@[n]));
                        }
                        let na = g0.len();
                        let len = g0.edge_len(a0, b0)->Some_0;
                        lemma_link_edge_len(&g0, a0, b0, len as int);
                        assert(g0.node_ok(a0));
                        assert(g.nodes@[a0].edges == g1.nodes@[a0].edges);
                        assert(g.nodes@[b0].edges == g1.nodes@[b0].edges);
                        assert(g.nodes@[na].edges == g1.nodes@[na].edges);
                        assert(g.nodes@[na + 1].edges == g1.nodes@[na + 1].edges);
                    }
                    assert(placed_links(&g0, &g, at0));
                }
                (at, objid)
            },
            Cursor::Edge(_, _) => {
                // insert_node_pair always yields a node
                (at, 0)
            },
        }
    }
}

/// Pushing an object leaves every link as it was.
proof fn lemma_push_object_keeps_links(g0: &StaticInfrastructure, g: &StaticInfrastructure)
    requires
        g0.wf(),
        g.nodes@ == g0.nodes@,
        g.objects@.len() == g0.objects@.len() + 1,
        forall|o: int| 0 <= o < g0.objects@.len() ==> g.objects@[o] == g0.objects@[o],
    ensures
        g.wf(),
        forall|a: int, b: int, d: int| g.link(a, b, d) == g0.link(a, b, d),
{
    assert forall|a: int, b: int, d: int| g.link(a, b, d) == g0.link(a, b, d) by {
        if 0 <= a < g0.len() {
            assert(g0.node_ok(a));
        }
    }
    assert forall|n: int| 0 <= n < g.len() implies #[trigger] g.node_ok(n) by {
        assert(g0.node_ok(n));
    }
    assert forall|n: int| #![auto] g.positive_out(n) == g0.positive_out(n) by {}
}

/// Changing nodes without touching their links leaves every link as it was.
proof fn lemma_same_edges_keeps_links(g0: &StaticInfrastructure, g: &StaticInfrastructure)
    requires
        g0.wf(),
        g.objects@ == g0.objects@,
        g.nodes@.len() == g0.nodes@.len(),
        forall|n: int| 0 <= n < g0.len() ==> g.nodes@[n].edges == g0.nodes@[n].edges
            && g.nodes@[n].other_node == g0.nodes@[n].other_node,
    ensures
        g.symmetric(),
        g.layered(),
        g.len() % 2 == 0,
        forall|a: int, b: int, d: int| g.link(a, b, d) == g0.link(a, b, d),
{
    assert forall|a: int, b: int, d: int| g.link(a, b, d) == g0.link(a, b, d) by {}
    assert forall|n: int| #![auto] g.positive_out(n) == g0.positive_out(n) by {}
}

/// The graph after the edge between `a` and `b` was split with a fresh pair
/// `second` before `b`: `a` and the first new node are joined by the first
/// piece, the second new node and `b` by the second, and nothing else moved.
pub open spec fn split_done(g0: &StaticInfrastructure, g: &StaticInfrastructure, a: int, b: int, second: int) -> bool {
    let na = g0.len();
    let nb = na + 1;
    let first = g0.edge_len(a, b)->Some_0 - second;
    &&& g.nodes@.len() == g0.nodes@.len() + 2
    &&& g.objects@ == g0.objects@
    &&& forall|n: int| 0 <= n < g0.len() && n != a && n != b ==> same_node(g.nodes@[n], g0.nodes@[n])
    &&& g.nodes@[a].edges == Edges::Single(na as usize, first as u64)
    &&& g.nodes@[na].edges == Edges::Single(a as usize, first as u64)
    &&& g.nodes@[b].edges == Edges::Single(nb as usize, second as u64)
    &&& g.nodes@[nb].edges == Edges::Single(b as usize, second as u64)
    &&& forall|n: int| #![auto] n == a || n == b ==> g.nodes@[n].other_node == g0.nodes@[n].other_node
        && g.nodes@[n].objects@ == g0.nodes@[n].objects@
    &&& g.nodes@[na].objects@.len() == 0
    &&& g.nodes@[nb].objects@.len() == 0
    &&& g.nodes@[na].other_node == nb
    &&& g.nodes@[nb].other_node == na
}

/// Each side's interval is cut at the new pair: the two pieces of a side
/// cover exactly that side's interval, one after the other.
pub open spec fn intervals_split(b0: &DGraphBuilder, b1: &DGraphBuilder, a: int, b: int, second: int) -> bool {
    let na = b0.dgraph.len();
    let nb = na + 1;
    let first = b0.dgraph.edge_len(a, b)->Some_0 - second;
    &&& b1.edge_tracks@.len() == b0.edge_tracks@.len() + 2
    &&& forall|n: int| 0 <= n < b0.edge_tracks@.len() && n != a && n != b ==> b1.edge_tracks@[n] == b0.edge_tracks@[n]
    &&& match b0.edge_tracks@[a] {
        Some(iv) => b1.edge_tracks@[a] == Some(Interval { end: (iv.start + first) as u64, ..iv })
            && b1.edge_tracks@[nb] == Some(Interval { start: (iv.start + first) as u64, ..iv }),
        None => b1.edge_tracks@[a] is None && b1.edge_tracks@[nb] is None,
    }
    &&& match b0.edge_tracks@[b] {
        Some(iv) => b1.edge_tracks@[b] == Some(Interval { end: (iv.start + second) as u64, ..iv })
            && b1.edge_tracks@[na] == Some(Interval { start: (iv.start + second) as u64, ..iv }),
        None => b1.edge_tracks@[b] is None && b1.edge_tracks@[na] is None,
    }
}

/// A split with two positive pieces keeps the graph well-formed.
proof fn lemma_split_wf(g0: &StaticInfrastructure, g: &StaticInfrastructure, a: int, b: int, second: int)
    requires
        g0.wf(),
        g0.len() + 2 <= usize::MAX,
        g0.edge_len(a, b) matches Some(len) && 0 < second < len,
        split_done(g0, g, a, b, second),
    ensures
        g.wf(),
{
    let len = g0.edge_len(a, b)->Some_0 as int;
    let first = len - second;
    let na = g0.len();
    let nb = na + 1;
    lemma_link_edge_len(g0, a, b, len);
    assert(g0.node_ok(a));
    assert(g0.link(b, a, len));
    assert(g0.node_ok(b));
    assert(a != b);
    // Links of the new graph, in terms of the old one.
    assert forall|x: int, y: int, d: int| #[trigger] g.link(x, y, d) <==> {
        ||| (0 <= x < g0.len() && x != a && x != b && g0.link(x, y, d))
        ||| (x == a && y == na && d == first)
        ||| (x == na && y == a && d == first)
        ||| (x == b && y == nb && d == second)
        ||| (x == nb && y == b && d == second)
    } by {
        if 0 <= x < g0.len() && x != a && x != b {
            assert(same_node(g.nodes@[x], g0.nodes@[x]));
        }
    }
    // Old links that stay never touch the split edge's ends.
    assert forall|x: int, y: int, d: int|
        0 <= x < g0.len() && x != a && x != b && #[trigger] g0.link(x, y, d) implies y != a && y != b
        && 0 <= y < g0.len() && g0.link(y, x, d) by {
        assert(g0.link(y, x, d));
        assert(g0.node_ok(x));
    }
    assert forall|n: int| 0 <= n < g.len() implies #[trigger] g.node_ok(n) by {
        if n < g0.len() {
            assert(g0.node_ok(n));
            if n != a && n != b {
                assert(same_node(g.nodes@[n], g0.nodes@[n]));
            }
        }
    }
    assert forall|x: int, y: int, d: int| #[trigger] g.link(x, y, d) implies g.link(y, x, d) by {
        if 0 <= x < g0.len() && x != a && x != b && g0.link(x, y, d) {
            assert(g0.link(y, x, d));
        }
    }
    assert forall|x: int, y: int| #[trigger] g.link(x, y, 0) implies g.positive_out(mate(y)) by {
        assert(g0.link(x, y, 0));
        assert(g0.positive_out(mate(y)));
        assert forall|k: int, d: int| #[trigger] g.link(mate(y), k, d) implies d > 0 by {
            if mate(y) != a && mate(y) != b {
                assert(g0.link(mate(y), k, d));
            }
        }
    }
}

/// Whether forcing cursor `at` onto a node splits an edge.
pub open spec fn splits(g: &StaticInfrastructure, at: Cursor) -> bool {
    match at {
        Cursor::Node(_) => false,
        Cursor::Edge((a, b), d) => 0 < d && d != g.edge_len(a as int, b as int)->Some_0,
    }
}

/// The node that forcing cursor `at` onto a node yields.
pub open spec fn placed(g: &StaticInfrastructure, at: Cursor) -> Cursor {
    match at {
        Cursor::Node(x) => Cursor::Node(x),
        Cursor::Edge((a, b), d) => if d == 0 {
            Cursor::Node(mate(b as int) as usize)
        } else if d == g.edge_len(a as int, b as int)->Some_0 {
            Cursor::Node(a)
        } else {
            Cursor::Node((g.len() + 1) as usize)
        },
    }
}

/// The objects a node carried before, none for a node that is new.
pub open spec fn prior_objects(g: &StaticInfrastructure, n: int) -> Seq<ObjectId> {
    if 0 <= n < g.len() {
        g.nodes@[n].objects@
    } else {
        seq![]
    }
}

/// The links and pairs after forcing `at` onto a node: those of the split
/// where there is one, else those of before.
pub open spec fn placed_links(g0: &StaticInfrastructure, g: &StaticInfrastructure, at: Cursor) -> bool {
    if splits(g0, at) {
        let a = at->Edge_0.0 as int;
        let b = at->Edge_0.1 as int;
        let second = at->Edge_1 as int;
        let na = g0.len();
        let nb = na + 1;
        let first = g0.edge_len(a, b)->Some_0 - second;
        &&& g.nodes@.len() == g0.nodes@.len() + 2
        &&& forall|n: int| 0 <= n < g0.len() && n != a && n != b ==> g.nodes@[n].edges == g0.nodes@[n].edges
        &&& forall|n: int| 0 <= n < g.len() ==> g.nodes@[n].other_node == mate(n)
        &&& g.nodes@[a].edges == Edges::Single(na as usize, first as u64)
        &&& g.nodes@[na].edges == Edges::Single(a as usize, first as u64)
        &&& g.nodes@[b].edges == Edges::Single(nb as usize, second as u64)
        &&& g.nodes@[nb].edges == Edges::Single(b as usize, second as u64)
    } else {
        &&& g.nodes@.len() == g0.nodes@.len()
        &&& forall|n: int| 0 <= n < g0.len() ==> g.nodes@[n].edges == g0.nodes@[n].edges
    }
}

/// Splitting an edge of length `L` at a point inside it: the intervals of
/// the two pieces on each side add up to that side's interval, whose length
/// is `L`; and a forward walk of `L` from `a` ends where it ended before.
pub proof fn lemma_split_keeps_length_and_reach(b0: &DGraphBuilder, b1: &DGraphBuilder, a: int, b: int, second: int)
    requires
        b0.wf(),
        b1.wf(),
        b0.dgraph.len() + 2 <= usize::MAX,
        b0.dgraph.edge_len(a, b) matches Some(len) && 0 < second < len,
        split_done(&b0.dgraph, &b1.dgraph, a, b, second),
        intervals_split(b0, b1, a, b, second),
    ensures
        ({
            let len = b0.dgraph.edge_len(a, b)->Some_0 as int;
            let na = b0.dgraph.len();
            let nb = na + 1;
            &&& b0.edge_tracks@[a] matches Some(iv) ==> {
                let p = b1.edge_tracks@[a]->Some_0;
                let q = b1.edge_tracks@[nb]->Some_0;
                &&& iv.end - iv.start == len
                &&& p.start == iv.start && p.end == q.start && q.end == iv.end
                &&& (p.end - p.start) + (q.end - q.start) == len
            }
            &&& b0.edge_tracks@[b] matches Some(iv) ==> {
                let p = b1.edge_tracks@[b]->Some_0;
                let q = b1.edge_tracks@[na]->Some_0;
                &&& iv.end - iv.start == len
                &&& p.start == iv.start && p.end == q.start && q.end == iv.end
                &&& (p.end - p.start) + (q.end - q.start) == len
            }
            &&& advance(&b0.dgraph, Cursor::Node(a as usize), len) == Some(Cursor::Node(mate(b) as usize))
            &&& advance(&b1.dgraph, Cursor::Node(a as usize), len) == Some(Cursor::Node(mate(b) as usize))
        }),
{
    let g0 = b0.dgraph;
    let g1 = b1.dgraph;
    let len = g0.edge_len(a, b)->Some_0 as int;
    lemma_link_edge_len(&g0, a, b, len);
    assert(g0.node_ok(a));
    assert(g0.link(b, a, len));
    lemma_link_edge_len(&g0, b, a, len);
    assert(g0.node_ok(b));
    assert(b0.edge_tracks@[a] matches Some(iv) ==> iv.end - iv.start == len);
    assert(b0.edge_tracks@[b] matches Some(iv) ==> iv.end - iv.start == len);
    let na = g0.len();
    assert(g1.node_ok(na));
    assert(g1.node_ok(a));
    assert(g1.node_ok(na + 1));
    assert(crate::cursor::advance_node(&g1, mate(na), len - (len - second)) == Some(Cursor::Node(mate(b) as usize)));
}

/// The interval `iv` belongs to track `t` and holds offset `x`.
pub open spec fn covers(iv: Option<Interval>, t: int, x: int) -> bool {
    iv matches Some(v) && v.track_idx == t && v.start <= x < v.end
}

/// Every interval belongs to a track numbered below `k`.
pub open spec fn idx_below(tr: Seq<Option<Interval>>, k: int) -> bool {
    forall|n: int| 0 <= n < tr.len() && (#[trigger] tr[n]) is Some ==> tr[n]->Some_0.track_idx < k
}

/// Two more empty slots keep every track's partition.
pub proof fn lemma_push_none_partitions(tr: Seq<Option<Interval>>, t: int, len: int, k: int)
    ensures
        partitions(tr, t, len) ==> partitions(tr.push(None).push(None), t, len),
        idx_below(tr, k) ==> idx_below(tr.push(None).push(None), k),
{
    let tr2 = tr.push(None).push(None);
    if partitions(tr, t, len) {
        assert forall|x: int| 0 <= x < len implies #[trigger] covered(tr2, t, x) by {
            assert(covered(tr, t, x));
            let n = choose|n: int| 0 <= n < tr.len() && #[trigger] covers(tr[n], t, x);
            assert(tr2[n] == tr[n]);
        }
        assert forall|x: int, n1: int, n2: int|
            0 <= n1 < tr2.len() && 0 <= n2 < tr2.len() && #[trigger] covers(tr2[n1], t, x) && #[trigger] covers(tr2[n2], t, x)
                implies n1 == n2 by {
            assert(n1 < tr.len() && n2 < tr.len());
            assert(tr2[n1] == tr[n1] && tr2[n2] == tr[n2]);
        }
        assert forall|n: int| 0 <= n < tr2.len() && (#[trigger] tr2[n]) is Some && tr2[n]->Some_0.track_idx == t implies tr2[n]->Some_0.end <= len by {
            assert(tr2[n] == tr[n]);
        }
    }
    if idx_below(tr, k) {
        assert forall|n: int| 0 <= n < tr2.len() && (#[trigger] tr2[n]) is Some implies tr2[n]->Some_0.track_idx < k by {
            assert(tr2[n] == tr[n]);
        }
    }
}

/// Giving an empty slot the whole of a new track `k`: that track is
/// partitioned, and the others keep their partitions.
pub proof fn lemma_new_track_interval(tr: Seq<Option<Interval>>, n: int, iv: Interval, k: int)
    requires
        0 <= n < tr.len(),
        tr[n] is None,
        idx_below(tr, k),
        iv.track_idx == k,
        iv.start == 0,
    ensures
        partitions(tr.update(n, Some(iv)), k, iv.end as int),
        idx_below(tr.update(n, Some(iv)), k + 1),
        forall|t: int, len: int| t != k && #[trigger] partitions(tr, t, len) ==> partitions(tr.update(n, Some(iv)), t, len),
{
    let tr2 = tr.update(n, Some(iv));
    assert forall|x: int| 0 <= x < iv.end implies #[trigger] covered(tr2, k, x) by {
        assert(covers(tr2[n], k, x));
    }
    assert forall|x: int, n1: int, n2: int|
        0 <= n1 < tr2.len() && 0 <= n2 < tr2.len() && #[trigger] covers(tr2[n1], k, x) && #[trigger] covers(tr2[n2], k, x)
            implies n1 == n2 by {
        if n1 != n {
            assert(tr2[n1] == tr[n1]);
        }
        if n2 != n {
            assert(tr2[n2] == tr[n2]);
        }
    }
    assert forall|m: int| 0 <= m < tr2.len() && (#[trigger] tr2[m]) is Some && tr2[m]->Some_0.track_idx == k implies tr2[m]->Some_0.end <= iv.end by {
        if m != n {
            assert(tr2[m] == tr[m]);
        }
    }
    assert forall|m: int| 0 <= m < tr2.len() && (#[trigger] tr2[m]) is Some implies tr2[m]->Some_0.track_idx < k + 1 by {
        if m != n {
            assert(tr2[m] == tr[m]);
        }
    }
    assert forall|t: int, len: int| t != k && #[trigger] partitions(tr, t, len) implies partitions(tr2, t, len) by {
        assert forall|x: int| 0 <= x < len implies #[trigger] covered(tr2, t, x) by {
            assert(covered(tr, t, x));
            let m = choose|m: int| 0 <= m < tr.len() && #[trigger] covers(tr[m], t, x);
            assert(tr2[m] == tr[m]);
        }
        assert forall|x: int, n1: int, n2: int|
            0 <= n1 < tr2.len() && 0 <= n2 < tr2.len() && #[trigger] covers(tr2[n1], t, x) && #[trigger] covers(tr2[n2], t, x)
                implies n1 == n2 by {
            assert(tr2[n1] == tr[n1] && tr2[n2] == tr[n2]);
        }
        assert forall|m: int| 0 <= m < tr2.len() && (#[trigger] tr2[m]) is Some && tr2[m]->Some_0.track_idx == t implies tr2[m]->Some_0.end <= len by {
            assert(tr2[m] == tr[m]);
        }
    }
}

/// Node `n`'s interval belongs to track `t` and starts at offset `x`.
pub open spec fn starts_at(tr: Seq<Option<Interval>>, n: int, t: int, x: int) -> bool {
    0 <= n < tr.len() && tr[n] is Some && tr[n]->Some_0.track_idx == t && tr[n]->Some_0.start == x
}

/// Some interval of track `t` holds offset `x`.
pub open spec fn covered(tr: Seq<Option<Interval>>, t: int, x: int) -> bool {
    exists|n: int| 0 <= n < tr.len() && #[trigger] covers(tr[n], t, x)
}

/// The intervals of track `t` cover `[0, len)` without gaps or overlaps,
/// and none reaches beyond `len`.
pub open spec fn partitions(tr: Seq<Option<Interval>>, t: int, len: int) -> bool {
    &&& forall|x: int| 0 <= x < len ==> #[trigger] covered(tr, t, x)
    &&& forall|x: int, n1: int, n2: int|
        0 <= n1 < tr.len() && 0 <= n2 < tr.len() && #[trigger] covers(tr[n1], t, x) && #[trigger] covers(tr[n2], t, x)
            ==> n1 == n2
    &&& forall|n: int| 0 <= n < tr.len() && (#[trigger] tr[n]) is Some && tr[n]->Some_0.track_idx == t ==> tr[n]->Some_0.end <= len
}

/// A split keeps every track's intervals a partition of the track.
proof fn lemma_split_partitions(b0: &DGraphBuilder, b1: &DGraphBuilder, a: int, b: int, second: int, t: int, len: int)
    requires
        b0.wf(),
        b0.dgraph.edge_len(a, b) matches Some(l) && 0 < second < l,
        0 <= a < b0.dgraph.len(),
        0 <= b < b0.dgraph.len(),
        a != b,
        intervals_split(b0, b1, a, b, second),
        partitions(b0.edge_tracks@, t, len),
    ensures
        partitions(b1.edge_tracks@, t, len),
{
    let t0 = b0.edge_tracks@;
    let t1 = b1.edge_tracks@;
    let na = b0.dgraph.len();
    let nb = na + 1;
    let l = b0.dgraph.edge_len(a, b)->Some_0 as int;
    lemma_link_edge_len(&b0.dgraph, a, b, l);
    assert(b0.dgraph.node_ok(a));
    assert(b0.dgraph.link(b, a, l));
    assert(b0.dgraph.node_ok(b));
    assert(t0[a] matches Some(iv) ==> iv.end - iv.start == l);
    assert(t0[b] matches Some(iv) ==> iv.end - iv.start == l);
    assert(t1.len() == t0.len() + 2);
    // A new interval covers only what an old one did.
    assert forall|n: int, x: int| 0 <= n < t1.len() && #[trigger] covers(t1[n], t, x) implies {
        let o = if n == nb { a } else if n == na { b } else { n };
        &&& 0 <= o < t0.len()
        &&& covers(t0[o], t, x)
    } by {}
    assert forall|x: int| 0 <= x < len implies #[trigger] covered(t1, t, x) by {
        assert(covered(t0, t, x));
        let o = choose|o: int| 0 <= o < t0.len() && #[trigger] covers(t0[o], t, x);
        if o == a {
            if covers(t1[a], t, x) {
            } else {
                assert(covers(t1[nb], t, x));
            }
        } else if o == b {
            if covers(t1[b], t, x) {
            } else {
                assert(covers(t1[na], t, x));
            }
        } else {
            assert(covers(t1[o], t, x));
        }
    }
    assert forall|x: int, n1: int, n2: int|
        0 <= n1 < t1.len() && 0 <= n2 < t1.len() && #[trigger] covers(t1[n1], t, x) && #[trigger] covers(t1[n2], t, x)
            implies n1 == n2 by {
        let o1 = if n1 == nb { a } else if n1 == na { b } else { n1 };
        let o2 = if n2 == nb { a } else if n2 == na { b } else { n2 };
        assert(covers(t0[o1], t, x) && covers(t0[o2], t, x));
        assert(o1 == o2);
    }
    assert forall|n: int| 0 <= n < t1.len() && (#[trigger] t1[n]) is Some && t1[n]->Some_0.track_idx == t implies t1[n]->Some_0.end <= len by {
        let o = if n == nb { a } else if n == na { b } else { n };
        assert(t0[o] is Some && t0[o]->Some_0.track_idx == t);
    }
}

} // verus!
