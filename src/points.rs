//! Giving each schematic point its shape among the nodes of its ports.
use vstd::prelude::*;
use crate::builder::DGraphBuilder;
use crate::idmap::{id_map_insert, id_pairs, put, IdMap};
use crate::infra::{mate, same_node, Edges, NodeId, StaticInfrastructure, StaticObject, SwitchPosition};
use crate::model::{required_ports, CrossingType, NDType, Port, Pt, Side, AB};
use crate::ports::{
    has_port, lemma_port_node, lemma_ports_distinct, lemma_has_port_node, port, port_node, port_of, ports_free,
    ports_ok, PortMap,
};

verus! {

/// Filling nodes `s`, which had no links, with links that stay inside `s`
/// and come in both directions keeps the graph well-formed, provided the
/// mates of `s` lie outside it and have only positive links.
pub(crate) proof fn lemma_fill_nodes(g0: &StaticInfrastructure, g: &StaticInfrastructure, s: Set<int>)
    requires
        g0.wf(),
        g.nodes@.len() == g0.nodes@.len(),
        g0.objects@.len() <= g.objects@.len(),
        forall|o: int| 0 <= o < g0.objects@.len() ==> #[trigger] g.objects@[o] == g0.objects@[o],
        forall|n: int| 0 <= n < g0.len() && !s.contains(n) ==> same_node(#[trigger] g.nodes@[n], g0.nodes@[n]),
        forall|n: int|
            #[trigger] s.contains(n) ==> {
                &&& 0 <= n < g0.len()
                &&& g0.nodes@[n].edges is Nothing
                &&& !s.contains(mate(n))
                &&& g0.positive_out(mate(n))
                &&& g.node_ok(n)
            },
        forall|a: int, b: int, d: int| s.contains(a) && #[trigger] g.link(a, b, d) ==> s.contains(b) && g.link(b, a, d),
    ensures
        g.wf(),
        forall|n: int| 0 <= n < g0.len() && !s.contains(n) ==> (#[trigger] g.positive_out(n) <==> g0.positive_out(n)),
{
    assert forall|a: int, b: int, d: int| !s.contains(a) implies (#[trigger] g.link(a, b, d) <==> g0.link(a, b, d)) by {
        if 0 <= a < g0.len() {
            assert(same_node(g.nodes@[a], g0.nodes@[a]));
            assert(g0.node_ok(a));
        }
    }
    assert forall|a: int, b: int, d: int| s.contains(b) implies !g0.link(a, b, d) by {
        if g0.link(a, b, d) {
            assert(g0.link(b, a, d));
        }
    }
    assert forall|n: int| 0 <= n < g.len() implies #[trigger] g.node_ok(n) by {
        if !s.contains(n) {
            assert(same_node(g.nodes@[n], g0.nodes@[n]));
            assert(g0.node_ok(n));
        }
    }
    assert forall|a: int, b: int, d: int| #[trigger] g.link(a, b, d) implies g.link(b, a, d) by {
        if !s.contains(a) {
            assert(g0.link(a, b, d));
            assert(g0.link(b, a, d));
        }
    }
    assert forall|n: int| 0 <= n < g0.len() && !s.contains(n) implies (#[trigger] g.positive_out(n) <==> g0.positive_out(n)) by {
        assert forall|k: int, d: int| g.link(n, k, d) <==> g0.link(n, k, d) by {}
    }
    assert forall|a: int, b: int| #[trigger] g.link(a, b, 0) implies g.positive_out(mate(b)) by {
        if s.contains(a) {
            assert(s.contains(b));
            assert(g0.positive_out(mate(b)));
            assert forall|k: int, d: int| #[trigger] g.link(mate(b), k, d) implies d > 0 by {
                assert(g0.link(mate(b), k, d));
            }
        } else {
            assert(g0.link(a, b, 0));
            assert(g0.positive_out(mate(b)));
            assert(g0.link(b, a, 0));
            assert(g0.node_ok(a));
            if s.contains(mate(b)) {
                assert(g0.positive_out(mate(mate(b))));
                assert(mate(mate(b)) == b);
            }
            assert forall|k: int, d: int| #[trigger] g.link(mate(b), k, d) implies d > 0 by {
                assert(g0.link(mate(b), k, d));
            }
        }
    }
}

/// Whether the diagonal of a crossing on the given line can be driven.
pub open spec fn diagonal_drivable(ct: CrossingType, dir: AB) -> bool {
    match dir {
        AB::A => ct == CrossingType::DoubleSlip || ct == CrossingType::SingleSlip(Side::Left),
        AB::B => ct == CrossingType::DoubleSlip || ct == CrossingType::SingleSlip(Side::Right),
    }
}

/// One line of a crossing, ends `d0` and `d1`, against the other line, ends
/// `o0` and `o1`: with a drivable diagonal `d0` and `o1` lead into
/// switches, else they lead straight across.
pub open spec fn diagonal_done(g: &StaticInfrastructure, d0: int, d1: int, o0: int, o1: int, drivable: bool) -> bool {
    if drivable {
        &&& g.nodes@[d0].edges matches Edges::Switchable(sa) && g.objects@[sa as int] matches StaticObject::Switch {
            left_link,
            right_link,
            branch_side,
        } && left_link == (o1 as usize, 0u64) && right_link == (o0 as usize, 0u64) && branch_side == SwitchPosition::Left
        &&& g.nodes@[o1].edges matches Edges::Switchable(sb) && g.objects@[sb as int] matches StaticObject::Switch {
            left_link,
            right_link,
            branch_side,
        } && left_link == (d1 as usize, 0u64) && right_link == (d0 as usize, 0u64) && branch_side == SwitchPosition::Right
    } else {
        &&& g.nodes@[d0].edges == Edges::Single(o0 as usize, 0)
        &&& g.nodes@[o1].edges == Edges::Single(d1 as usize, 0)
    }
}

impl DGraphBuilder {
    pub(crate) fn cross_diagonal(&mut self, d0: NodeId, d1: NodeId, o0: NodeId, o1: NodeId, drivable: bool)
        requires
            d0 < old(self).dgraph.len(),
            o1 < old(self).dgraph.len(),
            d0 != o1,
            old(self).dgraph.objects@.len() + 2 <= usize::MAX,
        ensures
            final(self).dgraph.nodes@.len() == old(self).dgraph.nodes@.len(),
            final(self).edge_tracks@ == old(self).edge_tracks@,
            old(self).dgraph.objects@.len() <= final(self).dgraph.objects@.len() <= old(self).dgraph.objects@.len() + 2,
            forall|o: int| 0 <= o < old(self).dgraph.objects@.len() ==> #[trigger] final(self).dgraph.objects@[o] == old(self).dgraph.objects@[o],
            forall|o: int| old(self).dgraph.objects@.len() <= o < final(self).dgraph.objects@.len() ==> #[trigger] final(self).dgraph.objects@[o] is Switch,
            forall|m: int| 0 <= m < old(self).dgraph.len() && m != d0 && m != o1 ==> same_node(#[trigger] final(self).dgraph.nodes@[m], old(self).dgraph.nodes@[m]),
            forall|m: int| #![auto] m == d0 || m == o1 ==> final(self).dgraph.nodes@[m].other_node == old(self).dgraph.nodes@[m].other_node
                && final(self).dgraph.nodes@[m].objects@ == old(self).dgraph.nodes@[m].objects@,
            diagonal_done(&final(self).dgraph, d0 as int, d1 as int, o0 as int, o1 as int, drivable),
            drivable ==> final(self).dgraph.nodes@[d0 as int].edges == Edges::Switchable(old(self).dgraph.objects@.len() as usize)
                && final(self).dgraph.nodes@[o1 as int].edges == Edges::Switchable((old(self).dgraph.objects@.len() + 1) as usize)
                && final(self).dgraph.objects@.len() == old(self).dgraph.objects@.len() + 2,
    {
        if drivable {
            let sw_a = self.new_object(StaticObject::Switch {
                left_link: (o1, 0),
                right_link: (o0, 0),
                branch_side: Side::Left.as_switch_position(),
            });
            let sw_b = self.new_object(StaticObject::Switch {
                left_link: (d1, 0),
                right_link: (d0, 0),
                branch_side: Side::Right.as_switch_position(),
            });
            self.set_edges(d0, Edges::Switchable(sw_a));
            self.set_edges(o1, Edges::Switchable(sw_b));
        } else {
            self.set_edges(d0, Edges::Single(o0, 0));
            self.set_edges(o1, Edges::Single(d1, 0));
        }
    }
}

/// After giving a point its shape: nodes of `s` that kept no links are
/// fine, and the node-level fields other than links are as before.
pub(crate) proof fn lemma_untouched_ports(g0: &StaticInfrastructure, g: &StaticInfrastructure, s: Set<int>)
    requires
        g0.wf(),
        g.nodes@.len() == g0.nodes@.len(),
        g0.objects@.len() <= g.objects@.len(),
        forall|n: int| 0 <= n < g0.len() ==> g.nodes@[n].other_node == g0.nodes@[n].other_node
            && g.nodes@[n].objects@ == g0.nodes@[n].objects@,
    ensures
        forall|n: int| 0 <= n < g.len() && g.nodes@[n].edges is Nothing ==> #[trigger] g.node_ok(n),
        forall|n: int| 0 <= n < g.len() ==> g.nodes@[n].other_node == mate(n),
        forall|n: int, k: int| 0 <= n < g.len() && 0 <= k < g.nodes@[n].objects@.len() ==> #[trigger] g.nodes@[n].objects@[k] < g.objects@.len(),
{
    assert forall|n: int| 0 <= n < g.len() implies g.nodes@[n].other_node == mate(n) by {
        assert(g0.node_ok(n));
    }
    assert forall|n: int, k: int| 0 <= n < g.len() && 0 <= k < g.nodes@[n].objects@.len() implies #[trigger] g.nodes@[n].objects@[k] < g.objects@.len() by {
        assert(g0.node_ok(n));
        assert(g.nodes@[n].objects@[k] == g0.nodes@[n].objects@[k]);
    }
    assert forall|n: int| 0 <= n < g.len() && g.nodes@[n].edges is Nothing implies #[trigger] g.node_ok(n) by {
        assert(g0.node_ok(n));
    }
}

/// Node `n` can be given links: it has none, and its mate's are positive.
pub open spec fn ready(g: &StaticInfrastructure, n: int) -> bool {
    0 <= n < g.len() && g.nodes@[n].edges is Nothing && g.positive_out(mate(n))
}

pub open spec fn quad(a0: NodeId, a1: NodeId, b0: NodeId, b1: NodeId) -> Set<int> {
    set![a0 as int, a1 as int, b0 as int, b1 as int]
}

/// The shape of point `pt` is in the graph.
pub open spec fn location_done(ports: Seq<((Pt, Port), NodeId)>, g: &StaticInfrastructure, pt: Pt, nd: NDType) -> bool {
    match nd {
        NDType::OpenEnd => g.nodes@[port_node(ports, (pt, Port::End))].edges == Edges::ModelBoundary,
        NDType::Cont => {
            let a = port_node(ports, (pt, Port::ContA));
            let b = port_node(ports, (pt, Port::ContB));
            &&& g.nodes@[a].edges == Edges::Single(b as usize, 0)
            &&& g.nodes@[b].edges == Edges::Single(a as usize, 0)
        },
        NDType::Sw(side) => {
            let l = port_node(ports, (pt, Port::Left));
            let r = port_node(ports, (pt, Port::Right));
            let t = port_node(ports, (pt, Port::Trunk));
            &&& g.nodes@[l].edges == Edges::Single(t as usize, 0)
            &&& g.nodes@[r].edges == Edges::Single(t as usize, 0)
            &&& g.nodes@[t].edges matches Edges::Switchable(o) && g.objects@[o as int] matches StaticObject::Switch {
                left_link,
                right_link,
                branch_side,
            } && left_link == (l as usize, 0u64) && right_link == (r as usize, 0u64) && branch_side == match side {
                Side::Left => SwitchPosition::Left,
                Side::Right => SwitchPosition::Right,
            }
        },
        NDType::Crossing(ct) => {
            let a0 = port_node(ports, (pt, Port::Cross(AB::A, 0)));
            let a1 = port_node(ports, (pt, Port::Cross(AB::A, 1)));
            let b0 = port_node(ports, (pt, Port::Cross(AB::B, 0)));
            let b1 = port_node(ports, (pt, Port::Cross(AB::B, 1)));
            &&& diagonal_done(g, a0, a1, b0, b1, diagonal_drivable(ct, AB::A))
            &&& diagonal_done(g, b0, b1, a0, a1, diagonal_drivable(ct, AB::B))
        },
        NDType::BufferStop | NDType::Error => forall|i: int|
            0 <= i < ports.len() && (#[trigger] ports[i]).0.0 == pt ==> g.nodes@[ports[i].1 as int].edges is Nothing,
    }
}

impl DGraphBuilder {
    /// Gives point `pt` its shape: links among the nodes of its ports, and
    /// the switch objects of a switch or of a crossing's drivable diagonals.
    #[verifier::rlimit(80)]
    pub(crate) fn place_location(
        &mut self,
        ports: &PortMap,
        pt: Pt,
        nd: NDType,
        node_ids: &mut IdMap,
        switch_ids: &mut IdMap,
        crossing_edges: &mut Vec<(NodeId, NodeId)>,
    )
        requires
            old(self).wf(),
            ports_ok(ports@, &old(self).dgraph),
            ports_free(ports@, &old(self).dgraph, pt),
            forall|p: int| 0 <= p < required_ports(nd).len() ==> has_port(ports@, (pt, #[trigger] required_ports(nd)[p])),
            old(self).dgraph.objects@.len() + 4 <= usize::MAX,
        ensures
            final(self).wf(),
            final(self).dgraph.nodes@.len() == old(self).dgraph.nodes@.len(),
            old(self).dgraph.objects@.len() <= final(self).dgraph.objects@.len() <= old(self).dgraph.objects@.len() + 4,
            forall|o: int| 0 <= o < old(self).dgraph.objects@.len() ==> #[trigger] final(self).dgraph.objects@[o] == old(self).dgraph.objects@[o],
            forall|n: int| 0 <= n < old(self).dgraph.len() && !port_of(ports@, pt, n) ==> same_node(#[trigger] final(self).dgraph.nodes@[n], old(self).dgraph.nodes@[n]),
            location_done(ports@, &final(self).dgraph, pt, nd),
            final(self).edge_tracks@ == old(self).edge_tracks@,
            forall|o: int| old(self).dgraph.objects@.len() <= o < final(self).dgraph.objects@.len() ==> #[trigger] final(self).dgraph.objects@[o] is Switch,
            id_pairs(*final(node_ids)) == if nd == NDType::OpenEnd {
                put(id_pairs(*old(node_ids)), port_node(ports@, (pt, Port::End)) as usize, pt)
            } else {
                id_pairs(*old(node_ids))
            },
            nd is Sw ==> id_pairs(*final(switch_ids)) == put(
                id_pairs(*old(switch_ids)),
                final(self).dgraph.nodes@[port_node(ports@, (pt, Port::Trunk))].edges->Switchable_0,
                pt,
            ),
            !(nd is Sw) ==> id_pairs(*final(switch_ids)) == id_pairs(*old(switch_ids)),
            nd is Sw ==> final(self).dgraph.nodes@[port_node(ports@, (pt, Port::Trunk))].edges->Switchable_0
                >= old(self).dgraph.objects@.len(),
            final(crossing_edges)@ == if nd == NDType::Crossing(CrossingType::Crossover) {
                old(crossing_edges)@.push((
                    port_node(ports@, (pt, Port::Cross(AB::A, 0))) as usize,
                    port_node(ports@, (pt, Port::Cross(AB::A, 1))) as usize,
                ))
            } else {
                old(crossing_edges)@
            },
    {
        let ghost g0 = self.dgraph;
        let ghost s = Set::new(|n: int| port_of(ports@, pt, n));
        proof {
            assert forall|n: int| #[trigger] s.contains(n) implies {
                &&& 0 <= n < g0.len()
                &&& g0.nodes@[n].edges is Nothing
                &&& !s.contains(mate(n))
                &&& g0.positive_out(mate(n))
            } by {
                let i = choose|i: int| 0 <= i < ports@.len() && (#[trigger] ports@[i]).0.0 == pt && ports@[i].1 == n;
                if s.contains(mate(n)) {
                    let k = choose|k: int| 0 <= k < ports@.len() && (#[trigger] ports@[k]).0.0 == pt && ports@[k].1 == mate(n);
                    assert(ports@[k].1 != mate(ports@[i].1 as int));
                }
            }
        }
        match nd {
            NDType::BufferStop | NDType::Error => {
                // Dead ends: no links.
                proof {
                    lemma_untouched_ports(&g0, &self.dgraph, s);
                    lemma_fill_nodes(&g0, &self.dgraph, s);
                }
            },
            NDType::OpenEnd => {
                assert(required_ports(nd)[0] == Port::End);
                let n = port(ports, (pt, Port::End));
                self.set_edges(n, Edges::ModelBoundary);
                id_map_insert(node_ids, n, pt);
                proof {
                    lemma_port_node(ports@, &g0, (pt, Port::End), n);
                    let g = self.dgraph;
                    lemma_untouched_ports(&g0, &g, s);
                    assert(g.node_ok(n as int));
                    assert forall|n2: int| #[trigger] s.contains(n2) implies g.node_ok(n2) && g.nodes@[n2].edges !is Single && g.nodes@[n2].edges !is Switchable by {
                        if n2 != n {
                            assert(same_node(g.nodes@[n2], g0.nodes@[n2]));
                        }
                    }
                    lemma_fill_nodes(&g0, &g, s);
                }
            },
            NDType::Cont => {
                assert(required_ports(nd)[0] == Port::ContA);
                assert(required_ports(nd)[1] == Port::ContB);
                let a = port(ports, (pt, Port::ContA));
                let b = port(ports, (pt, Port::ContB));
                proof {
                    lemma_ports_distinct(ports@, &g0, (pt, Port::ContA), a, (pt, Port::ContB), b);
                }
                self.connect_linear(a, b, 0);
                proof {
                    let g = self.dgraph;
                    lemma_untouched_ports(&g0, &g, s);
                    assert(s.contains(a as int) && s.contains(b as int));
                    assert(g.node_ok(a as int));
                    assert(g.node_ok(b as int));
                    assert forall|n2: int| #[trigger] s.contains(n2) && n2 != a && n2 != b implies g.nodes@[n2].edges is Nothing by {
                    }
                    assert forall|n2: int| #[trigger] s.contains(n2) implies g.node_ok(n2) by {}
                    assert forall|x: int, y: int, d: int| s.contains(x) && #[trigger] g.link(x, y, d) implies s.contains(y) && g.link(y, x, d) by {}
                    lemma_fill_nodes(&g0, &g, s);
                }
            },
            NDType::Sw(side) => {
                assert(required_ports(nd)[0] == Port::Left);
                assert(required_ports(nd)[1] == Port::Right);
                assert(required_ports(nd)[2] == Port::Trunk);
                let l = port(ports, (pt, Port::Left));
                let r = port(ports, (pt, Port::Right));
                let t = port(ports, (pt, Port::Trunk));
                proof {
                    lemma_ports_distinct(ports@, &g0, (pt, Port::Left), l, (pt, Port::Right), r);
                    lemma_ports_distinct(ports@, &g0, (pt, Port::Left), l, (pt, Port::Trunk), t);
                    lemma_ports_distinct(ports@, &g0, (pt, Port::Right), r, (pt, Port::Trunk), t);
                }
                let sw_obj = self.new_object(StaticObject::Switch {
                    left_link: (l, 0),
                    right_link: (r, 0),
                    branch_side: side.as_switch_position(),
                });
                id_map_insert(switch_ids, sw_obj, pt);
                self.set_edges(l, Edges::Single(t, 0));
                self.set_edges(r, Edges::Single(t, 0));
                self.set_edges(t, Edges::Switchable(sw_obj));
                proof {
                    let g = self.dgraph;
                    lemma_untouched_ports(&g0, &g, s);
                    assert(s.contains(l as int) && s.contains(r as int) && s.contains(t as int));
                    assert(g.objects@[sw_obj as int] is Switch);
                    assert(g.node_ok(l as int));
                    assert(g.node_ok(r as int));
                    assert(g.node_ok(t as int));
                    assert forall|n2: int| #[trigger] s.contains(n2) && n2 != l && n2 != r && n2 != t implies g.nodes@[n2].edges is Nothing by {
                        assert(same_node(g.nodes@[n2], g0.nodes@[n2]));
                    }
                    assert forall|n2: int| #[trigger] s.contains(n2) implies g.node_ok(n2) by {}
                    assert forall|x: int, y: int, d: int| s.contains(x) && #[trigger] g.link(x, y, d) implies s.contains(y) && g.link(y, x, d) by {}
                    lemma_fill_nodes(&g0, &g, s);
                }
            },
            NDType::Crossing(type_) => {
                assert(required_ports(nd)[0] == Port::Cross(AB::A, 0));
                assert(required_ports(nd)[1] == Port::Cross(AB::A, 1));
                assert(required_ports(nd)[2] == Port::Cross(AB::B, 0));
                assert(required_ports(nd)[3] == Port::Cross(AB::B, 1));
                let a0 = port(ports, (pt, Port::Cross(AB::A, 0)));
                let a1 = port(ports, (pt, Port::Cross(AB::A, 1)));
                let b0 = port(ports, (pt, Port::Cross(AB::B, 0)));
                let b1 = port(ports, (pt, Port::Cross(AB::B, 1)));
                proof {
                    lemma_ports_distinct(ports@, &g0, (pt, Port::Cross(AB::A, 0)), a0, (pt, Port::Cross(AB::A, 1)), a1);
                    lemma_ports_distinct(ports@, &g0, (pt, Port::Cross(AB::A, 0)), a0, (pt, Port::Cross(AB::B, 0)), b0);
                    lemma_ports_distinct(ports@, &g0, (pt, Port::Cross(AB::A, 0)), a0, (pt, Port::Cross(AB::B, 1)), b1);
                    lemma_ports_distinct(ports@, &g0, (pt, Port::Cross(AB::A, 1)), a1, (pt, Port::Cross(AB::B, 0)), b0);
                    lemma_ports_distinct(ports@, &g0, (pt, Port::Cross(AB::A, 1)), a1, (pt, Port::Cross(AB::B, 1)), b1);
                    lemma_ports_distinct(ports@, &g0, (pt, Port::Cross(AB::B, 0)), b0, (pt, Port::Cross(AB::B, 1)), b1);
                    assert(s.contains(a0 as int) && s.contains(a1 as int) && s.contains(b0 as int) && s.contains(b1 as int));
                    assert forall|n: int| #[trigger] quad(a0, a1, b0, b1).contains(n) implies !quad(a0, a1, b0, b1).contains(mate(n)) by {
                        assert(s.contains(n));
                    }
                }
                self.place_crossing(a0, a1, b0, b1, type_, crossing_edges);
                proof {
                    let g = self.dgraph;
                    assert forall|n2: int| 0 <= n2 < g0.len() && !port_of(ports@, pt, n2) implies same_node(
                        #[trigger] g.nodes@[n2],
                        g0.nodes@[n2],
                    ) by {
                        assert(!s.contains(n2));
                    }
                }
            },
        }
    }

    /// Gives a crossing with line ends `a0`, `a1` and `b0`, `b1` its shape.
    pub(crate) fn place_crossing(&mut self, a0: NodeId, a1: NodeId, b0: NodeId, b1: NodeId, type_: CrossingType, crossing_edges: &mut Vec<(NodeId, NodeId)>)
        requires
            old(self).wf(),
            old(self).dgraph.objects@.len() + 4 <= usize::MAX,
            a0 != a1 && a0 != b0 && a0 != b1 && a1 != b0 && a1 != b1 && b0 != b1,
            ready(&old(self).dgraph, a0 as int),
            ready(&old(self).dgraph, a1 as int),
            ready(&old(self).dgraph, b0 as int),
            ready(&old(self).dgraph, b1 as int),
            forall|n: int| #[trigger] quad(a0, a1, b0, b1).contains(n) ==> !quad(a0, a1, b0, b1).contains(mate(n)),
        ensures
            final(self).wf(),
            final(self).dgraph.nodes@.len() == old(self).dgraph.nodes@.len(),
            old(self).dgraph.objects@.len() <= final(self).dgraph.objects@.len() <= old(self).dgraph.objects@.len() + 4,
            forall|o: int| 0 <= o < old(self).dgraph.objects@.len() ==> #[trigger] final(self).dgraph.objects@[o] == old(self).dgraph.objects@[o],
            forall|n: int| 0 <= n < old(self).dgraph.len() && n != a0 && n != a1 && n != b0 && n != b1 ==> same_node(#[trigger] final(self).dgraph.nodes@[n], old(self).dgraph.nodes@[n]),
            forall|o: int| old(self).dgraph.objects@.len() <= o < final(self).dgraph.objects@.len() ==> #[trigger] final(self).dgraph.objects@[o] is Switch,
            final(self).edge_tracks@ == old(self).edge_tracks@,
            diagonal_done(&final(self).dgraph, a0 as int, a1 as int, b0 as int, b1 as int, diagonal_drivable(type_, AB::A)),
            diagonal_done(&final(self).dgraph, b0 as int, b1 as int, a0 as int, a1 as int, diagonal_drivable(type_, AB::B)),
            final(crossing_edges)@ == if type_ == CrossingType::Crossover {
                old(crossing_edges)@.push((a0, a1))
            } else {
                old(crossing_edges)@
            },
    {
        let ghost g0 = self.dgraph;
        let left_drivable = matches!(type_, CrossingType::DoubleSlip | CrossingType::SingleSlip(Side::Left));
        let right_drivable = matches!(type_, CrossingType::DoubleSlip | CrossingType::SingleSlip(Side::Right));
        self.cross_diagonal(a0, a1, b0, b1, left_drivable);
        let ghost g1 = self.dgraph;
        self.cross_diagonal(b0, b1, a0, a1, right_drivable);
        proof {
            let g = self.dgraph;
            assert forall|o: int| g0.objects@.len() <= o < g.objects@.len() implies #[trigger] g.objects@[o] is Switch by {
                if o < g1.objects@.len() {
                    assert(g.objects@[o] == g1.objects@[o]);
                }
            }
        }
        if !left_drivable && !right_drivable {
            crossing_edges.push((a0, a1));
        }
        proof {
            let g = self.dgraph;
            let s = quad(a0, a1, b0, b1);
            // The first diagonal's nodes and objects are kept by the second.
            assert(same_node(g.nodes@[a0 as int], g1.nodes@[a0 as int]));
            assert(same_node(g.nodes@[b1 as int], g1.nodes@[b1 as int]));
            if left_drivable {
                let sa = g1.nodes@[a0 as int].edges->Switchable_0 as int;
                let sb = g1.nodes@[b1 as int].edges->Switchable_0 as int;
                assert(g.objects@[sa] == g1.objects@[sa]);
                assert(g.objects@[sb] == g1.objects@[sb]);
            }
            assert(diagonal_done(&g, a0 as int, a1 as int, b0 as int, b1 as int, left_drivable));
            lemma_untouched_ports(&g0, &g, s);
            assert(g.node_ok(a0 as int));
            assert(g.node_ok(a1 as int));
            assert(g.node_ok(b0 as int));
            assert(g.node_ok(b1 as int));
            assert forall|n2: int| #[trigger] s.contains(n2) implies g.node_ok(n2) && 0 <= n2 < g0.len() && g0.nodes@[n2].edges is Nothing
                && !s.contains(mate(n2)) && g0.positive_out(mate(n2)) by {}
            assert forall|n2: int| 0 <= n2 < g0.len() && !s.contains(n2) implies same_node(#[trigger] g.nodes@[n2], g0.nodes@[n2]) by {
                assert(same_node(g1.nodes@[n2], g0.nodes@[n2]));
            }
            assert forall|x: int, y: int, d: int| s.contains(x) && #[trigger] g.link(x, y, d) implies s.contains(y) && g.link(y, x, d) by {}
            lemma_fill_nodes(&g0, &g, s);
        }
    }
}

/// A node whose record did not change keeps its links.
pub(crate) proof fn lemma_same_node_links(g0: &StaticInfrastructure, g: &StaticInfrastructure, n: int)
    requires
        g0.wf(),
        0 <= n < g0.len(),
        g0.nodes@.len() <= g.nodes@.len(),
        same_node(g.nodes@[n], g0.nodes@[n]),
        g0.objects@.len() <= g.objects@.len(),
        forall|o: int| 0 <= o < g0.objects@.len() ==> #[trigger] g.objects@[o] == g0.objects@[o],
    ensures
        forall|k: int, d: int| #[trigger] g.link(n, k, d) == g0.link(n, k, d),
        g.positive_out(n) == g0.positive_out(n),
        g.nodes@[n].edges is Nothing <==> g0.nodes@[n].edges is Nothing,
{
    assert(g0.node_ok(n));
    assert forall|k: int, d: int| #[trigger] g.link(n, k, d) == g0.link(n, k, d) by {}
    if g0.positive_out(n) {
        assert forall|k: int, d: int| #[trigger] g.link(n, k, d) implies d > 0 by {
            assert(g0.link(n, k, d));
        }
    }
    if g.positive_out(n) {
        assert forall|k: int, d: int| #[trigger] g0.link(n, k, d) implies d > 0 by {
            assert(g.link(n, k, d));
        }
    }
}

/// Every link leaving node `n` has length zero.
pub open spec fn zero_only(g: &StaticInfrastructure, n: int) -> bool {
    forall|k: int, d: int| #[trigger] g.link(n, k, d) ==> d == 0
}

/// The nodes that a point's shape speaks of.
pub open spec fn shape_nodes(ports: Seq<((Pt, Port), NodeId)>, pt: Pt, nd: NDType) -> Set<int> {
    Set::new(
        |n: int|
            (exists|p: int| 0 <= p < required_ports(nd).len() && n == port_node(ports, (pt, #[trigger] required_ports(nd)[p])))
                || ((nd == NDType::BufferStop || nd == NDType::Error) && port_of(ports, pt, n)),
    )
}

/// Where the nodes of a point's shape keep their links and the objects
/// table only grew, the point keeps its shape; its nodes lead nowhere but
/// along zero-length links.
pub(crate) proof fn lemma_location_done_kept(
    ports: Seq<((Pt, Port), NodeId)>,
    g0: &StaticInfrastructure,
    g: &StaticInfrastructure,
    pt: Pt,
    nd: NDType,
)
    requires
        g0.wf(),
        location_done(ports, g0, pt, nd),
        forall|p: int| 0 <= p < required_ports(nd).len() ==> has_port(ports, (pt, #[trigger] required_ports(nd)[p])),
        forall|i: int| 0 <= i < ports.len() ==> (#[trigger] ports[i]).1 < g0.len(),
        forall|n: int| #[trigger] shape_nodes(ports, pt, nd).contains(n) ==> g.nodes@[n].edges == g0.nodes@[n].edges,
        g0.nodes@.len() <= g.nodes@.len(),
        g0.objects@.len() <= g.objects@.len(),
        forall|o: int| 0 <= o < g0.objects@.len() ==> #[trigger] g.objects@[o] == g0.objects@[o],
    ensures
        location_done(ports, g, pt, nd),
        forall|n: int| #[trigger] shape_nodes(ports, pt, nd).contains(n) ==> 0 <= n < g0.len() && zero_only(g0, n),
{
    let sn = shape_nodes(ports, pt, nd);
    assert forall|p: int| 0 <= p < required_ports(nd).len() implies sn.contains(port_node(ports, (pt, #[trigger] required_ports(nd)[p]))) && 0 <= port_node(ports, (pt, required_ports(nd)[p])) < g0.len() by {
        lemma_has_port_node(ports, (pt, required_ports(nd)[p]));
    }
    assert forall|n: int| #[trigger] sn.contains(n) implies 0 <= n < g0.len() && zero_only(g0, n) by {
        if nd == NDType::BufferStop || nd == NDType::Error {
            let i = choose|i: int| 0 <= i < ports.len() && (#[trigger] ports[i]).0.0 == pt && ports[i].1 == n;
            assert(ports[i].1 < g0.len());
        } else {
            let p = choose|p: int| 0 <= p < required_ports(nd).len() && n == port_node(ports, (pt, #[trigger] required_ports(nd)[p]));
        }
        assert(g0.node_ok(n));
    }
    match nd {
        NDType::OpenEnd => {
            assert(required_ports(nd)[0] == Port::End);
        },
        NDType::Cont => {
            assert(required_ports(nd)[0] == Port::ContA);
            assert(required_ports(nd)[1] == Port::ContB);
        },
        NDType::Sw(_) => {
            assert(required_ports(nd)[0] == Port::Left);
            assert(required_ports(nd)[1] == Port::Right);
            assert(required_ports(nd)[2] == Port::Trunk);
            let t = port_node(ports, (pt, Port::Trunk));
            assert(g0.node_ok(t));
        },
        NDType::Crossing(ct) => {
            assert(required_ports(nd)[0] == Port::Cross(AB::A, 0));
            assert(required_ports(nd)[1] == Port::Cross(AB::A, 1));
            assert(required_ports(nd)[2] == Port::Cross(AB::B, 0));
            assert(required_ports(nd)[3] == Port::Cross(AB::B, 1));
            let a0 = port_node(ports, (pt, Port::Cross(AB::A, 0)));
            let a1 = port_node(ports, (pt, Port::Cross(AB::A, 1)));
            let b0 = port_node(ports, (pt, Port::Cross(AB::B, 0)));
            let b1 = port_node(ports, (pt, Port::Cross(AB::B, 1)));
            assert(g0.node_ok(a0));
            assert(g0.node_ok(a1));
            assert(g0.node_ok(b0));
            assert(g0.node_ok(b1));
        },
        NDType::BufferStop | NDType::Error => {
            assert forall|i: int| 0 <= i < ports.len() && (#[trigger] ports[i]).0.0 == pt implies g.nodes@[ports[i].1 as int].edges is Nothing by {
                assert(sn.contains(ports[i].1 as int));
            }
        },
    }
}

} // verus!
