//! The conversion from a schematic topology to the pair-node graph.
use vstd::prelude::*;
use crate::builder::{partitions, placed_links, splits, DGraphBuilder, Interval};
use crate::cursor::{lemma_search_bounded, search, Cursor};
use crate::idmap::{id_map_new, id_pairs, injective, IdMap};
use crate::infra::{edge_length, mate, Edges, NodeId, ObjectId, StaticInfrastructure, StaticObject};
use crate::model::{required_ports, Port, PtA, Topology};
use crate::network::{bare_network, lemma_required_present, names_exact, network_done, no_track_objects, switch_object};
use crate::points::{lemma_location_done_kept, location_done, zero_only};
use crate::ports::PortMap;
use crate::tracks::{addresses_distinct, detectors_placed, lemma_detectors_placed_kept, add_pair, lemma_signals_placed_kept, signals_placed, Attachments};

verus! {

/// How far before a signal it must be visible.
pub const SIGHT_DISTANCE: u64 = 200;

/// The compiled graph with the maps back to the schematic.
pub struct DGraph {
    pub rolling_inf: StaticInfrastructure,
    /// Open-end nodes and their points.
    pub node_ids: IdMap,
    /// Switch objects and their points.
    pub switch_ids: IdMap,
    /// Signal objects and their addresses.
    pub object_ids: IdMap,
    /// Detector nodes and their addresses.
    pub detector_ids: IdMap,
    /// The node pairs that bound detection sections, for the section deriver.
    pub detector_nodes: Vec<(NodeId, NodeId)>,
    /// Fixed crossings, which trains cannot drive across.
    pub crossing_edges: Vec<(NodeId, NodeId)>,
    /// For each node, the stretch of track its plain link covers.
    pub edge_tracks: Vec<Option<Interval>>,
    /// The node at each track end, by point and port.
    pub ports: PortMap,
    /// Each signal's address, the node it faces from, and its object.
    pub signals: Vec<(PtA, Cursor, ObjectId)>,
    /// The network as built, before the sight objects were added.
    pub network: Ghost<StaticInfrastructure>,
}

impl DGraph {
    /// The graph is well-formed, its intervals match its links, detector
    /// pairs are node pairs, and every model boundary bounds a section.
    pub open spec fn wf(&self) -> bool {
        &&& self.rolling_inf.wf()
        &&& self.edge_tracks@.len() == self.rolling_inf.nodes@.len()
        &&& forall|n: int|
            0 <= n < self.edge_tracks@.len() ==> (#[trigger] self.edge_tracks@[n] matches Some(iv) ==> {
                &&& iv.start <= iv.end
                &&& self.rolling_inf.nodes@[n].edges matches Edges::Single(_, d) && d == iv.end - iv.start
            })
        &&& forall|i: int|
            0 <= i < self.detector_nodes@.len() ==> {
                let p = #[trigger] self.detector_nodes@[i];
                &&& p.0 < self.rolling_inf.len()
                &&& p.1 == mate(p.0 as int)
            }
        &&& forall|n: int|
            0 <= n < self.rolling_inf.len() && (#[trigger] self.rolling_inf.nodes@[n]).edges is ModelBoundary
                ==> self.detector_nodes@.contains((n as usize, mate(n) as usize))
    }
}

impl DGraphBuilder {
    /// Compiles a topology: builds the base network with its track objects,
    /// adds a sight object for each place a signal is first seen from, and
    /// makes every model boundary a section boundary.
    pub fn convert(topology: &Topology) -> (r: DGraph)
        requires
            topology.well_formed(),
        ensures
            r.wf(),
            network_done(
                topology.tracks@,
                topology.locations@,
                r.ports@,
                &r.rolling_inf,
                id_pairs(r.node_ids),
                r.crossing_edges@,
            ),
            sights_ok(&r.rolling_inf),
            names_exact(r.ports@, topology.locations@, topology.locations@.len() as int, &r.rolling_inf, id_pairs(r.node_ids), id_pairs(r.switch_ids)),
            no_track_objects(topology.trackobjects@) ==> bare_network(topology.tracks@, r.ports@, &r.rolling_inf, topology.tracks@.len() as int)
                && r.signals@.len() == 0 && r.rolling_inf.objects@ == r.network@.objects@,
            r.network@.wf(),
            r.network@.nodes@.len() <= r.rolling_inf.nodes@.len(),
            forall|o: usize| #[trigger] id_pairs(r.object_ids).contains_key(o) ==> o < r.rolling_inf.objects@.len()
                && r.rolling_inf.objects@[o as int] is Signal,
            addresses_distinct(r.signals@),
            forall|i: int| 0 <= i < r.signals@.len() ==> id_pairs(r.object_ids).contains_key((#[trigger] r.signals@[i]).2)
                && id_pairs(r.object_ids)[r.signals@[i].2] == r.signals@[i].0,
            forall|i: int| 0 <= i < r.signals@.len() ==> {
                let s = #[trigger] r.signals@[i];
                &&& s.1 is Node
                &&& s.1->Node_0 < r.network@.len()
                &&& s.2 < r.network@.objects@.len()
                &&& r.network@.objects@[s.2 as int] is Signal
            },
            forall|o: int| 0 <= o < r.network@.objects@.len() ==> !(#[trigger] r.network@.objects@[o] is Sight),
            r.rolling_inf.objects@ == r.network@.objects@ + all_sights(&r.network@, r.signals@) || ids_exhausted(&r.rolling_inf),
            injective(id_pairs(r.node_ids)),
            injective(id_pairs(r.switch_ids)),
            injective(id_pairs(r.object_ids)),
            injective(id_pairs(r.detector_ids)),
            signals_placed(topology.trackobjects@, topology.trackobjects@.len() as int, &r.rolling_inf),
            forall|t: int| 0 <= t < topology.tracks@.len() ==> partitions(r.edge_tracks@, t, (#[trigger] topology.tracks@[t]).0 as int),
            detectors_placed(
                topology.trackobjects@,
                topology.tracks@,
                topology.tracks@.len() as int,
                r.edge_tracks@,
                r.detector_nodes@,
            ),
    {
        let mut m = DGraphBuilder::new();
        let mut acc = Attachments {
            signals: Vec::new(),
            detector_nodes: Vec::new(),
            object_ids: id_map_new(),
            detector_ids: id_map_new(),
        };
        proof {
            assert(id_pairs(acc.object_ids).dom() =~= Set::<usize>::empty());
            assert(id_pairs(acc.detector_ids).dom() =~= Set::<usize>::empty());
        }
        let (node_ids, switch_ids, crossing_edges, ports) = m.create_network(
            &topology.tracks,
            &topology.locations,
            &topology.trackobjects,
            &mut acc,
        );

        let ghost g_net = m.dgraph;
        proof {
            assert forall|o: int| 0 <= o < g_net.objects@.len() && (#[trigger] g_net.objects@[o]) is Sight implies false by {
                assert(!(g_net.objects@[o] is Sight));
            }
        }
        // Sight to signals: search back from each signal in the network as
        // built, then put a sight object facing the signal wherever a branch
        // of the search stopped.
        let ghost sigs = acc.signals@;
        let mut plans: Vec<Vec<(Cursor, u64, u64)>> = Vec::new();
        let mut si: usize = 0;
        while si < acc.signals.len()
            invariant
                m.dgraph == g_net,
                g_net.wf(),
                acc.wf(&g_net),
                acc.signals@ == sigs,
                si <= sigs.len(),
                plans@.len() == si,
                forall|k: int| 0 <= k < si ==> plan_ok(&g_net, #[trigger] plans@[k]@, sigs[k]),
            decreases sigs.len() - si,
        {
            let (_id, cursor, _objid) = acc.signals[si];
            proof {
                let s = acc.signals@[si as int];
                assert(s.1 is Node && s.1->Node_0 < m.dgraph.len());
            }
            let back = cursor.reverse(&m.dgraph);
            let found = back.advance_nontrailing_truncate(&m.dgraph, SIGHT_DISTANCE);
            proof {
                lemma_search_bounded(&m.dgraph, back, SIGHT_DISTANCE as int);
            }
            let mut plan: Vec<(Cursor, u64, u64)> = Vec::new();
            let mut ri: usize = 0;
            while ri < found.len()
                invariant
                    m.dgraph == g_net,
                    g_net.wf(),
                    ri <= found@.len(),
                    plan@.len() == ri,
                    forall|q: int| 0 <= q < found@.len() ==> (#[trigger] found@[q]).1 <= SIGHT_DISTANCE && found@[q].0.valid(&g_net),
                    forall|q: int| 0 <= q < ri ==> step_ok(&g_net, #[trigger] plan@[q], found@[q]),
                decreases found@.len() - ri,
            {
                let (c, dist) = found[ri];
                proof {
                    assert(found@[ri as int].1 <= SIGHT_DISTANCE && found@[ri as int].0.valid(&g_net));
                }
                let r = c.reverse(&m.dgraph);
                let len: u64 = match r {
                    Cursor::Edge((a, b), _) => {
                        proof {
                            assert(m.dgraph.node_ok(a as int));
                        }
                        match edge_length(&m.dgraph, a, b) {
                            Some(l) => l,
                            None => 0,
                        }
                    },
                    Cursor::Node(_) => 0,
                };
                plan.push((r, dist, len));
                proof {
                    assert forall|q: int| 0 <= q < ri + 1 implies step_ok(&g_net, #[trigger] plan@[q], found@[q]) by {}
                }
                ri += 1;
            }
            plans.push(plan);
            proof {
                assert(found@ == search(&g_net, sigs[si as int].1.reversed(&g_net), SIGHT_DISTANCE as int));
                assert forall|k: int| 0 <= k < si + 1 implies plan_ok(&g_net, #[trigger] plans@[k]@, sigs[k]) by {}
            }
            si += 1;
        }
        let mut stopped = false;
        let mut si: usize = 0;
        while si < plans.len()
            invariant
                m.wf(),
                acc.wf(&m.dgraph),
                g_net.wf(),
                kept_since(&g_net, &m.dgraph),
                sights_ok(&m.dgraph),
                forall|t: int| 0 <= t < topology.tracks@.len() ==> partitions(m.edge_tracks@, t, (#[trigger] topology.tracks@[t]).0 as int),
                detectors_placed(
                    topology.trackobjects@,
                    topology.tracks@,
                    topology.tracks@.len() as int,
                    m.edge_tracks@,
                    acc.detector_nodes@,
                ),
                acc.signals@ == sigs,
                acc.wf(&g_net),
                plans@.len() == sigs.len(),
                forall|k: int| 0 <= k < sigs.len() ==> plan_ok(&g_net, #[trigger] plans@[k]@, sigs[k]),
                stopped ==> ids_exhausted(&m.dgraph),
                si <= sigs.len(),
                sigs.len() == 0 ==> m.dgraph == g_net,
                !stopped ==> m.dgraph.objects@ == g_net.objects@ + all_sights(&g_net, sigs.take(si as int)),
            decreases sigs.len() - si,
        {
            let objid = acc.signals[si].2;
            let ghost before = m.dgraph.objects@;
            proof {
                assert(plan_ok(&g_net, plans@[si as int]@, sigs[si as int]));
                assert(sigs[si as int].2 < g_net.objects@.len() && g_net.objects@[sigs[si as int].2 as int] is Signal);
            }
            let mut ri: usize = 0;
            while ri < plans[si].len()
                invariant
                m.wf(),
                    acc.wf(&m.dgraph),
                    g_net.wf(),
                    kept_since(&g_net, &m.dgraph),
                    sights_ok(&m.dgraph),
                    forall|t: int| 0 <= t < topology.tracks@.len() ==> partitions(m.edge_tracks@, t, (#[trigger] topology.tracks@[t]).0 as int),
                    detectors_placed(
                        topology.trackobjects@,
                        topology.tracks@,
                        topology.tracks@.len() as int,
                        m.edge_tracks@,
                        acc.detector_nodes@,
                    ),
                    acc.signals@ == sigs,
                    acc.wf(&g_net),
                    plans@.len() == sigs.len(),
                    forall|k: int| 0 <= k < sigs.len() ==> plan_ok(&g_net, #[trigger] plans@[k]@, sigs[k]),
                    stopped ==> ids_exhausted(&m.dgraph),
                    si < sigs.len(),
                    sigs.len() == 0 ==> m.dgraph == g_net,
                    objid == sigs[si as int].2,
                    ri <= plans@[si as int]@.len(),
                    !stopped ==> before == g_net.objects@ + all_sights(&g_net, sigs.take(si as int)),
                    !stopped ==> m.dgraph.objects@ == before + signal_sights(&g_net, sigs[si as int]).take(ri as int),
                decreases plans@[si as int]@.len() - ri,
            {
                let (c, dist, len) = plans[si][ri];
                proof {
                    assert(plan_ok(&g_net, plans@[si as int]@, sigs[si as int]));
                    assert(step_ok(&g_net, plans@[si as int]@[ri as int], search(&g_net, sigs[si as int].1.reversed(&g_net), SIGHT_DISTANCE as int)[ri as int]));
                }
                if !stopped && m.dgraph.nodes.len() < usize::MAX - 2 && m.dgraph.objects.len() < usize::MAX - 1 {
                    // An earlier sight may have split the edge this place
                    // lay on: walk the pieces from the edge's start instead.
                    let at = if c.is_valid(&m.dgraph) {
                        c
                    } else {
                        match c {
                            Cursor::Edge((a, _b), d) => {
                                proof {
                                    crate::infra::lemma_link_edge_len(&g_net, a as int, _b as int, d as int);
                                    assert(g_net.node_ok(a as int));
                                }
                                match Cursor::Node(a).advance_single(&m.dgraph, len - d) {
                                    Some(c2) => c2,
                                    None => Cursor::Node(a),
                                }
                            },
                            Cursor::Node(_) => c,
                        }
                    };
                    let ghost g0 = m.dgraph;
                    let ghost tr0 = m.edge_tracks@;
                    m.insert_object(at, StaticObject::Sight { distance: dist, signal: objid });
                    proof {
                        assert forall|t: int| 0 <= t < topology.tracks@.len() implies partitions(m.edge_tracks@, t, (#[trigger] topology.tracks@[t]).0 as int) by {
                            assert(partitions(tr0, t, topology.tracks@[t].0 as int));
                        }
                        lemma_detectors_placed_kept(
                            topology.trackobjects@,
                            topology.tracks@,
                            topology.tracks@.len() as int,
                            tr0,
                            acc.detector_nodes@,
                            m.edge_tracks@,
                            acc.detector_nodes@,
                        );
                        lemma_acc_after_insert(&acc, &g0, &m.dgraph);
                        lemma_sight_step(&g_net, &g0, &m.dgraph, at);
                        let g = m.dgraph;
                        assert(g0.objects@[objid as int] == g_net.objects@[objid as int]);
                        assert forall|o: int| 0 <= o < g.objects@.len() && (#[trigger] g.objects@[o]) is Sight implies g.objects@[o]->Sight_signal
                            < g.objects@.len() && g.objects@[g.objects@[o]->Sight_signal as int] is Signal
                            && g.objects@[o]->Sight_distance <= SIGHT_DISTANCE by {
                            if o < g0.objects@.len() {
                                assert(g.objects@[o] == g0.objects@[o]);
                                assert(g.objects@[g0.objects@[o]->Sight_signal as int] == g0.objects@[g0.objects@[o]->Sight_signal as int]);
                            } else {
                                assert(g.objects@[objid as int] == g0.objects@[objid as int]);
                            }
                        }
                        assert(signal_sights(&g_net, sigs[si as int]).take(ri + 1) =~= signal_sights(&g_net, sigs[si as int]).take(ri as int).push(
                            StaticObject::Sight { distance: dist, signal: objid },
                        ));
                        assert(g.objects@ =~= before + signal_sights(&g_net, sigs[si as int]).take(ri + 1));
                    }
                } else {
                    stopped = true;
                }
                ri += 1;
            }
            proof {
                let ss = signal_sights(&g_net, sigs[si as int]);
                assert(ss.len() == plans@[si as int]@.len());
                assert(ss.take(ss.len() as int) =~= ss);
                assert(sigs.take(si + 1).drop_last() =~= sigs.take(si as int));
                assert(all_sights(&g_net, sigs.take(si + 1)) == all_sights(&g_net, sigs.take(si as int)) + ss);
                if !stopped {
                    assert(m.dgraph.objects@ =~= g_net.objects@ + all_sights(&g_net, sigs.take(si + 1)));
                }
            }
            si += 1;
        }
        proof {
            assert(sigs.take(sigs.len() as int) =~= sigs);
            assert forall|i: int| 0 <= i < sigs.len() implies {
                let s = #[trigger] sigs[i];
                &&& s.1 is Node
                &&& s.1->Node_0 < g_net.len()
                &&& s.2 < g_net.objects@.len()
                &&& g_net.objects@[s.2 as int] is Signal
            } by {
                assert(acc.signals@[i] == sigs[i]);
            }
        }

        proof {
            let g = m.dgraph;
            assert forall|k: int| 0 <= k < topology.locations@.len() implies location_done(
                ports@,
                &g,
                (#[trigger] topology.locations@[k]).0,
                topology.locations@[k].1.0,
            ) by {
                let loc = topology.locations@[k];
                lemma_required_present(topology.tracks@, topology.locations@, topology.trackobjects@, ports@, k);
                lemma_location_done_kept(ports@, &g_net, &g_net, loc.0, loc.1.0);
                lemma_location_done_kept(ports@, &g_net, &g, loc.0, loc.1.0);
            }
            let locs = topology.locations@;
            assert forall|k: int| 0 <= k < locs.len() && (#[trigger] locs[k]).1.0 is Sw implies switch_object(ports@, &g, locs[k].0)
                == switch_object(ports@, &g_net, locs[k].0) by {
                lemma_required_present(topology.tracks@, locs, topology.trackobjects@, ports@, k);
                lemma_location_done_kept(ports@, &g_net, &g_net, locs[k].0, locs[k].1.0);
                assert(required_ports(locs[k].1.0)[2] == Port::Trunk);
                assert(crate::points::shape_nodes(ports@, locs[k].0, locs[k].1.0).contains(crate::ports::port_node(ports@, (locs[k].0, Port::Trunk))));
            }
            assert(names_exact(ports@, locs, locs.len() as int, &g, id_pairs(node_ids), id_pairs(switch_ids))) by {
                assert forall|k: usize| #[trigger] id_pairs(switch_ids).contains_key(k) implies exists|m: int|
                    0 <= m < locs.len() && (#[trigger] locs[m]).1.0 is Sw && k == switch_object(ports@, &g, locs[m].0) by {
                    let m = choose|m: int| 0 <= m < locs.len() && (#[trigger] locs[m]).1.0 is Sw && k == switch_object(ports@, &g_net, locs[m].0);
                }
            }
        }
        let ghost g_s = m.dgraph;
        proof {
            lemma_signals_placed_kept(topology.trackobjects@, topology.trackobjects@.len() as int, &g_net, &g_s);
        }
        // Train detectors at the model boundaries.
        let mut n: usize = 0;
        while n < m.dgraph.nodes.len()
            invariant
                m.wf(),
                m.dgraph == g_s,
                acc.signals@ == sigs,
                g_s.objects@ == g_net.objects@ + all_sights(&g_net, sigs) || ids_exhausted(&g_s),
                forall|i: int| 0 <= i < sigs.len() ==> {
                    let s = #[trigger] sigs[i];
                    &&& s.1 is Node
                    &&& s.1->Node_0 < g_net.len()
                    &&& s.2 < g_net.objects@.len()
                    &&& g_net.objects@[s.2 as int] is Signal
                },
                forall|t: int| 0 <= t < topology.tracks@.len() ==> partitions(m.edge_tracks@, t, (#[trigger] topology.tracks@[t]).0 as int),
                detectors_placed(
                    topology.trackobjects@,
                    topology.tracks@,
                    topology.tracks@.len() as int,
                    m.edge_tracks@,
                    acc.detector_nodes@,
                ),

                acc.wf(&m.dgraph),
                n <= m.dgraph.nodes@.len(),
                forall|k: int|
                    0 <= k < n && (#[trigger] m.dgraph.nodes@[k]).edges is ModelBoundary
                        ==> acc.detector_nodes@.contains((k as usize, mate(k) as usize)),
            decreases m.dgraph.nodes@.len() - n,
        {
            proof {
                assert(m.dgraph.node_ok(n as int));
            }
            if matches!(m.dgraph.nodes[n].edges, Edges::ModelBoundary) {
                let ghost d0 = acc.detector_nodes@;
                add_pair(&mut acc.detector_nodes, (n, m.dgraph.nodes[n].other_node));
                proof {
                    assert forall|q: (NodeId, NodeId)| #[trigger] d0.contains(q) implies acc.detector_nodes@.contains(q) by {
                        let w = choose|w: int| 0 <= w < d0.len() && d0[w] == q;
                        assert(acc.detector_nodes@[w] == d0[w]);
                    }
                    lemma_detectors_placed_kept(
                        topology.trackobjects@,
                        topology.tracks@,
                        topology.tracks@.len() as int,
                        m.edge_tracks@,
                        d0,
                        m.edge_tracks@,
                        acc.detector_nodes@,
                    );
                    let p = (n, mate(n as int) as usize);
                    if !d0.contains(p) {
                        assert(acc.detector_nodes@[d0.len() as int] == p);
                    }
                    assert(acc.detector_nodes@.contains(p));
                    assert forall|k: int| 0 <= k < acc.detector_nodes@.len() implies {
                        let p = #[trigger] acc.detector_nodes@[k];
                        &&& p.0 < m.dgraph.len()
                        &&& p.1 == mate(p.0 as int)
                    } by {
                        if k < d0.len() {
                            assert(acc.detector_nodes@[k] == d0[k]);
                        }
                    }
                    assert forall|k: int|
                        0 <= k < n + 1 && (#[trigger] m.dgraph.nodes@[k]).edges is ModelBoundary implies acc.detector_nodes@.contains(
                            (k as usize, mate(k) as usize),
                        ) by {
                        if k < n {
                            assert(d0.contains((k as usize, mate(k) as usize)));
                            let w = choose|w: int| 0 <= w < d0.len() && d0[w] == (k as usize, mate(k) as usize);
                            assert(acc.detector_nodes@[w] == d0[w]);
                        }
                    }
                }
            }
            n += 1;
        }
        DGraph {
            rolling_inf: m.dgraph,
            node_ids,
            switch_ids,
            object_ids: acc.object_ids,
            detector_ids: acc.detector_ids,
            detector_nodes: acc.detector_nodes,
            crossing_edges,
            edge_tracks: m.edge_tracks,
            ports,
            signals: acc.signals,
            network: Ghost(g_net),
        }
    }
}

proof fn lemma_acc_after_insert(acc: &Attachments, g0: &StaticInfrastructure, g: &StaticInfrastructure)
    requires
        acc.wf(g0),
        g0.nodes@.len() <= g.nodes@.len(),
        g0.objects@.len() <= g.objects@.len(),
        forall|o: int| 0 <= o < g0.objects@.len() ==> g.objects@[o] == g0.objects@[o],
    ensures
        acc.wf(g),
{
    assert forall|i: int| 0 <= i < acc.signals@.len() implies #[trigger] g.objects@[acc.signals@[i].2 as int] is Signal by {
        let s = acc.signals@[i];
        assert(g.objects@[s.2 as int] == g0.objects@[s.2 as int]);
    }
}

/// Every sight object refers to a signal object and lies no farther from
/// it than the sighting distance.
pub open spec fn sights_ok(g: &StaticInfrastructure) -> bool {
    forall|o: int|
        0 <= o < g.objects@.len() && (#[trigger] g.objects@[o]) is Sight ==> g.objects@[o]->Sight_signal < g.objects@.len()
            && g.objects@[g.objects@[o]->Sight_signal as int] is Signal
            && g.objects@[o]->Sight_distance <= SIGHT_DISTANCE
}

/// Nodes of `g0` with only zero-length links lead where they did, and the
/// objects of `g0` are still there.
pub open spec fn kept_since(g0: &StaticInfrastructure, g: &StaticInfrastructure) -> bool {
    &&& g0.nodes@.len() <= g.nodes@.len()
    &&& g0.objects@.len() <= g.objects@.len()
    &&& forall|o: int| 0 <= o < g0.objects@.len() ==> #[trigger] g.objects@[o] == g0.objects@[o]
    &&& forall|n: int| 0 <= n < g0.len() && #[trigger] zero_only(g0, n) ==> g.nodes@[n].edges == g0.nodes@[n].edges
}

/// Attaching an object splits at most an edge of positive length, so nodes
/// with only zero-length links keep their links.
proof fn lemma_sight_step(g_net: &StaticInfrastructure, g0: &StaticInfrastructure, g: &StaticInfrastructure, c: Cursor)
    requires
        g_net.wf(),
        g0.wf(),
        kept_since(g_net, g0),
        c.valid(g0),
        placed_links(g0, g, c),
        g0.objects@.len() <= g.objects@.len(),
        forall|o: int| 0 <= o < g0.objects@.len() ==> #[trigger] g.objects@[o] == g0.objects@[o],
    ensures
        kept_since(g_net, g),
{
    assert forall|n: int| 0 <= n < g_net.len() && #[trigger] zero_only(g_net, n) implies g.nodes@[n].edges == g_net.nodes@[n].edges by {
        assert(g_net.node_ok(n));
        if splits(g0, c) {
            let a = c->Edge_0.0 as int;
            let b = c->Edge_0.1 as int;
            let len = g0.edge_len(a, b)->Some_0 as int;
            crate::infra::lemma_link_edge_len(g0, a, b, len);
            assert(g0.link(b, a, len));
            if n == a {
                assert(g_net.link(a, b, len));
            }
            if n == b {
                assert(g0.node_ok(b));
                assert(g_net.link(b, a, len));
            }
        }
    }
}

/// The ids for new nodes or objects have run out.
pub open spec fn ids_exhausted(g: &StaticInfrastructure) -> bool {
    g.nodes@.len() + 2 >= usize::MAX || g.objects@.len() + 1 >= usize::MAX
}

/// The sights a signal gets: one for each place where the search back from
/// it stopped, with the distance covered there.
pub open spec fn signal_sights(g: &StaticInfrastructure, sig: (PtA, Cursor, ObjectId)) -> Seq<StaticObject> {
    let found = search(g, sig.1.reversed(g), SIGHT_DISTANCE as int);
    Seq::new(found.len(), |q: int| StaticObject::Sight { distance: found[q].1, signal: sig.2 })
}

/// The sights of all the signals, in order.
pub open spec fn all_sights(g: &StaticInfrastructure, sigs: Seq<(PtA, Cursor, ObjectId)>) -> Seq<StaticObject>
    decreases sigs.len(),
{
    if sigs.len() == 0 {
        seq![]
    } else {
        all_sights(g, sigs.drop_last()) + signal_sights(g, sigs.last())
    }
}

/// A planned sight: the search entry's place seen from the other side, its
/// distance, and the length of the edge it lies on.
pub open spec fn step_ok(g: &StaticInfrastructure, p: (Cursor, u64, u64), e: (Cursor, u64)) -> bool {
    &&& p.0 == e.0.reversed(g)
    &&& p.1 == e.1
    &&& p.1 <= SIGHT_DISTANCE
    &&& p.0.valid(g)
    &&& (p.0 matches Cursor::Edge((a, b), _) ==> p.2 == g.edge_len(a as int, b as int)->Some_0)
}

pub open spec fn plan_ok(g: &StaticInfrastructure, plan: Seq<(Cursor, u64, u64)>, sig: (PtA, Cursor, ObjectId)) -> bool {
    let found = search(g, sig.1.reversed(g), SIGHT_DISTANCE as int);
    &&& plan.len() == found.len()
    &&& forall|q: int| 0 <= q < plan.len() ==> step_ok(g, #[trigger] plan[q], found[q])
}

/// Every signal gets at least one sight, and each of its sights refers to
/// it and lies within the sighting distance.
pub proof fn lemma_signal_sighted(g: &StaticInfrastructure, sig: (PtA, Cursor, ObjectId))
    requires
        g.wf(),
        sig.1 is Node,
        sig.1->Node_0 < g.len(),
    ensures
        signal_sights(g, sig).len() > 0,
        forall|q: int| 0 <= q < signal_sights(g, sig).len() ==> (#[trigger] signal_sights(g, sig)[q]) is Sight
            && signal_sights(g, sig)[q]->Sight_signal == sig.2 && signal_sights(g, sig)[q]->Sight_distance <= SIGHT_DISTANCE,
{
    let c = sig.1.reversed(g);
    assert(c.valid(g));
    lemma_search_bounded(g, c, SIGHT_DISTANCE as int);
}

} // verus!
