//! Building the base network from the topology.
use vstd::prelude::*;
use crate::builder::{starts_at, idx_below, lemma_new_track_interval, lemma_push_none_partitions, partitions, DGraphBuilder, Interval};
use crate::idmap::{id_pairs, injective, lemma_put_injective, IdMap};
use crate::infra::{mate, same_node, Edges, NodeId, StaticInfrastructure};
use crate::model::{
    parts_ok, port_present, required_ports, CrossingType, Location, NDType, Port, Pt, Track, TrackObject,
    objects_total, lemma_objects_total_mono, AB,
};
use crate::points::{
    lemma_fill_nodes, lemma_location_done_kept, lemma_same_node_links, location_done, shape_nodes,
};
use crate::ports::{
    lemma_ports_distinct_pub, has_port, lemma_has_port_node, lemma_ports_grow, lemma_set_port, port_node, port_of, ports_ok, set_port,
    PortMap,
};
use crate::tracks::{
    detectors_placed, lemma_detectors_placed_kept, lemma_attachments_grow, lemma_same_links_grows, lemma_signals_placed_kept, no_sights, signal_placed, signals_placed,
    Attachments,
};

verus! {

/// Some point among the first `j` locations is `pt`.
pub open spec fn processed(locs: Seq<Location>, j: int, pt: Pt) -> bool {
    exists|m: int| 0 <= m < j && (#[trigger] locs[m]).0 == pt
}

/// How many nodes the first `n` tracks can need at most.
pub open spec fn node_bound(trackobjects: Seq<Vec<TrackObject>>, n: int) -> int {
    4 * n + 2 * objects_total(trackobjects, n)
}

impl DGraphBuilder {
    /// Builds the base network: a node pair at each end of each track joined
    /// by a plain link of the track's length, the track's objects attached
    /// along it, and then the shape of each point. Returns the open-end
    /// nodes and switch objects with their points, and the fixed crossings.
    #[verifier::rlimit(100)]
    pub fn create_network(
        &mut self,
        tracks: &Vec<Track>,
        nodes: &Vec<Location>,
        trackobjects: &Vec<Vec<TrackObject>>,
        acc: &mut Attachments,
    ) -> (r: (IdMap, IdMap, Vec<(NodeId, NodeId)>, PortMap))
        requires
            old(self).wf(),
            old(self).dgraph.nodes@.len() == 0,
            old(self).dgraph.objects@.len() == 0,
            parts_ok(tracks@, nodes@, trackobjects@),
            old(acc).wf(&old(self).dgraph),
        ensures
            final(self).wf(),
            final(acc).wf(&final(self).dgraph),
            final(self).dgraph.nodes@.len() <= node_bound(trackobjects@, tracks@.len() as int),
            final(self).dgraph.objects@.len() <= objects_total(trackobjects@, tracks@.len() as int) + 4 * nodes@.len(),
            network_done(tracks@, nodes@, r.3@, &final(self).dgraph, id_pairs(r.0), r.2@),
            no_sights(&final(self).dgraph),
            names_exact(r.3@, nodes@, nodes@.len() as int, &final(self).dgraph, id_pairs(r.0), id_pairs(r.1)),
            no_track_objects(trackobjects@) ==> bare_network(tracks@, r.3@, &final(self).dgraph, tracks@.len() as int)
                && final(acc).signals@ == old(acc).signals@,
            signals_placed(trackobjects@, trackobjects@.len() as int, &final(self).dgraph),
            forall|t: int| 0 <= t < tracks@.len() ==> partitions(final(self).edge_tracks@, t, (#[trigger] tracks@[t]).0 as int),
            detectors_placed(trackobjects@, tracks@, tracks@.len() as int, final(self).edge_tracks@, final(acc).detector_nodes@),
            injective(id_pairs(r.0)),
            injective(id_pairs(r.1)),
    {
        let mut node_ids = crate::idmap::id_map_new();
        let mut switch_ids = crate::idmap::id_map_new();
        let mut crossing_edges: Vec<(NodeId, NodeId)> = Vec::new();
        let mut ports: PortMap = Vec::new();
        proof {
            assert(id_pairs(node_ids).dom() =~= Set::<usize>::empty());
            assert(id_pairs(switch_ids).dom() =~= Set::<usize>::empty());
        }
        let mut i: usize = 0;
        while i < tracks.len()
            invariant
                self.wf(),
                acc.wf(&self.dgraph),
                no_sights(&self.dgraph),
                signals_placed(trackobjects@, i as int, &self.dgraph),
                forall|t: int| 0 <= t < i ==> partitions(self.edge_tracks@, t, (#[trigger] tracks@[t]).0 as int),
                idx_below(self.edge_tracks@, i as int),
                detectors_placed(trackobjects@, tracks@, i as int, self.edge_tracks@, acc.detector_nodes@),
                no_track_objects(trackobjects@) ==> bare_network(tracks@, ports@, &self.dgraph, i as int)
                    && acc.signals@ == old(acc).signals@,
                parts_ok(tracks@, nodes@, trackobjects@),
                i <= tracks@.len(),
                ports_ok(ports@, &self.dgraph),
                forall|k: int| 0 <= k < ports@.len() ==> self.dgraph.nodes@[(#[trigger] ports@[k]).1 as int].edges is Nothing,
                forall|t: int| 0 <= t < i ==> has_port(ports@, (#[trigger] tracks@[t]).1) && has_port(ports@, tracks@[t].2),
                self.dgraph.nodes@.len() <= node_bound(trackobjects@, i as int),
                self.dgraph.objects@.len() <= objects_total(trackobjects@, i as int),
            decreases tracks@.len() - i,
        {
            let (len, a, b) = tracks[i];
            proof {
                assert(tracks@[i as int].0 > 0);
                lemma_objects_total_mono(trackobjects@, i + 1, tracks@.len() as int);
                lemma_objects_total_mono(trackobjects@, i as int, i + 1);
            }
            let ghost g_a = self.dgraph;
            let ghost p_a = ports@;
            let ghost tr_a = self.edge_tracks@;
            proof {
            }
            let (start_a, start_b) = self.new_node_pair();
            let (end_a, end_b) = self.new_node_pair();
            let ghost g_b = self.dgraph;
            let ghost tr_b = self.edge_tracks@;
            proof {
                let tr_m = tr_a.push(None).push(None);
                assert(tr_b == tr_m.push(None).push(None));
                assert forall|t: int| 0 <= t < i implies partitions(tr_b, t, (#[trigger] tracks@[t]).0 as int) by {
                    lemma_push_none_partitions(tr_a, t, tracks@[t].0 as int, i as int);
                    lemma_push_none_partitions(tr_m, t, tracks@[t].0 as int, i as int);
                }
                lemma_push_none_partitions(tr_a, 0, 0, i as int);
                lemma_push_none_partitions(tr_m, 0, 0, i as int);
                lemma_same_links_grows(&g_a, &g_b);
                lemma_ports_grow(p_a, &g_a, &g_b);
                lemma_attachments_grow(acc, &g_a, &g_b);
            }
            self.connect_linear(start_b, end_a, len);
            let ghost g_c = self.dgraph;
            proof {
                let sset = set![start_b as int, end_a as int];
                assert(g_c.node_ok(start_b as int));
                assert(g_c.node_ok(end_a as int));
                assert forall|n: int| 0 <= n < g_b.len() && !sset.contains(n) implies same_node(#[trigger] g_c.nodes@[n], g_b.nodes@[n]) by {}
                assert forall|n: int| #[trigger] sset.contains(n) implies {
                    &&& 0 <= n < g_b.len()
                    &&& g_b.nodes@[n].edges is Nothing
                    &&& !sset.contains(mate(n))
                    &&& g_b.positive_out(mate(n))
                    &&& g_c.node_ok(n)
                } by {
                    assert(g_b.node_ok(mate(n)));
                }
                assert forall|x: int, y: int, d: int| sset.contains(x) && #[trigger] g_c.link(x, y, d) implies sset.contains(y) && g_c.link(y, x, d) by {}
                lemma_fill_nodes(&g_b, &g_c, sset);
                assert forall|k: int| 0 <= k < p_a.len() implies (#[trigger] p_a[k]).1 < g_c.len() && g_c.positive_out(mate(p_a[k].1 as int)) by {
                    assert(!sset.contains(mate(p_a[k].1 as int)));
                }
                assert forall|k: int| 0 <= k < p_a.len() implies g_c.nodes@[(#[trigger] p_a[k]).1 as int].edges is Nothing by {
                    assert(g_b.nodes@[p_a[k].1 as int].edges is Nothing);
                }
            }
            self.edge_tracks.set(start_b, Some(Interval { track_idx: i, start: 0, end: len }));
            proof {
                lemma_new_track_interval(tr_b, start_b as int, Interval { track_idx: i, start: 0, end: len }, i as int);
                assert forall|t: int| 0 <= t < i + 1 implies partitions(self.edge_tracks@, t, (#[trigger] tracks@[t]).0 as int) by {
                    if t < i {
                        assert(partitions(tr_b, t, tracks@[t].0 as int));
                    }
                }
                let t = self.edge_tracks@;
                let g = self.dgraph;
                assert forall|n: int| 0 <= n < t.len() implies (#[trigger] t[n] matches Some(iv) ==> {
                    &&& iv.start <= iv.end
                    &&& g.nodes@[n].edges matches Edges::Single(_, d) && d == iv.end - iv.start
                }) by {
                    if n != start_b && n != end_a {
                        assert(same_node(g.nodes@[n], g_b.nodes@[n]));
                    }
                }
            }
            set_port(&mut ports, a, start_a);
            proof {
                assert(g_c.positive_out(start_b as int));
                lemma_set_port(p_a, ports@, &g_c, a, start_a);
            }
            let ghost p_b = ports@;
            set_port(&mut ports, b, end_b);
            proof {
                assert(g_c.positive_out(end_a as int));
                assert forall|k: int| 0 <= k < p_b.len() implies (#[trigger] p_b[k]).1 != end_b && p_b[k].1 != mate(end_b as int) by {
                    if p_b[k] != (a, start_a) {
                        let m = choose|m: int| 0 <= m < p_a.len() && p_a[m] == p_b[k];
                        assert(p_a[m].1 < g_a.len());
                    }
                }
                lemma_set_port(p_b, ports@, &g_c, b, end_b);
                assert forall|t: int| 0 <= t < i + 1 implies has_port(ports@, (#[trigger] tracks@[t]).1) && has_port(ports@, tracks@[t].2) by {
                    if t < i {
                        assert(has_port(p_a, tracks@[t].1));
                        assert(has_port(p_b, tracks@[t].1));
                        assert(has_port(p_a, tracks@[t].2));
                        assert(has_port(p_b, tracks@[t].2));
                    } else {
                        assert(has_port(p_b, a));
                    }
                }
            }
            let ghost g_d = self.dgraph;
            let ghost tr_d = self.edge_tracks@;
            let ghost d_d = acc.detector_nodes@;
            proof {
                assert forall|m: int, t2: int, x: int| #[trigger] starts_at(tr_a, m, t2, x) implies starts_at(tr_d, m, t2, x) by {
                    assert(tr_d[m] == tr_a[m]);
                }
                lemma_detectors_placed_kept(trackobjects@, tracks@, i as int, tr_a, d_d, tr_d, d_d);
            }
            proof {
                assert forall|o: int| 0 <= o < g_d.objects@.len() implies !(#[trigger] g_d.objects@[o] is Sight) by {
                    assert(g_d.objects@[o] == g_a.objects@[o]);
                }
            }
            self.place_track_objects(i, start_b, end_a, len, &trackobjects[i], acc);
            proof {
                if no_track_objects(trackobjects@) {
                    assert(trackobjects@[i as int]@.len() == 0);
                    let g = self.dgraph;
                    assert forall|t: int| 0 <= t < i + 1 implies bare_track(&g, t, (#[trigger] tracks@[t]).0) by {
                        if t < i {
                            assert(bare_track(&g_a, t, tracks@[t].0));
                            assert(g_b.nodes@[4 * t + 1] == g_a.nodes@[4 * t + 1]);
                            assert(g_b.nodes@[4 * t + 2] == g_a.nodes@[4 * t + 2]);
                            assert(g.nodes@[4 * t + 1].edges == g_a.nodes@[4 * t + 1].edges);
                            assert(g.nodes@[4 * t + 2].edges == g_a.nodes@[4 * t + 2].edges);
                        }
                    }
                    assert forall|k: int| 0 <= k < ports@.len() implies (#[trigger] ports@[k]).1 % 4 == 0 || ports@[k].1 % 4 == 3 by {
                        if ports@[k] != (a, start_a) && ports@[k] != (b, end_b) {
                            assert(p_b.contains(ports@[k]));
                            let w = choose|w: int| 0 <= w < p_b.len() && p_b[w] == ports@[k];
                            assert(p_a.contains(p_b[w]));
                            let v = choose|v: int| 0 <= v < p_a.len() && p_a[v] == p_b[w];
                            assert(p_a[v].1 % 4 == 0 || p_a[v].1 % 4 == 3);
                        }
                    }
                }
                lemma_detectors_placed_kept(trackobjects@, tracks@, i as int, tr_d, d_d, self.edge_tracks@, acc.detector_nodes@);
                assert forall|t: int, x: int| 0 <= t < i + 1 && 0 <= x < trackobjects@[t]@.len() implies crate::tracks::detector_placed(
                    #[trigger] trackobjects@[t]@[x],
                    t,
                    tracks@[t].0 as int,
                    self.edge_tracks@,
                    acc.detector_nodes@,
                ) by {
                    if t == i {
                        assert(crate::tracks::detector_placed(trackobjects@[i as int]@[x], i as int, len as int, self.edge_tracks@, acc.detector_nodes@));
                    }
                }
                lemma_signals_placed_kept(trackobjects@, i as int, &g_a, &self.dgraph);
                assert forall|t: int, x: int| 0 <= t < i + 1 && 0 <= x < trackobjects@[t]@.len() implies signal_placed(#[trigger] trackobjects@[t]@[x], &self.dgraph) by {
                    if t == i {
                        assert(signal_placed(trackobjects@[i as int]@[x], &self.dgraph));
                    }
                }
                lemma_ports_grow(ports@, &g_d, &self.dgraph);
            }
            i += 1;
        }
        let ghost n_len = self.dgraph.nodes@.len();
        let ghost o_base = self.dgraph.objects@.len();
        let mut j: usize = 0;
        while j < nodes.len()
            invariant
                self.wf(),
                acc.wf(&self.dgraph),
                no_sights(&self.dgraph),
                signals_placed(trackobjects@, trackobjects@.len() as int, &self.dgraph),
                forall|t: int| 0 <= t < tracks@.len() ==> partitions(self.edge_tracks@, t, (#[trigger] tracks@[t]).0 as int),
                detectors_placed(trackobjects@, tracks@, tracks@.len() as int, self.edge_tracks@, acc.detector_nodes@),
                injective(id_pairs(node_ids)),
                injective(id_pairs(switch_ids)),
                names_exact(ports@, nodes@, j as int, &self.dgraph, id_pairs(node_ids), id_pairs(switch_ids)),
                no_track_objects(trackobjects@) ==> bare_network(tracks@, ports@, &self.dgraph, tracks@.len() as int)
                    && acc.signals@ == old(acc).signals@,
                parts_ok(tracks@, nodes@, trackobjects@),
                j <= nodes@.len(),
                ports_ok(ports@, &self.dgraph),
                forall|k: int| 0 <= k < ports@.len() && !processed(nodes@, j as int, (#[trigger] ports@[k]).0.0)
                    ==> self.dgraph.nodes@[ports@[k].1 as int].edges is Nothing,
                forall|t: int| 0 <= t < tracks@.len() ==> has_port(ports@, (#[trigger] tracks@[t]).1) && has_port(ports@, tracks@[t].2),
                self.dgraph.nodes@.len() == n_len,
                n_len <= node_bound(trackobjects@, tracks@.len() as int),
                self.dgraph.objects@.len() <= o_base + 4 * j,
                o_base <= objects_total(trackobjects@, tracks@.len() as int),
                forall|m: int| 0 <= m < j ==> location_done(ports@, &self.dgraph, (#[trigger] nodes@[m]).0, nodes@[m].1.0),
                forall|m: int| 0 <= m < j ==> open_end_named(ports@, id_pairs(node_ids), #[trigger] nodes@[m]),
                forall|m: int| 0 <= m < j && (#[trigger] nodes@[m]).1.0 == NDType::Crossing(CrossingType::Crossover)
                    ==> crossing_edges@.contains(crossing_edge(ports@, nodes@[m].0)),
                forall|e: (NodeId, NodeId)| #[trigger] crossing_edges@.contains(e) ==> exists|m: int| 0 <= m < j
                    && (#[trigger] nodes@[m]).1.0 == NDType::Crossing(CrossingType::Crossover) && e == crossing_edge(ports@, nodes@[m].0),
            decreases nodes@.len() - j,
        {
            let (pt, (nd, _orientation)) = nodes[j];
            let ghost g0 = self.dgraph;
            let ghost ni0 = id_pairs(node_ids);
            let ghost si0 = id_pairs(switch_ids);
            let ghost ce0 = crossing_edges@;
            proof {
                assert forall|k: int| 0 <= k < ports@.len() && (#[trigger] ports@[k]).0.0 == pt implies g0.nodes@[ports@[k].1 as int].edges is Nothing by {
                    if processed(nodes@, j as int, pt) {
                        let m = choose|m: int| 0 <= m < j && (#[trigger] nodes@[m]).0 == pt;
                        assert(nodes@[m].0 != nodes@[j as int].0);
                    }
                }
                assert forall|p: int| 0 <= p < required_ports(nd).len() implies has_port(ports@, (pt, #[trigger] required_ports(nd)[p])) by {
                    assert(port_present(tracks@, (nodes@[j as int].0, required_ports(nodes@[j as int].1.0)[p])));
                    let t = choose|t: int| 0 <= t < tracks@.len() && (#[trigger] tracks@[t].1 == (pt, required_ports(nd)[p])
                        || tracks@[t].2 == (pt, required_ports(nd)[p]));
                    assert(tracks@[t].1 == (pt, required_ports(nd)[p]) || tracks@[t].2 == (pt, required_ports(nd)[p]));
                }
            }
            self.place_location(&ports, pt, nd, &mut node_ids, &mut switch_ids, &mut crossing_edges);
            proof {
                let g = self.dgraph;
                lemma_signals_placed_kept(trackobjects@, trackobjects@.len() as int, &g0, &g);
                if nd == NDType::OpenEnd {
                    lemma_put_injective(ni0, port_node(ports@, (pt, Port::End)) as usize, pt);
                }
                if nd is Sw {
                    lemma_put_injective(si0, g.nodes@[port_node(ports@, (pt, Port::Trunk))].edges->Switchable_0, pt);
                }
                assert forall|o: int| 0 <= o < g.objects@.len() implies !(#[trigger] g.objects@[o] is Sight) by {
                    if o < g0.objects@.len() {
                        assert(g.objects@[o] == g0.objects@[o]);
                    }
                }
                lemma_attachments_grow(acc, &g0, &g);
                assert forall|k: int| 0 <= k < ports@.len() implies (#[trigger] ports@[k]).1 < g.len() && g.positive_out(mate(ports@[k].1 as int)) by {
                    let mk = mate(ports@[k].1 as int);
                    if port_of(ports@, pt, mk) {
                        let k2 = choose|k2: int| 0 <= k2 < ports@.len() && (#[trigger] ports@[k2]).0.0 == pt && ports@[k2].1 == mk;
                        assert(ports@[k2].1 != mate(ports@[k].1 as int));
                    }
                    lemma_same_node_links(&g0, &g, mk);
                }
                assert forall|k: int| 0 <= k < ports@.len() && !processed(nodes@, j + 1, (#[trigger] ports@[k]).0.0)
                    implies g.nodes@[ports@[k].1 as int].edges is Nothing by {
                    let nk = ports@[k].1 as int;
                    assert(ports@[k].0.0 != pt);
                    if port_of(ports@, pt, nk) {
                        let k2 = choose|k2: int| 0 <= k2 < ports@.len() && (#[trigger] ports@[k2]).0.0 == pt && ports@[k2].1 == nk;
                        assert(k2 != k);
                    }
                    assert(!processed(nodes@, j as int, ports@[k].0.0));
                    lemma_same_node_links(&g0, &g, nk);
                }
                // Earlier points keep their shapes and names.
                assert forall|m: int| 0 <= m < j + 1 implies location_done(ports@, &g, (#[trigger] nodes@[m]).0, nodes@[m].1.0)
                    && open_end_named(ports@, id_pairs(node_ids), nodes@[m]) by {
                    if m < j {
                        let ptm = nodes@[m].0;
                        let ndm = nodes@[m].1.0;
                        assert(ptm != pt);
                        lemma_required_present(tracks@, nodes@, trackobjects@, ports@, m);
                        assert forall|n: int| #[trigger] shape_nodes(ports@, ptm, ndm).contains(n) implies g.nodes@[n].edges == g0.nodes@[n].edges by {
                            if !(ndm == NDType::BufferStop || ndm == NDType::Error) {
                                let p = choose|p: int| 0 <= p < required_ports(ndm).len() && n == port_node(ports@, (ptm, #[trigger] required_ports(ndm)[p]));
                                lemma_has_port_node(ports@, (ptm, required_ports(ndm)[p]));
                            }
                            let k1 = choose|k1: int| 0 <= k1 < ports@.len() && (#[trigger] ports@[k1]).0.0 == ptm && ports@[k1].1 == n;
                            if port_of(ports@, pt, n) {
                                let k2 = choose|k2: int| 0 <= k2 < ports@.len() && (#[trigger] ports@[k2]).0.0 == pt && ports@[k2].1 == n;
                                assert(k1 != k2);
                            }
                        }
                        lemma_location_done_kept(ports@, &g0, &g, ptm, ndm);
                        if ndm == NDType::OpenEnd {
                            let e = port_node(ports@, (ptm, Port::End));
                            assert(open_end_named(ports@, ni0, nodes@[m]));
                            if nd == NDType::OpenEnd {
                                assert(required_ports(ndm)[0] == Port::End);
                                lemma_has_port_node(ports@, (ptm, Port::End));
                                let k1 = choose|k1: int| 0 <= k1 < ports@.len() && (#[trigger] ports@[k1]).0.0 == ptm && ports@[k1].1 == e;
                                lemma_required_present(tracks@, nodes@, trackobjects@, ports@, j as int);
                                assert(required_ports(nd)[0] == Port::End);
                                lemma_has_port_node(ports@, (pt, Port::End));
                                let e2 = port_node(ports@, (pt, Port::End));
                                let k2 = choose|k2: int| 0 <= k2 < ports@.len() && (#[trigger] ports@[k2]).0.0 == pt && ports@[k2].1 == e2;
                                assert(k1 != k2);
                                assert(e != e2);
                            }
                        }
                    }
                }
                if no_track_objects(trackobjects@) {
                    lemma_bare_kept(tracks@, ports@, &g0, &g, pt);
                }
                // The maps name exactly the open ends and switches so far.
                assert forall|m: int| 0 <= m < j && (#[trigger] nodes@[m]).1.0 is Sw implies switch_object(ports@, &g, nodes@[m].0)
                    == switch_object(ports@, &g0, nodes@[m].0) && switch_object(ports@, &g0, nodes@[m].0) < g0.objects@.len() by {
                    assert(nodes@[m].0 != pt);
                    lemma_required_present(tracks@, nodes@, trackobjects@, ports@, m);
                    assert(required_ports(nodes@[m].1.0)[2] == Port::Trunk);
                    lemma_other_point_kept(ports@, &g0, &g, pt, (nodes@[m].0, Port::Trunk));
                    assert(g0.node_ok(port_node(ports@, (nodes@[m].0, Port::Trunk))));
                }
                assert forall|m: int| 0 <= m < j && (#[trigger] nodes@[m]).1.0 == NDType::OpenEnd implies port_node(ports@, (nodes@[m].0, Port::End))
                    != port_node(ports@, (pt, Port::End)) || nd != NDType::OpenEnd by {
                    if nd == NDType::OpenEnd {
                        assert(nodes@[m].0 != pt);
                        lemma_required_present(tracks@, nodes@, trackobjects@, ports@, m);
                        assert(required_ports(nodes@[m].1.0)[0] == Port::End);
                        lemma_required_present(tracks@, nodes@, trackobjects@, ports@, j as int);
                        assert(required_ports(nd)[0] == Port::End);
                        lemma_ports_distinct_pub(ports@, &g0, (nodes@[m].0, Port::End), (pt, Port::End));
                    }
                }
                assert forall|k: usize| #[trigger] id_pairs(node_ids).contains_key(k) implies exists|m: int|
                    0 <= m < j + 1 && (#[trigger] nodes@[m]).1.0 == NDType::OpenEnd && k == port_node(ports@, (nodes@[m].0, Port::End)) as usize by {
                    if !(nd == NDType::OpenEnd && k == port_node(ports@, (pt, Port::End)) as usize) {
                        assert(ni0.contains_key(k));
                    }
                }
                assert forall|m: int| 0 <= m < j + 1 && (#[trigger] nodes@[m]).1.0 is Sw implies id_pairs(switch_ids).contains_key(switch_object(ports@, &g, nodes@[m].0))
                    && id_pairs(switch_ids)[switch_object(ports@, &g, nodes@[m].0)] == nodes@[m].0 by {
                    if m < j {
                        assert(nodes@[m].0 != pt);
                        assert(si0.contains_key(switch_object(ports@, &g0, nodes@[m].0)));
                    }
                }
                assert forall|k: usize| #[trigger] id_pairs(switch_ids).contains_key(k) implies exists|m: int|
                    0 <= m < j + 1 && (#[trigger] nodes@[m]).1.0 is Sw && k == switch_object(ports@, &g, nodes@[m].0) by {
                    if !(nd is Sw && k == switch_object(ports@, &g, pt)) {
                        assert(si0.contains_key(k));
                        let m = choose|m: int| 0 <= m < j && (#[trigger] nodes@[m]).1.0 is Sw && k == switch_object(ports@, &g0, nodes@[m].0);
                        assert(switch_object(ports@, &g, nodes@[m].0) == switch_object(ports@, &g0, nodes@[m].0));
                    }
                }
                assert forall|m: int| 0 <= m < j + 1 && (#[trigger] nodes@[m]).1.0 == NDType::Crossing(CrossingType::Crossover)
                    implies crossing_edges@.contains(crossing_edge(ports@, nodes@[m].0)) by {
                    if m < j {
                        assert(ce0.contains(crossing_edge(ports@, nodes@[m].0)));
                        let w = choose|w: int| 0 <= w < ce0.len() && ce0[w] == crossing_edge(ports@, nodes@[m].0);
                        assert(crossing_edges@[w] == ce0[w]);
                    } else {
                        assert(crossing_edges@[ce0.len() as int] == crossing_edge(ports@, pt));
                    }
                }
                assert forall|e: (NodeId, NodeId)| #[trigger] crossing_edges@.contains(e) implies exists|m: int| 0 <= m < j + 1
                    && (#[trigger] nodes@[m]).1.0 == NDType::Crossing(CrossingType::Crossover) && e == crossing_edge(ports@, nodes@[m].0) by {
                    let w = choose|w: int| 0 <= w < crossing_edges@.len() && crossing_edges@[w] == e;
                    if w < ce0.len() {
                        assert(ce0[w] == e);
                        assert(ce0.contains(e));
                    } else {
                        assert(nodes@[j as int].1.0 == NDType::Crossing(CrossingType::Crossover));
                    }
                }
            }
            j += 1;
        }
        proof {
            assert forall|t: int| 0 <= t < tracks@.len() implies has_port(ports@, (#[trigger] tracks@[t]).1) && has_port(ports@, tracks@[t].2) by {}
        }
        (node_ids, switch_ids, crossing_edges, ports)
    }
}

/// The fixed-crossing edge of a crossing at `pt`: between the two ends of
/// its first line.
pub open spec fn crossing_edge(ports: Seq<((Pt, Port), NodeId)>, pt: Pt) -> (NodeId, NodeId) {
    (port_node(ports, (pt, Port::Cross(AB::A, 0))) as usize, port_node(ports, (pt, Port::Cross(AB::A, 1))) as usize)
}

/// An open end's node is named by its point.
pub open spec fn open_end_named(ports: Seq<((Pt, Port), NodeId)>, names: Map<usize, (i32, i32)>, loc: Location) -> bool {
    loc.1.0 == NDType::OpenEnd ==> {
        let n = port_node(ports, (loc.0, Port::End)) as usize;
        names.contains_key(n) && names[n] == loc.0
    }
}

/// The network is built: every track end has a node, every point has its
/// shape and open ends their names, and the fixed crossings are listed.
pub open spec fn network_done(
    tracks: Seq<Track>,
    locs: Seq<Location>,
    ports: Seq<((Pt, Port), NodeId)>,
    g: &StaticInfrastructure,
    names: Map<usize, (i32, i32)>,
    crossings: Seq<(NodeId, NodeId)>,
) -> bool {
    &&& forall|t: int| 0 <= t < tracks.len() ==> has_port(ports, (#[trigger] tracks[t]).1) && has_port(ports, tracks[t].2)
    &&& forall|i: int| 0 <= i < ports.len() ==> (#[trigger] ports[i]).1 < g.len()
    &&& forall|m: int| 0 <= m < locs.len() ==> location_done(ports, g, (#[trigger] locs[m]).0, locs[m].1.0)
    &&& forall|m: int| 0 <= m < locs.len() ==> open_end_named(ports, names, #[trigger] locs[m])
    &&& forall|m: int| 0 <= m < locs.len() && (#[trigger] locs[m]).1.0 == NDType::Crossing(CrossingType::Crossover)
        ==> crossings.contains(crossing_edge(ports, locs[m].0))
    &&& forall|e: (NodeId, NodeId)| #[trigger] crossings.contains(e) ==> exists|m: int| 0 <= m < locs.len()
        && (#[trigger] locs[m]).1.0 == NDType::Crossing(CrossingType::Crossover) && e == crossing_edge(ports, locs[m].0)
}

/// The ports a listed point's shape needs are in the port table.
pub(crate) proof fn lemma_required_present(
    tracks: Seq<Track>,
    locs: Seq<Location>,
    trackobjects: Seq<Vec<TrackObject>>,
    ports: Seq<((Pt, Port), NodeId)>,
    m: int,
)
    requires
        parts_ok(tracks, locs, trackobjects),
        0 <= m < locs.len(),
        forall|t: int| 0 <= t < tracks.len() ==> has_port(ports, (#[trigger] tracks[t]).1) && has_port(ports, tracks[t].2),
    ensures
        forall|p: int| 0 <= p < required_ports(locs[m].1.0).len() ==> has_port(ports, (locs[m].0, #[trigger] required_ports(locs[m].1.0)[p])),
{
    assert forall|p: int| 0 <= p < required_ports(locs[m].1.0).len() implies has_port(ports, (locs[m].0, #[trigger] required_ports(locs[m].1.0)[p])) by {
        let key = (locs[m].0, required_ports(locs[m].1.0)[p]);
        assert(port_present(tracks, key));
        let t = choose|t: int| 0 <= t < tracks.len() && (#[trigger] tracks[t].1 == key || tracks[t].2 == key);
        assert(has_port(ports, tracks[t].1) && has_port(ports, tracks[t].2));
    }
}

/// The switch object that the trunk of point `pt` leads into.
pub open spec fn switch_object(ports: Seq<((Pt, Port), NodeId)>, g: &StaticInfrastructure, pt: Pt) -> usize {
    g.nodes@[port_node(ports, (pt, Port::Trunk))].edges->Switchable_0
}

/// The open-end map holds exactly the open ends of the first `n` points,
/// and the switch map exactly the switch objects of their switches, each
/// named by its point.
pub open spec fn names_exact(
    ports: Seq<((Pt, Port), NodeId)>,
    locs: Seq<Location>,
    n: int,
    g: &StaticInfrastructure,
    names: Map<usize, (i32, i32)>,
    switches: Map<usize, (i32, i32)>,
) -> bool {
    &&& forall|k: usize| #[trigger] names.contains_key(k) ==> exists|m: int|
        0 <= m < n && (#[trigger] locs[m]).1.0 == NDType::OpenEnd && k == port_node(ports, (locs[m].0, Port::End)) as usize
    &&& forall|m: int| 0 <= m < n && (#[trigger] locs[m]).1.0 is Sw ==> switches.contains_key(switch_object(ports, g, locs[m].0))
        && switches[switch_object(ports, g, locs[m].0)] == locs[m].0
    &&& forall|k: usize| #[trigger] switches.contains_key(k) ==> exists|m: int|
        0 <= m < n && (#[trigger] locs[m]).1.0 is Sw && k == switch_object(ports, g, locs[m].0)
}

/// A port node of another point keeps its links while point `pt` gets its
/// shape.
proof fn lemma_other_point_kept(
    ports: Seq<((Pt, Port), NodeId)>,
    g0: &StaticInfrastructure,
    g: &StaticInfrastructure,
    pt: Pt,
    key: (Pt, Port),
)
    requires
        ports_ok(ports, g0),
        has_port(ports, key),
        key.0 != pt,
        g.nodes@.len() == g0.nodes@.len(),
        forall|n: int| 0 <= n < g0.len() && !port_of(ports, pt, n) ==> same_node(#[trigger] g.nodes@[n], g0.nodes@[n]),
    ensures
        g.nodes@[port_node(ports, key)].edges == g0.nodes@[port_node(ports, key)].edges,
        0 <= port_node(ports, key) < g0.len(),
{
    lemma_has_port_node(ports, key);
    let n = port_node(ports, key);
    let k1 = choose|k1: int| 0 <= k1 < ports.len() && ports[k1].0 == key && ports[k1].1 == n;
    assert(ports[k1].1 < g0.len());
    if port_of(ports, pt, n) {
        let k2 = choose|k2: int| 0 <= k2 < ports.len() && (#[trigger] ports[k2]).0.0 == pt && ports[k2].1 == n;
        assert(k1 != k2);
    }
    assert(same_node(g.nodes@[n], g0.nodes@[n]));
}

/// No track carries an object.
pub open spec fn no_track_objects(trackobjects: Seq<Vec<TrackObject>>) -> bool {
    forall|t: int| 0 <= t < trackobjects.len() ==> (#[trigger] trackobjects[t])@.len() == 0
}

/// Without track objects, track `t` has the nodes `4t .. 4t+3`: its inner
/// nodes `4t+1` and `4t+2` are joined both ways by a plain link of the
/// track's length.
pub open spec fn bare_track(g: &StaticInfrastructure, t: int, len: u64) -> bool {
    &&& g.nodes@[4 * t + 1].edges == Edges::Single((4 * t + 2) as usize, len)
    &&& g.nodes@[4 * t + 2].edges == Edges::Single((4 * t + 1) as usize, len)
}

/// Without track objects the network has four nodes per track, each track
/// is one plain link between its inner nodes, and the port nodes are the
/// outer ones.
pub open spec fn bare_network(tracks: Seq<Track>, ports: Seq<((Pt, Port), NodeId)>, g: &StaticInfrastructure, n: int) -> bool {
    &&& g.nodes@.len() == 4 * n
    &&& forall|t: int| 0 <= t < n ==> bare_track(g, t, (#[trigger] tracks[t]).0)
    &&& forall|i: int| 0 <= i < ports.len() ==> (#[trigger] ports[i]).1 % 4 == 0 || ports[i].1 % 4 == 3
}

/// Giving a point its shape, which changes only its port nodes, keeps a
/// network without track objects as it was.
proof fn lemma_bare_kept(tracks: Seq<Track>, ports: Seq<((Pt, Port), NodeId)>, g0: &StaticInfrastructure, g: &StaticInfrastructure, pt: Pt)
    requires
        bare_network(tracks, ports, g0, tracks.len() as int),
        g.nodes@.len() == g0.nodes@.len(),
        forall|n: int| 0 <= n < g0.len() && !port_of(ports, pt, n) ==> same_node(#[trigger] g.nodes@[n], g0.nodes@[n]),
    ensures
        bare_network(tracks, ports, g, tracks.len() as int),
{
    assert forall|t: int| 0 <= t < tracks.len() implies bare_track(g, t, (#[trigger] tracks[t]).0) by {
        assert(bare_track(g0, t, tracks[t].0));
        assert forall|q: int| q == 4 * t + 1 || q == 4 * t + 2 implies !port_of(ports, pt, q) by {
            if port_of(ports, pt, q) {
                let k = choose|k: int| 0 <= k < ports.len() && (#[trigger] ports[k]).0.0 == pt && ports[k].1 == q;
                assert(ports[k].1 % 4 == 0 || ports[k].1 % 4 == 3);
            }
        }
        assert(same_node(g.nodes@[4 * t + 1], g0.nodes@[4 * t + 1]));
        assert(same_node(g.nodes@[4 * t + 2], g0.nodes@[4 * t + 2]));
    }
}

} // verus!
