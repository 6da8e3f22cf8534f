use glrail::builder::{DGraphBuilder, Interval};
use glrail::cursor::{out_edges, Cursor};
use glrail::infra::edge_length;
use glrail::tracks::{add_pair, sorted_order};
use glrail::dgraph::DGraph;
use glrail::infra::{Edges, StaticObject, SwitchPosition};
use glrail::model::{CrossingType, Function, NDType, Port, Side, Topology, TrackObject, AB};

fn open_end(pt: (i32, i32)) -> ((i32, i32), (NDType, (i32, i32))) {
    (pt, (NDType::OpenEnd, (1, 0)))
}

fn straight(len: u64, objs: Vec<TrackObject>) -> Topology {
    Topology {
        tracks: vec![(len, ((0, 0), Port::End), ((10, 0), Port::End))],
        locations: vec![open_end((0, 0)), open_end((10, 0))],
        trackobjects: vec![objs],
    }
}

fn sights(g: &DGraph) -> Vec<(u64, usize)> {
    g.rolling_inf
        .objects
        .iter()
        .filter_map(|o| match o {
            StaticObject::Sight { distance, signal } => Some((*distance, *signal)),
            _ => None,
        })
        .collect()
}

fn switch_count(g: &DGraph) -> usize {
    g.rolling_inf.objects.iter().filter(|o| matches!(o, StaticObject::Switch { .. })).count()
}

fn check_pairs_and_symmetry(g: &DGraph) {
    let nodes = &g.rolling_inf.nodes;
    for (i, n) in nodes.iter().enumerate() {
        assert_eq!(nodes[n.other_node].other_node, i);
        if let Edges::Single(b, d) = n.edges {
            if let Edges::Single(a, d2) = nodes[b].edges {
                if a == i {
                    assert_eq!(d, d2);
                }
            }
        }
    }
}

#[test]
fn straight_track_between_open_ends() {
    let g = DGraphBuilder::convert(&straight(1000, vec![]));
    let nodes = &g.rolling_inf.nodes;
    assert_eq!(nodes.len(), 4);
    assert_eq!(nodes[0].edges, Edges::ModelBoundary);
    assert_eq!(nodes[1].edges, Edges::Single(2, 1000));
    assert_eq!(nodes[2].edges, Edges::Single(1, 1000));
    assert_eq!(nodes[3].edges, Edges::ModelBoundary);
    let intervals: Vec<(usize, Interval)> =
        g.edge_tracks.iter().enumerate().filter_map(|(i, t)| t.map(|iv| (i, iv))).collect();
    assert_eq!(intervals, vec![(1, Interval { track_idx: 0, start: 0, end: 1000 })]);
    assert_eq!(g.node_ids.get_by_left(&0), Some(&(0, 0)));
    assert_eq!(g.node_ids.get_by_left(&3), Some(&(10, 0)));
    assert_eq!(g.node_ids.len(), 2);
    assert!(g.rolling_inf.objects.is_empty());
    assert!(g.signals.is_empty());
    check_pairs_and_symmetry(&g);
}

#[test]
fn model_boundaries_bound_sections() {
    let g = DGraphBuilder::convert(&straight(1000, vec![]));
    assert!(g.detector_nodes.contains(&(0, 1)));
    assert!(g.detector_nodes.contains(&(3, 2)));
    assert_eq!(g.detector_nodes.len(), 2);
}

#[test]
fn advance_reaches_track_end() {
    let g = DGraphBuilder::convert(&straight(1000, vec![]));
    let c = Cursor::Node(1).advance_single(&g.rolling_inf, 1000);
    assert_eq!(c, Some(Cursor::Node(3)));
    let c = Cursor::Node(1).advance_single(&g.rolling_inf, 400);
    assert_eq!(c, Some(Cursor::Edge((1, 2), 600)));
    // Past the open end there is nowhere to go.
    assert_eq!(Cursor::Node(1).advance_single(&g.rolling_inf, 1001), None);
}

#[test]
fn split_keeps_length_and_reach() {
    let objs = vec![(300, (1, 0), Function::Detector, None)];
    let g = DGraphBuilder::convert(&straight(1000, objs));
    let nodes = &g.rolling_inf.nodes;
    assert_eq!(nodes.len(), 6);
    assert_eq!(nodes[1].edges, Edges::Single(4, 300));
    assert_eq!(nodes[4].edges, Edges::Single(1, 300));
    assert_eq!(nodes[5].edges, Edges::Single(2, 700));
    assert_eq!(nodes[2].edges, Edges::Single(5, 700));
    assert_eq!(g.edge_tracks[1], Some(Interval { track_idx: 0, start: 0, end: 300 }));
    assert_eq!(g.edge_tracks[5], Some(Interval { track_idx: 0, start: 300, end: 1000 }));
    assert_eq!(Cursor::Node(1).advance_single(&g.rolling_inf, 1000), Some(Cursor::Node(3)));
    assert!(g.detector_nodes.contains(&(5, 4)));
    assert_eq!(g.detector_ids.get_by_right(&(1, 0)), Some(&4));
    check_pairs_and_symmetry(&g);
}

#[test]
fn objects_attach_in_offset_order() {
    let objs = vec![
        (600, (6, 0), Function::Detector, None),
        (200, (2, 0), Function::Detector, None),
    ];
    let g = DGraphBuilder::convert(&straight(1000, objs));
    let nodes = &g.rolling_inf.nodes;
    assert_eq!(nodes[1].edges, Edges::Single(4, 200));
    assert_eq!(nodes[5].edges, Edges::Single(6, 400));
    assert_eq!(nodes[7].edges, Edges::Single(2, 400));
    assert_eq!(g.edge_tracks[5], Some(Interval { track_idx: 0, start: 200, end: 600 }));
}

#[test]
fn signal_on_straight_approach_is_sighted_at_full_distance() {
    let objs = vec![(500, (5, 0), Function::MainSignal { has_distant: false }, Some(AB::A))];
    let g = DGraphBuilder::convert(&straight(1000, objs));
    assert!(matches!(g.rolling_inf.objects[0], StaticObject::Signal { has_distant: false }));
    assert_eq!(sights(&g), vec![(200, 0)]);
    assert_eq!(g.signals.len(), 1);
    assert_eq!(g.signals[0].2, 0);
    assert_eq!(g.object_ids.get_by_left(&0), Some(&(5, 0)));
    // The sight sits 300 from the track start, facing the signal.
    assert_eq!(g.rolling_inf.nodes[6].edges, Edges::Single(1, 300));
    assert_eq!(g.rolling_inf.nodes[7].edges, Edges::Single(4, 200));
    assert_eq!(g.rolling_inf.nodes[7].objects, vec![1]);
    check_pairs_and_symmetry(&g);
}

#[test]
fn signal_near_track_start_sees_only_what_is_there() {
    let objs = vec![(120, (1, 0), Function::ShiftingSignal { has_distant: true }, Some(AB::A))];
    let g = DGraphBuilder::convert(&straight(1000, objs));
    assert_eq!(sights(&g), vec![(120, 0)]);
}

#[test]
fn signal_facing_backwards_looks_the_other_way() {
    let objs = vec![(900, (9, 0), Function::MainSignal { has_distant: false }, Some(AB::B))];
    let g = DGraphBuilder::convert(&straight(1000, objs));
    assert_eq!(sights(&g), vec![(100, 0)]);
}

/// A switch at point (10,0): trunk towards (0,0), branches to (20,1) and (20,-1).
fn switch_topology(objs_on_left_branch: Vec<TrackObject>) -> Topology {
    Topology {
        tracks: vec![
            (1000, ((0, 0), Port::End), ((10, 0), Port::Trunk)),
            (1000, ((10, 0), Port::Left), ((20, 1), Port::End)),
            (1000, ((10, 0), Port::Right), ((20, -1), Port::End)),
        ],
        locations: vec![
            open_end((0, 0)),
            ((10, 0), (NDType::Sw(Side::Left), (1, 0))),
            open_end((20, 1)),
            open_end((20, -1)),
        ],
        trackobjects: vec![vec![], objs_on_left_branch, vec![]],
    }
}

#[test]
fn switch_has_two_zero_length_branches() {
    let g = DGraphBuilder::convert(&switch_topology(vec![]));
    let nodes = &g.rolling_inf.nodes;
    // Track 0 ends at node 3 (trunk); track 1 starts at node 4, track 2 at node 8.
    assert_eq!(nodes[3].edges, Edges::Switchable(0));
    assert_eq!(nodes[4].edges, Edges::Single(3, 0));
    assert_eq!(nodes[8].edges, Edges::Single(3, 0));
    match g.rolling_inf.objects[0] {
        StaticObject::Switch { left_link, right_link, branch_side } => {
            assert_eq!(left_link, (4, 0));
            assert_eq!(right_link, (8, 0));
            assert_eq!(branch_side, SwitchPosition::Left);
        }
        _ => panic!("expected a switch"),
    }
    assert_eq!(g.switch_ids.get_by_left(&0), Some(&(10, 0)));
    assert_eq!(g.switch_ids.len(), 1);
    assert_eq!(switch_count(&g), 1);
    check_pairs_and_symmetry(&g);
}

#[test]
fn facing_switch_truncates_sighting() {
    let objs = vec![(50, (11, 0), Function::MainSignal { has_distant: false }, Some(AB::A))];
    let g = DGraphBuilder::convert(&switch_topology(objs));
    assert_eq!(sights(&g), vec![(50, 0)]);
}

#[test]
fn trailing_switch_forks_sighting() {
    // A signal on the trunk track facing away from the switch sees both branches.
    let t = Topology {
        tracks: vec![
            (1000, ((10, 0), Port::Trunk), ((0, 0), Port::End)),
            (1000, ((10, 0), Port::Left), ((20, 1), Port::End)),
            (1000, ((10, 0), Port::Right), ((20, -1), Port::End)),
        ],
        locations: vec![
            open_end((0, 0)),
            ((10, 0), (NDType::Sw(Side::Right), (1, 0))),
            open_end((20, 1)),
            open_end((20, -1)),
        ],
        trackobjects: vec![vec![(100, (1, 0), Function::MainSignal { has_distant: false }, Some(AB::A))], vec![], vec![]],
    };
    let g = DGraphBuilder::convert(&t);
    let mut s = sights(&g);
    s.sort();
    assert_eq!(s, vec![(200, 0), (200, 0)]);
}

fn crossing(ct: CrossingType) -> Topology {
    let c = (10, 10);
    Topology {
        tracks: vec![
            (500, ((0, 10), Port::End), (c, Port::Cross(AB::A, 0))),
            (500, (c, Port::Cross(AB::A, 1)), ((20, 10), Port::End)),
            (500, ((10, 0), Port::End), (c, Port::Cross(AB::B, 0))),
            (500, (c, Port::Cross(AB::B, 1)), ((10, 20), Port::End)),
        ],
        locations: vec![
            open_end((0, 10)),
            open_end((20, 10)),
            open_end((10, 0)),
            open_end((10, 20)),
            (c, (NDType::Crossing(ct), (1, 0))),
        ],
        trackobjects: vec![vec![], vec![], vec![], vec![]],
    }
}

#[test]
fn double_slip_has_two_switchable_diagonals() {
    let g = DGraphBuilder::convert(&crossing(CrossingType::DoubleSlip));
    let nodes = &g.rolling_inf.nodes;
    // Cross(A,0)=3, Cross(A,1)=4, Cross(B,0)=11, Cross(B,1)=12
    assert!(matches!(nodes[3].edges, Edges::Switchable(_)));
    assert!(matches!(nodes[12].edges, Edges::Switchable(_)));
    assert!(matches!(nodes[11].edges, Edges::Switchable(_)));
    assert!(matches!(nodes[4].edges, Edges::Switchable(_)));
    assert_eq!(switch_count(&g), 4);
    assert_eq!(g.switch_ids.len(), 0);
    assert!(g.crossing_edges.is_empty());
    check_pairs_and_symmetry(&g);
}

#[test]
fn single_slip_has_one_switchable_diagonal() {
    let g = DGraphBuilder::convert(&crossing(CrossingType::SingleSlip(Side::Left)));
    let nodes = &g.rolling_inf.nodes;
    assert!(matches!(nodes[3].edges, Edges::Switchable(_)));
    assert!(matches!(nodes[12].edges, Edges::Switchable(_)));
    assert_eq!(nodes[11].edges, Edges::Single(3, 0));
    assert_eq!(nodes[4].edges, Edges::Single(12, 0));
    assert_eq!(switch_count(&g), 2);
    assert!(g.crossing_edges.is_empty());
    check_pairs_and_symmetry(&g);
}

#[test]
fn fixed_diamond_is_a_non_drivable_crossing() {
    let g = DGraphBuilder::convert(&crossing(CrossingType::Crossover));
    let nodes = &g.rolling_inf.nodes;
    assert_eq!(nodes[3].edges, Edges::Single(11, 0));
    assert_eq!(nodes[12].edges, Edges::Single(4, 0));
    assert_eq!(nodes[11].edges, Edges::Single(3, 0));
    assert_eq!(nodes[4].edges, Edges::Single(12, 0));
    assert_eq!(switch_count(&g), 0);
    assert_eq!(g.switch_ids.len(), 0);
    assert_eq!(g.crossing_edges, vec![(3, 4)]);
    check_pairs_and_symmetry(&g);
}

#[test]
fn pass_through_point_joins_tracks() {
    let t = Topology {
        tracks: vec![
            (300, ((0, 0), Port::End), ((5, 0), Port::ContA)),
            (400, ((5, 0), Port::ContB), ((10, 0), Port::End)),
        ],
        locations: vec![open_end((0, 0)), ((5, 0), (NDType::Cont, (1, 0))), open_end((10, 0))],
        trackobjects: vec![vec![], vec![]],
    };
    let g = DGraphBuilder::convert(&t);
    let nodes = &g.rolling_inf.nodes;
    assert_eq!(nodes[3].edges, Edges::Single(4, 0));
    assert_eq!(nodes[4].edges, Edges::Single(3, 0));
    assert_eq!(Cursor::Node(1).advance_single(&g.rolling_inf, 700), Some(Cursor::Node(7)));
    assert_eq!(Cursor::Node(1).advance_single(&g.rolling_inf, 500), Some(Cursor::Edge((5, 6), 200)));
}

#[test]
fn buffer_stop_is_a_dead_end_for_sighting() {
    let t = Topology {
        tracks: vec![(1000, ((0, 0), Port::End), ((10, 0), Port::End))],
        locations: vec![((0, 0), (NDType::BufferStop, (1, 0))), open_end((10, 0))],
        trackobjects: vec![vec![(150, (1, 0), Function::MainSignal { has_distant: false }, Some(AB::A))]],
    };
    let g = DGraphBuilder::convert(&t);
    assert_eq!(g.rolling_inf.nodes[0].edges, Edges::Nothing);
    assert_eq!(sights(&g), vec![(150, 0)]);
    assert_eq!(g.detector_nodes, vec![(3, 2)]);
}

#[test]
fn reverse_measures_from_the_other_end() {
    let g = DGraphBuilder::convert(&straight(1000, vec![]));
    assert_eq!(Cursor::Edge((1, 2), 300).reverse(&g.rolling_inf), Cursor::Edge((2, 1), 700));
    assert_eq!(Cursor::Node(1).reverse(&g.rolling_inf), Cursor::Node(0));
    assert_eq!(Cursor::Edge((1, 2), 300).nodes(&g.rolling_inf), (1, 2));
    assert_eq!(Cursor::Node(2).nodes(&g.rolling_inf), (2, 3));
}

#[test]
fn well_formed_topologies_are_recognised() {
    assert!(straight(1000, vec![]).is_well_formed());
    assert!(switch_topology(vec![]).is_well_formed());
    assert!(crossing(CrossingType::DoubleSlip).is_well_formed());
}

#[test]
fn zero_length_track_is_rejected() {
    assert!(!straight(0, vec![]).is_well_formed());
}

#[test]
fn object_beyond_track_end_is_rejected() {
    let objs = vec![(1001, (1, 0), Function::Detector, None)];
    assert!(!straight(1000, objs).is_well_formed());
    let objs = vec![(1000, (1, 0), Function::Detector, None)];
    assert!(straight(1000, objs).is_well_formed());
}

#[test]
fn repeated_point_is_rejected() {
    let mut t = straight(1000, vec![]);
    t.locations.push(open_end((0, 0)));
    assert!(!t.is_well_formed());
}

#[test]
fn missing_port_is_rejected() {
    let mut t = straight(1000, vec![]);
    t.locations[1] = ((10, 0), (NDType::Sw(Side::Left), (1, 0)));
    assert!(!t.is_well_formed());
}

#[test]
fn missing_object_list_is_rejected() {
    let mut t = straight(1000, vec![]);
    t.trackobjects.clear();
    assert!(!t.is_well_formed());
}

#[test]
fn object_at_track_end_faces_on() {
    let objs = vec![(1000, (10, 0), Function::Detector, None)];
    let g = DGraphBuilder::convert(&straight(1000, objs));
    assert_eq!(g.rolling_inf.nodes.len(), 4);
    assert!(g.detector_nodes.contains(&(3, 2)));
    assert_eq!(g.detector_ids.get_by_right(&(10, 0)), Some(&2));
}

#[test]
fn objects_sort_by_offset_keeping_ties_in_order() {
    let objs: Vec<TrackObject> = vec![
        (30, (0, 0), Function::Detector, None),
        (10, (1, 0), Function::Detector, None),
        (30, (2, 0), Function::Detector, None),
        (0, (3, 0), Function::Detector, None),
    ];
    assert_eq!(sorted_order(&objs), vec![3, 1, 0, 2]);
    assert_eq!(sorted_order(&vec![]), Vec::<usize>::new());
}

#[test]
fn pairs_are_added_once() {
    let mut v = vec![(1, 0)];
    add_pair(&mut v, (3, 2));
    add_pair(&mut v, (1, 0));
    assert_eq!(v, vec![(1, 0), (3, 2)]);
}

#[test]
fn edge_lengths_and_out_edges() {
    let g = DGraphBuilder::convert(&switch_topology(vec![]));
    let inf = &g.rolling_inf;
    assert_eq!(edge_length(inf, 1, 2), Some(1000));
    assert_eq!(edge_length(inf, 3, 4), Some(0));
    assert_eq!(edge_length(inf, 3, 8), Some(0));
    assert_eq!(edge_length(inf, 3, 5), None);
    assert_eq!(out_edges(inf, 3), vec![(8, 0), (4, 0)]);
    assert_eq!(out_edges(inf, 1), vec![(2, 1000)]);
    assert_eq!(out_edges(inf, 0), vec![]);
}

#[test]
fn sighting_search_reports_where_branches_stop() {
    let g = DGraphBuilder::convert(&switch_topology(vec![]));
    let inf = &g.rolling_inf;
    // From the trunk's track towards the switch: forks onto both branches.
    let r = Cursor::Edge((1, 2), 50).advance_nontrailing_truncate(inf, 200);
    assert_eq!(r, vec![(Cursor::Edge((5, 6), 850), 200), (Cursor::Edge((9, 10), 850), 200)]);
    // From a branch towards the switch: stops on reaching the trunk.
    let r = Cursor::Node(5).reverse(inf).advance_nontrailing_truncate(inf, 200);
    assert_eq!(r, vec![(Cursor::Edge((4, 3), 0), 0)]);
    let r = Cursor::Edge((6, 5), 30).advance_nontrailing_truncate(inf, 200);
    assert_eq!(r, vec![(Cursor::Edge((4, 3), 0), 30)]);
    // Into an open end: the branch ends there with what it covered.
    let r = Cursor::Edge((2, 1), 120).advance_nontrailing_truncate(inf, 200);
    assert_eq!(r, vec![(Cursor::Node(0), 120)]);
    assert!(Cursor::Edge((2, 1), 120).is_valid(inf));
    assert!(!Cursor::Edge((2, 1), 1200).is_valid(inf));
}

#[test]
fn inserting_an_object_inside_an_edge_splits_it() {
    let g = DGraphBuilder::convert(&straight(1000, vec![]));
    let mut b = DGraphBuilder { dgraph: g.rolling_inf, edge_tracks: g.edge_tracks };
    let (c, id) = b.insert_object(Cursor::Edge((1, 2), 600), StaticObject::Signal { has_distant: false });
    assert_eq!((c, id), (Cursor::Node(5), 0));
    assert_eq!(b.dgraph.nodes[1].edges, Edges::Single(4, 400));
    assert_eq!(b.dgraph.nodes[5].edges, Edges::Single(2, 600));
    assert_eq!(b.dgraph.nodes[5].objects, vec![0]);
    assert_eq!(b.edge_tracks[1], Some(Interval { track_idx: 0, start: 0, end: 400 }));
    assert_eq!(b.edge_tracks[5], Some(Interval { track_idx: 0, start: 400, end: 1000 }));
    // At either end of an edge no pair is needed.
    let (c, _) = b.insert_object(Cursor::Edge((5, 2), 0), StaticObject::Signal { has_distant: true });
    assert_eq!(c, Cursor::Node(3));
    let (c, _) = b.insert_object(Cursor::Edge((5, 2), 600), StaticObject::Signal { has_distant: true });
    assert_eq!(c, Cursor::Node(5));
    assert_eq!(b.dgraph.nodes.len(), 6);
}

#[test]
fn two_signals_each_get_their_sights() {
    let objs = vec![
        (300, (3, 0), Function::MainSignal { has_distant: false }, Some(AB::A)),
        (800, (8, 0), Function::MainSignal { has_distant: false }, Some(AB::A)),
    ];
    let g = DGraphBuilder::convert(&straight(1000, objs));
    let mut s = sights(&g);
    s.sort();
    assert_eq!(s, vec![(200, 0), (200, 1)]);
}
