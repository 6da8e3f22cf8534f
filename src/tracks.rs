//! Attaching a track's objects along it, in order of offset.
use vstd::prelude::*;
use crate::builder::{idx_below, partitions, splits, split_done, starts_at, DGraphBuilder, Interval};
use crate::cursor::{advance, Cursor};
use crate::idmap::{id_map_insert, id_pairs, injective, lemma_put_injective, IdMap};
use crate::infra::{same_node, Edges, NodeId, ObjectId, StaticInfrastructure, StaticObject, mate};
use crate::model::{Function, PtA, Track, TrackObject, AB};

verus! {

/// Index `x` appears in `r`.
pub open spec fn listed(r: Seq<usize>, x: int) -> bool {
    exists|i: int| 0 <= i < r.len() && r[i] == x
}

/// `(pos, idx)` comes strictly before `(pos2, idx2)`: by offset, then by index.
pub open spec fn before(objs: Seq<TrackObject>, i: int, j: int) -> bool {
    objs[i].0 < objs[j].0 || (objs[i].0 == objs[j].0 && i < j)
}

/// The order in which a track's objects are attached: all indices, by
/// ascending offset, equal offsets keeping their listed order.
pub fn sorted_order(objs: &Vec<TrackObject>) -> (r: Vec<usize>)
    ensures
        r@.len() == objs@.len(),
        forall|i: int| 0 <= i < r@.len() ==> r@[i] < objs@.len(),
        forall|i: int, j: int| 0 <= i < j < r@.len() ==> before(objs@, r@[i] as int, r@[j] as int),
        forall|x: int| 0 <= x < objs@.len() ==> #[trigger] listed(r@, x),
{
    let mut r: Vec<usize> = Vec::new();
    let mut k: usize = 0;
    while k < objs.len()
        invariant
            k <= objs@.len(),
            r@.len() == k,
            forall|i: int| 0 <= i < r@.len() ==> r@[i] < k,
            forall|i: int, j: int| 0 <= i < j < r@.len() ==> before(objs@, r@[i] as int, r@[j] as int),
            forall|x: int| 0 <= x < k ==> #[trigger] listed(r@, x),
        decreases objs@.len() - k,
    {
        let pos = objs[k].0;
        let mut p: usize = 0;
        while p < r.len() && objs[r[p]].0 <= pos
            invariant
                p <= r@.len(),
                r@.len() == k,
                k < objs@.len(),
                pos == objs@[k as int].0,
                forall|i: int| 0 <= i < r@.len() ==> r@[i] < k,
                forall|i: int| 0 <= i < p ==> objs@[r@[i] as int].0 <= pos,
                forall|x: int| 0 <= x < k ==> #[trigger] listed(r@, x),
                forall|i: int, j: int| 0 <= i < j < r@.len() ==> before(objs@, r@[i] as int, r@[j] as int),
            decreases r@.len() - p,
        {
            p += 1;
        }
        proof {
            assert forall|i: int| p <= i < r@.len() implies objs@[r@[i] as int].0 > pos by {
                if objs@[r@[i] as int].0 <= pos {
                    // p stopped at an entry with a larger offset; sortedness carries it on
                    assert(before(objs@, r@[p as int] as int, r@[i] as int) || i == p);
                }
            }
        }
        let ghost old_r = r@;
        r.insert(p, k);
        proof {
            assert forall|i: int, j: int| 0 <= i < j < r@.len() implies before(objs@, r@[i] as int, r@[j] as int) by {
                if j < p {
                    assert(r@[i] == old_r[i] && r@[j] == old_r[j]);
                } else if j == p {
                    assert(r@[i] == old_r[i]);
                } else if i < p {
                    assert(r@[i] == old_r[i] && r@[j] == old_r[j - 1]);
                } else if i == p {
                    assert(r@[j] == old_r[j - 1]);
                } else {
                    assert(r@[i] == old_r[i - 1] && r@[j] == old_r[j - 1]);
                }
            }
            assert forall|x: int| 0 <= x < k + 1 implies #[trigger] listed(r@, x) by {
                if x == k {
                    assert(r@[p as int] == x);
                } else {
                    assert(listed(old_r, x));
                    let i = choose|i: int| 0 <= i < old_r.len() && old_r[i] == x;
                    if i < p {
                        assert(r@[i] == x);
                    } else {
                        assert(r@[i + 1] == x);
                    }
                }
            }
        }
        k += 1;
    }
    r
}

/// The graph `g` is `g0` grown: nodes and objects were only added, nodes
/// without links kept none, and nodes whose links were all positive kept
/// them positive.
pub open spec fn grows(g0: &StaticInfrastructure, g: &StaticInfrastructure) -> bool {
    &&& g0.nodes@.len() <= g.nodes@.len()
    &&& g0.objects@.len() <= g.objects@.len()
    &&& forall|o: int| 0 <= o < g0.objects@.len() ==> #[trigger] g.objects@[o] == g0.objects@[o]
    &&& forall|n: int| 0 <= n < g0.len() && (#[trigger] g0.nodes@[n]).edges is Nothing ==> g.nodes@[n].edges is Nothing
    &&& forall|n: int| 0 <= n < g0.len() && #[trigger] g0.positive_out(n) ==> g.positive_out(n)
}

pub(crate) proof fn lemma_grows_trans(g0: &StaticInfrastructure, g1: &StaticInfrastructure, g2: &StaticInfrastructure)
    requires
        grows(g0, g1),
        grows(g1, g2),
    ensures
        grows(g0, g2),
{
    assert forall|n: int| 0 <= n < g0.len() && (#[trigger] g0.nodes@[n]).edges is Nothing implies g2.nodes@[n].edges is Nothing by {
        assert(g1.nodes@[n].edges is Nothing);
    }
    assert forall|n: int| 0 <= n < g0.len() && #[trigger] g0.positive_out(n) implies g2.positive_out(n) by {
        assert(g1.positive_out(n));
    }
}

/// A graph that keeps `g0`'s links on `g0`'s nodes has grown from it.
pub(crate) proof fn lemma_same_links_grows(g0: &StaticInfrastructure, g: &StaticInfrastructure)
    requires
        g0.wf(),
        g0.nodes@.len() <= g.nodes@.len(),
        g0.objects@.len() <= g.objects@.len(),
        forall|o: int| 0 <= o < g0.objects@.len() ==> #[trigger] g.objects@[o] == g0.objects@[o],
        forall|n: int| 0 <= n < g0.len() ==> g.nodes@[n].edges == g0.nodes@[n].edges,
    ensures
        grows(g0, g),
{
    assert forall|n: int, k: int, d: int| 0 <= n < g0.len() implies #[trigger] g.link(n, k, d) == g0.link(n, k, d) by {
        assert(g0.node_ok(n));
    }
    assert forall|n: int| 0 <= n < g0.len() && #[trigger] g0.positive_out(n) implies g.positive_out(n) by {
        assert forall|k: int, d: int| #[trigger] g.link(n, k, d) implies d > 0 by {
            assert(g0.link(n, k, d));
        }
    }
}

/// A split with positive pieces grows the graph.
pub(crate) proof fn lemma_split_grows(g0: &StaticInfrastructure, g: &StaticInfrastructure, a: int, b: int, second: int)
    requires
        g0.wf(),
        g.wf(),
        g0.edge_len(a, b) matches Some(len) && 0 < second < len,
        split_done(g0, g, a, b, second),
    ensures
        grows(g0, g),
{
    crate::infra::lemma_link_edge_len(g0, a, b, g0.edge_len(a, b)->Some_0 as int);
    assert(g0.node_ok(a));
    assert(g0.link(b, a, g0.edge_len(a, b)->Some_0 as int));
    assert forall|n: int| 0 <= n < g0.len() && (#[trigger] g0.nodes@[n]).edges is Nothing implies g.nodes@[n].edges is Nothing by {
        if n != a && n != b {
            assert(same_node(g.nodes@[n], g0.nodes@[n]));
        }
    }
    assert forall|n: int| 0 <= n < g0.len() && #[trigger] g0.positive_out(n) implies g.positive_out(n) by {
        if n != a && n != b {
            assert(same_node(g.nodes@[n], g0.nodes@[n]));
            assert forall|k: int, d: int| #[trigger] g.link(n, k, d) implies d > 0 by {
                assert(g0.link(n, k, d));
            }
        }
    }
}

/// A signal on a track has a signal object of the same kind in the graph.
pub open spec fn signal_placed(obj: TrackObject, g: &StaticInfrastructure) -> bool {
    match obj.2 {
        Function::MainSignal { has_distant } | Function::ShiftingSignal { has_distant } => exists|o: int|
            0 <= o < g.objects@.len() && #[trigger] g.objects@[o] == StaticObject::Signal { has_distant },
        _ => true,
    }
}

/// What holds of an object table holds of a larger one that keeps it.
pub proof fn lemma_signal_placed_kept(obj: TrackObject, g0: &StaticInfrastructure, g: &StaticInfrastructure)
    requires
        signal_placed(obj, g0),
        g0.objects@.len() <= g.objects@.len(),
        forall|o: int| 0 <= o < g0.objects@.len() ==> #[trigger] g.objects@[o] == g0.objects@[o],
    ensures
        signal_placed(obj, g),
{
    match obj.2 {
        Function::MainSignal { has_distant } | Function::ShiftingSignal { has_distant } => {
            let o = choose|o: int| 0 <= o < g0.objects@.len() && #[trigger] g0.objects@[o] == StaticObject::Signal { has_distant };
            assert(g.objects@[o] == g0.objects@[o]);
        },
        _ => {},
    }
}

/// Every signal on the first `n` tracks has its signal object.
pub open spec fn signals_placed(trackobjects: Seq<Vec<TrackObject>>, n: int, g: &StaticInfrastructure) -> bool {
    forall|t: int, x: int| 0 <= t < n && 0 <= x < trackobjects[t]@.len() ==> signal_placed(#[trigger] trackobjects[t]@[x], g)
}

pub proof fn lemma_signals_placed_kept(trackobjects: Seq<Vec<TrackObject>>, n: int, g0: &StaticInfrastructure, g: &StaticInfrastructure)
    requires
        signals_placed(trackobjects, n, g0),
        g0.objects@.len() <= g.objects@.len(),
        forall|o: int| 0 <= o < g0.objects@.len() ==> #[trigger] g.objects@[o] == g0.objects@[o],
    ensures
        signals_placed(trackobjects, n, g),
{
    assert forall|t: int, x: int| 0 <= t < n && 0 <= x < trackobjects[t]@.len() implies signal_placed(#[trigger] trackobjects[t]@[x], g) by {
        lemma_signal_placed_kept(trackobjects[t]@[x], g0, g);
    }
}

/// A detector (or a switch placed on a track) at offset `x` short of the
/// track's end bounds a section at the node whose interval on the track
/// starts at `x`.
pub open spec fn detector_placed(obj: TrackObject, t: int, len: int, tr: Seq<Option<Interval>>, dets: Seq<(NodeId, NodeId)>) -> bool {
    (obj.2 == Function::Detector || obj.2 == Function::Switch) && obj.0 < len ==> exists|n: int|
        #[trigger] starts_at(tr, n, t, obj.0 as int) && dets.contains((n as usize, mate(n) as usize))
}

pub proof fn lemma_detector_placed_kept(
    obj: TrackObject,
    t: int,
    len: int,
    tr0: Seq<Option<Interval>>,
    d0: Seq<(NodeId, NodeId)>,
    tr1: Seq<Option<Interval>>,
    d1: Seq<(NodeId, NodeId)>,
)
    requires
        detector_placed(obj, t, len, tr0, d0),
        forall|n: int, t2: int, x: int| #[trigger] starts_at(tr0, n, t2, x) ==> starts_at(tr1, n, t2, x),
        forall|p: (NodeId, NodeId)| #[trigger] d0.contains(p) ==> d1.contains(p),
    ensures
        detector_placed(obj, t, len, tr1, d1),
{
    if (obj.2 == Function::Detector || obj.2 == Function::Switch) && obj.0 < len {
        let n = choose|n: int| #[trigger] starts_at(tr0, n, t, obj.0 as int) && d0.contains((n as usize, mate(n) as usize));
        assert(starts_at(tr1, n, t, obj.0 as int));
    }
}

/// Every detector on the first `n` tracks bounds a section where it stands.
pub open spec fn detectors_placed(
    trackobjects: Seq<Vec<TrackObject>>,
    tracks: Seq<Track>,
    n: int,
    tr: Seq<Option<Interval>>,
    dets: Seq<(NodeId, NodeId)>,
) -> bool {
    forall|t: int, x: int| 0 <= t < n && 0 <= x < trackobjects[t]@.len() ==> detector_placed(
        #[trigger] trackobjects[t]@[x],
        t,
        tracks[t].0 as int,
        tr,
        dets,
    )
}

pub proof fn lemma_detectors_placed_kept(
    trackobjects: Seq<Vec<TrackObject>>,
    tracks: Seq<Track>,
    n: int,
    tr0: Seq<Option<Interval>>,
    d0: Seq<(NodeId, NodeId)>,
    tr1: Seq<Option<Interval>>,
    d1: Seq<(NodeId, NodeId)>,
)
    requires
        detectors_placed(trackobjects, tracks, n, tr0, d0),
        forall|m: int, t2: int, x: int| #[trigger] starts_at(tr0, m, t2, x) ==> starts_at(tr1, m, t2, x),
        forall|p: (NodeId, NodeId)| #[trigger] d0.contains(p) ==> d1.contains(p),
    ensures
        detectors_placed(trackobjects, tracks, n, tr1, d1),
{
    assert forall|t: int, x: int| 0 <= t < n && 0 <= x < trackobjects[t]@.len() implies detector_placed(
        #[trigger] trackobjects[t]@[x],
        t,
        tracks[t].0 as int,
        tr1,
        d1,
    ) by {
        lemma_detector_placed_kept(trackobjects[t]@[x], t, tracks[t].0 as int, tr0, d0, tr1, d1);
    }
}

/// No object is a sight yet.
pub open spec fn no_sights(g: &StaticInfrastructure) -> bool {
    forall|o: int| 0 <= o < g.objects@.len() ==> !(#[trigger] g.objects@[o] is Sight)
}

/// The state gathered while attaching track objects.
pub struct Attachments {
    /// Each signal's address, the cursor it faces from, and its object.
    pub signals: Vec<(PtA, Cursor, ObjectId)>,
    /// Node pairs that bound detection sections.
    pub detector_nodes: Vec<(NodeId, NodeId)>,
    pub object_ids: IdMap,
    pub detector_ids: IdMap,
}

impl Attachments {
    pub open spec fn wf(&self, g: &StaticInfrastructure) -> bool {
        &&& forall|i: int|
            0 <= i < self.signals@.len() ==> {
                let s = #[trigger] self.signals@[i];
                &&& s.1 is Node
                &&& s.1->Node_0 < g.len()
                &&& s.2 < g.objects@.len()
                &&& g.objects@[s.2 as int] is Signal
            }
        &&& forall|i: int|
            0 <= i < self.detector_nodes@.len() ==> {
                let p = #[trigger] self.detector_nodes@[i];
                &&& p.0 < g.len()
                &&& p.1 == mate(p.0 as int)
            }
        &&& injective(id_pairs(self.object_ids))
        &&& injective(id_pairs(self.detector_ids))
        &&& forall|o: usize| #[trigger] id_pairs(self.object_ids).contains_key(o) ==> o < g.objects@.len()
            && g.objects@[o as int] is Signal
        &&& addresses_distinct(self.signals@)
        &&& forall|i: int| 0 <= i < self.signals@.len() ==> id_pairs(self.object_ids).contains_key((#[trigger] self.signals@[i]).2)
            && id_pairs(self.object_ids)[self.signals@[i].2] == self.signals@[i].0
    }
}

pub(crate) proof fn lemma_attachments_grow(acc: &Attachments, g0: &StaticInfrastructure, g: &StaticInfrastructure)
    requires
        acc.wf(g0),
        g0.nodes@.len() <= g.nodes@.len(),
        g0.objects@.len() <= g.objects@.len(),
        forall|o: int| 0 <= o < g0.objects@.len() ==> #[trigger] g.objects@[o] == g0.objects@[o],
    ensures
        acc.wf(g),
{
    assert forall|i: int| 0 <= i < acc.signals@.len() implies #[trigger] g.objects@[acc.signals@[i].2 as int] is Signal by {
        let s = acc.signals@[i];
        assert(g.objects@[s.2 as int] == g0.objects@[s.2 as int]);
    }
    assert forall|o: usize| #[trigger] id_pairs(acc.object_ids).contains_key(o) implies o < g.objects@.len()
        && g.objects@[o as int] is Signal by {
        assert(g.objects@[o as int] == g0.objects@[o as int]);
    }
}

/// Adds a pair to a list unless it is there already.
pub fn add_pair(v: &mut Vec<(NodeId, NodeId)>, p: (NodeId, NodeId))
    ensures
        final(v)@ == if old(v)@.contains(p) {
            old(v)@
        } else {
            old(v)@.push(p)
        },
{
    let mut i: usize = 0;
    while i < v.len()
        invariant
            i <= v@.len(),
            v@ == old(v)@,
            forall|k: int| 0 <= k < i ==> v@[k] != p,
        decreases v@.len() - i,
    {
        let q = v[i];
        if q.0 == p.0 && q.1 == p.1 {
            proof {
                assert(old(v)@.contains(p));
            }
            return;
        }
        i += 1;
    }
    v.push(p);
}

/// No two signals share an address.
pub open spec fn addresses_distinct(v: Seq<(PtA, Cursor, ObjectId)>) -> bool {
    forall|i: int, j: int| 0 <= i < j < v.len() ==> (#[trigger] v[i]).0 != (#[trigger] v[j]).0
}

/// Records a signal's cursor and object under its address, replacing what
/// was recorded under that address before.
pub(crate) fn set_signal(v: &mut Vec<(PtA, Cursor, ObjectId)>, s: (PtA, Cursor, ObjectId))
    requires
        addresses_distinct(old(v)@),
    ensures
        addresses_distinct(final(v)@),
        exists|i: int| 0 <= i < final(v)@.len() && final(v)@[i] == s,
        forall|i: int| 0 <= i < final(v)@.len() ==> #[trigger] final(v)@[i] == s || (old(v)@.contains(final(v)@[i])
            && final(v)@[i].0 != s.0),
{
    let mut i: usize = 0;
    while i < v.len()
        invariant
            i <= v@.len(),
            v@ == old(v)@,
            addresses_distinct(old(v)@),
            forall|k: int| 0 <= k < i ==> (#[trigger] v@[k]).0 != s.0,
        decreases v@.len() - i,
    {
        let q = v[i];
        if q.0.0 == s.0.0 && q.0.1 == s.0.1 {
            v.set(i, s);
            proof {
                assert(v@[i as int] == s);
                assert forall|k: int| 0 <= k < v@.len() implies #[trigger] v@[k] == s || (old(v)@.contains(v@[k]) && v@[k].0 != s.0) by {
                    if k != i {
                        assert(v@[k] == old(v)@[k]);
                        if k < i {
                        } else {
                            assert(old(v)@[i as int].0 != old(v)@[k].0);
                        }
                    }
                }
                assert forall|a: int, b: int| 0 <= a < b < v@.len() implies (#[trigger] v@[a]).0 != (#[trigger] v@[b]).0 by {
                    if a != i && b != i {
                        assert(v@[a] == old(v)@[a] && v@[b] == old(v)@[b]);
                    } else if a == i {
                        assert(v@[b] == old(v)@[b]);
                        assert(old(v)@[a].0 != old(v)@[b].0);
                    } else {
                        assert(v@[a] == old(v)@[a]);
                    }
                }
            }
            return;
        }
        i += 1;
    }
    v.push(s);
    proof {
        assert(v@[v@.len() - 1] == s);
        assert forall|k: int| 0 <= k < v@.len() implies #[trigger] v@[k] == s || (old(v)@.contains(v@[k]) && v@[k].0 != s.0) by {
            if k < old(v)@.len() {
                assert(v@[k] == old(v)@[k]);
            }
        }
        assert forall|a: int, b: int| 0 <= a < b < v@.len() implies (#[trigger] v@[a]).0 != (#[trigger] v@[b]).0 by {
            if b < old(v)@.len() {
                assert(v@[a] == old(v)@[a] && v@[b] == old(v)@[b]);
            } else {
                assert(v@[a] == old(v)@[a]);
            }
        }
    }
}

impl DGraphBuilder {
    /// Attaches a track's objects in ascending order of offset. `start` is
    /// the node at the track's start facing along it, joined to the node
    /// `end` at the track's end by a plain link of the track's length.
    #[verifier::rlimit(60)]
    pub(crate) fn place_track_objects(
        &mut self,
        track_idx: usize,
        start: NodeId,
        end: NodeId,
        len: u64,
        objs: &Vec<TrackObject>,
        acc: &mut Attachments,
    )
        requires
            old(self).wf(),
            old(self).edge_tracks@[start as int] == Some(Interval { track_idx, start: 0, end: len }),
            start < old(self).dgraph.len(),
            old(self).dgraph.nodes@[start as int].edges == Edges::Single(end, len),
            len > 0,
            forall|k: int| 0 <= k < objs@.len() ==> (#[trigger] objs@[k]).0 <= len,
            old(self).dgraph.nodes@.len() + 2 * objs@.len() + 2 <= usize::MAX,
            old(self).dgraph.objects@.len() + objs@.len() + 1 <= usize::MAX,
            old(acc).wf(&old(self).dgraph),
            no_sights(&old(self).dgraph),
        ensures
            final(self).wf(),
            no_sights(&final(self).dgraph),
            grows(&old(self).dgraph, &final(self).dgraph),
            forall|x: int| 0 <= x < objs@.len() ==> signal_placed(#[trigger] objs@[x], &final(self).dgraph),
            forall|t: int, l: int| #[trigger] partitions(old(self).edge_tracks@, t, l) ==> partitions(final(self).edge_tracks@, t, l),
            forall|k: int| #[trigger] idx_below(old(self).edge_tracks@, k) ==> idx_below(final(self).edge_tracks@, k),
            final(self).dgraph.nodes@.len() <= old(self).dgraph.nodes@.len() + 2 * objs@.len(),
            final(self).dgraph.objects@.len() <= old(self).dgraph.objects@.len() + objs@.len(),
            final(acc).wf(&final(self).dgraph),
            forall|n: int, t: int, x: int| #[trigger] starts_at(old(self).edge_tracks@, n, t, x) ==> starts_at(final(self).edge_tracks@, n, t, x),
            forall|p: (NodeId, NodeId)| #[trigger] old(acc).detector_nodes@.contains(p) ==> final(acc).detector_nodes@.contains(p),
            objs@.len() == 0 ==> final(self).dgraph == old(self).dgraph && final(acc).signals@ == old(acc).signals@,
            forall|x: int| 0 <= x < objs@.len() ==> detector_placed(
                #[trigger] objs@[x],
                track_idx as int,
                len as int,
                final(self).edge_tracks@,
                final(acc).detector_nodes@,
            ),
    {
        let ghost g_in = self.dgraph;
        let ghost d_in = acc.detector_nodes@;
        let ghost tr_in = self.edge_tracks@;
        proof {
            assert(g_in.node_ok(start as int));
            lemma_same_links_grows(&g_in, &g_in);
        }
        let order = sorted_order(objs);
        let mut cursor = Cursor::Node(start);
        let mut last_pos: u64 = 0;
        let mut k: usize = 0;
        while k < order.len()
            invariant
                self.wf(),
                acc.wf(&self.dgraph),
                no_sights(&self.dgraph),
                grows(&g_in, &self.dgraph),
                self.dgraph.nodes@.len() <= g_in.nodes@.len() + 2 * k,
                self.dgraph.objects@.len() <= g_in.objects@.len() + k,
                g_in.nodes@.len() + 2 * objs@.len() + 2 <= usize::MAX,
                g_in.objects@.len() + objs@.len() + 1 <= usize::MAX,
                k <= order@.len(),
                order@.len() == objs@.len(),
                forall|i: int| 0 <= i < order@.len() ==> order@[i] < objs@.len(),
                forall|i: int, j: int| 0 <= i < j < order@.len() ==> before(objs@, order@[i] as int, order@[j] as int),
                forall|i: int| 0 <= i < objs@.len() ==> (#[trigger] objs@[i]).0 <= len,
                forall|q: int| 0 <= q < k ==> signal_placed(objs@[#[trigger] order@[q] as int], &self.dgraph),
                forall|t: int, l: int| #[trigger] partitions(tr_in, t, l) ==> partitions(self.edge_tracks@, t, l),
                forall|j: int| #[trigger] idx_below(tr_in, j) ==> idx_below(self.edge_tracks@, j),
                forall|n: int, t: int, x: int| #[trigger] starts_at(tr_in, n, t, x) ==> starts_at(self.edge_tracks@, n, t, x),
                forall|p: (NodeId, NodeId)| #[trigger] d_in.contains(p) ==> acc.detector_nodes@.contains(p),
                forall|q: int| 0 <= q < k ==> detector_placed(
                    objs@[#[trigger] order@[q] as int],
                    track_idx as int,
                    len as int,
                    self.edge_tracks@,
                    acc.detector_nodes@,
                ),
                last_pos < len ==> starts_at(self.edge_tracks@, cursor->Node_0 as int, track_idx as int, last_pos as int),
                k == 0 ==> self.dgraph == g_in && acc.signals@ == old(acc).signals@,
                cursor is Node,
                cursor->Node_0 < self.dgraph.len(),
                last_pos <= len,
                k > 0 ==> last_pos == objs@[order@[k - 1] as int].0,
                k == 0 ==> last_pos == 0,
                last_pos < len ==> self.dgraph.nodes@[cursor->Node_0 as int].edges == Edges::Single(end, (len - last_pos) as u64),
            decreases order@.len() - k,
        {
            let (pos, id, func, dir) = objs[order[k]];
            proof {
                assert(pos == objs@[order@[k as int] as int].0);
                if k > 0 {
                    assert(before(objs@, order@[k - 1] as int, order@[k as int] as int));
                }
            }
            let ghost g0 = self.dgraph;
            let ghost c0 = cursor;
            let ghost placed_before = self.dgraph;
            let ghost tr_before = self.edge_tracks@;
            let ghost d_before = acc.detector_nodes@;
            let step = pos - last_pos;
            let moved = cursor.advance_single(&self.dgraph, step);
            proof {
                let c = c0->Node_0 as int;
                if step > 0 {
                    assert(g0.node_ok(c));
                    assert(advance(&g0, c0, step as int) == crate::cursor::advance_node(&g0, c, step as int));
                }
            }
            cursor = moved.unwrap();
            proof {
                if step > 0 && step < len - last_pos {
                    crate::infra::lemma_link_edge_len(&g0, c0->Node_0 as int, end as int, (len - last_pos) as int);
                }
            }
            cursor = self.insert_node_pair(cursor);
            let ghost g1 = self.dgraph;
            proof {
                if splits(&g0, moved.unwrap()) {
                    let m = moved.unwrap();
                    lemma_split_grows(&g0, &g1, m->Edge_0.0 as int, m->Edge_0.1 as int, m->Edge_1 as int);
                } else {
                    lemma_same_links_grows(&g0, &g1);
                }
                lemma_grows_trans(&g_in, &g0, &g1);
                lemma_attachments_grow(acc, &g0, &g1);
            }
            match func {
                Function::MainSignal { has_distant } | Function::ShiftingSignal { has_distant } => {
                    let c = if matches!(dir, Some(AB::B)) {
                        cursor.reverse(&self.dgraph)
                    } else {
                        cursor
                    };
                    let (_c, obj) = self.insert_object(c, StaticObject::Signal { has_distant });
                    let ghost g2 = self.dgraph;
                    proof {
                        assert forall|o: int| 0 <= o < g2.objects@.len() implies !(#[trigger] g2.objects@[o] is Sight) by {
                            if o < g1.objects@.len() {
                                assert(g2.objects@[o] == g1.objects@[o]);
                            }
                        }
                        lemma_same_links_grows(&g1, &g2);
                        lemma_grows_trans(&g_in, &g1, &g2);
                        lemma_attachments_grow(acc, &g1, &g2);
                    }
                    let ghost sig0 = acc.signals@;
                    let ghost ids0 = id_pairs(acc.object_ids);
                    set_signal(&mut acc.signals, (id, c, obj));
                    proof {
                        lemma_put_injective(id_pairs(acc.object_ids), obj, id);
                    }
                    id_map_insert(&mut acc.object_ids, obj, id);
                    proof {
                        assert forall|i: int| 0 <= i < acc.signals@.len() implies id_pairs(acc.object_ids).contains_key((#[trigger] acc.signals@[i]).2)
                            && id_pairs(acc.object_ids)[acc.signals@[i].2] == acc.signals@[i].0 by {
                            let e = acc.signals@[i];
                            if e != (id, c, obj) {
                                let w = choose|w: int| 0 <= w < sig0.len() && sig0[w] == e;
                                assert(sig0[w] == e);
                                assert(e.2 < g1.objects@.len());
                                assert(ids0.contains_key(e.2) && ids0[e.2] == e.0);
                            }
                        }
                        assert forall|i: int| 0 <= i < acc.signals@.len() implies {
                            let s = #[trigger] acc.signals@[i];
                            &&& s.1 is Node
                            &&& s.1->Node_0 < g2.len()
                            &&& s.2 < g2.objects@.len()
                            &&& g2.objects@[s.2 as int] is Signal
                        } by {
                            if acc.signals@[i] != (id, c, obj) {
                                assert(sig0.contains(acc.signals@[i]));
                                let j = choose|j: int| 0 <= j < sig0.len() && sig0[j] == acc.signals@[i];
                                assert(sig0[j] == acc.signals@[i]);
                            }
                        }
                    }
                },
                Function::Detector | Function::Switch => {
                    // A track-placed switch bounds sections like a detector.
                    let (a, b) = cursor.nodes(&self.dgraph);
                    let ghost d_mid = acc.detector_nodes@;
                    add_pair(&mut acc.detector_nodes, (a, b));
                    proof {
                        if !d_mid.contains((a, b)) {
                            assert(acc.detector_nodes@[d_mid.len() as int] == (a, b));
                        }
                        assert(acc.detector_nodes@.contains((a, b)));
                        assert forall|p: (NodeId, NodeId)| #[trigger] d_mid.contains(p) implies acc.detector_nodes@.contains(p) by {
                            let w = choose|w: int| 0 <= w < d_mid.len() && d_mid[w] == p;
                            assert(acc.detector_nodes@[w] == d_mid[w]);
                        }
                    }
                    proof {
                        lemma_put_injective(id_pairs(acc.detector_ids), a, id);
                    }
                    id_map_insert(&mut acc.detector_ids, a, id);
                    proof {
                        lemma_put_injective(id_pairs(acc.detector_ids), b, id);
                    }
                    id_map_insert(&mut acc.detector_ids, b, id);
                },
            }
            proof {
                let g = self.dgraph;
                assert forall|q: int| 0 <= q < k + 1 implies detector_placed(
                    objs@[#[trigger] order@[q] as int],
                    track_idx as int,
                    len as int,
                    self.edge_tracks@,
                    acc.detector_nodes@,
                ) by {
                    if q < k {
                        lemma_detector_placed_kept(objs@[order@[q] as int], track_idx as int, len as int, tr_before, d_before, self.edge_tracks@, acc.detector_nodes@);
                    } else if (func == Function::Detector || func == Function::Switch) && pos < len {
                        assert(starts_at(self.edge_tracks@, cursor->Node_0 as int, track_idx as int, pos as int));
                    }
                }
                assert forall|q: int| 0 <= q < k + 1 implies signal_placed(objs@[#[trigger] order@[q] as int], &g) by {
                    if q < k {
                        lemma_signal_placed_kept(objs@[order@[q] as int], &placed_before, &g);
                    }
                }
            }
            last_pos = pos;
            k += 1;
        }
        proof {
            assert forall|x: int| 0 <= x < objs@.len() implies detector_placed(
                #[trigger] objs@[x],
                track_idx as int,
                len as int,
                self.edge_tracks@,
                acc.detector_nodes@,
            ) by {
                assert(listed(order@, x));
                let q = choose|q: int| 0 <= q < order@.len() && order@[q] == x;
                assert(detector_placed(objs@[order@[q] as int], track_idx as int, len as int, self.edge_tracks@, acc.detector_nodes@));
            }
            assert forall|x: int| 0 <= x < objs@.len() implies signal_placed(#[trigger] objs@[x], &self.dgraph) by {
                assert(listed(order@, x));
                let q = choose|q: int| 0 <= q < order@.len() && order@[q] == x;
                assert(signal_placed(objs@[order@[q] as int], &self.dgraph));
            }
        }
    }
}

} // verus!
