//! The schematic track topology that the graph is compiled from.
use vstd::prelude::*;
use crate::infra::SwitchPosition;

verus! {

/// A schematic grid point.
pub type Pt = (i32, i32);

/// The address of a track-attached object (a point of the finer object grid).
pub type PtA = (i32, i32);

/// An orientation vector on the schematic grid.
pub type Vc = (i32, i32);

/// One of the two directions along a track, or one of the two lines of a crossing.
#[derive(Clone, Copy, Debug, PartialEq, Eq, Structural)]
pub enum AB {
    A,
    B,
}

impl AB {
    pub fn other(&self) -> (r: AB)
        ensures
            r != *self,
    {
        match self {
            AB::A => AB::B,
            AB::B => AB::A,
        }
    }
}

#[derive(Clone, Copy, Debug, PartialEq, Eq, Structural)]
pub enum Side {
    Left,
    Right,
}

impl Side {
    /// The switch position that branches off to this side.
    pub fn as_switch_position(&self) -> (r: SwitchPosition)
        ensures
            r == match *self {
                Side::Left => SwitchPosition::Left,
                Side::Right => SwitchPosition::Right,
            },
    {
        match self {
            Side::Left => SwitchPosition::Left,
            Side::Right => SwitchPosition::Right,
        }
    }
}

#[derive(Clone, Copy, Debug, PartialEq, Eq, Structural)]
pub enum CrossingType {
    /// Both diagonals can be driven.
    DoubleSlip,
    /// Only the diagonal on the given side can be driven.
    SingleSlip(Side),
    /// A fixed diamond: no diagonal can be driven.
    Crossover,
}

/// The shape of a schematic point.
#[derive(Clone, Copy, Debug, PartialEq, Eq, Structural)]
pub enum NDType {
    OpenEnd,
    BufferStop,
    Cont,
    Sw(Side),
    Crossing(CrossingType),
    Error,
}

/// Which end of a point a track is attached to.
#[derive(Clone, Copy, Debug, PartialEq, Eq, Structural)]
pub enum Port {
    End,
    ContA,
    ContB,
    Trunk,
    Left,
    Right,
    Cross(AB, usize),
}

/// What a track-attached object does.
#[derive(Clone, Copy, Debug, PartialEq, Eq, Structural)]
pub enum Function {
    MainSignal { has_distant: bool },
    ShiftingSignal { has_distant: bool },
    Detector,
    Switch,
}

/// A track: its length and the two (point, port) ends it joins.
pub type Track = (u64, (Pt, Port), (Pt, Port));

/// An object on a track: offset from the track start, address, function and
/// facing direction.
pub type TrackObject = (u64, PtA, Function, Option<AB>);

/// A point and its shape and orientation.
pub type Location = (Pt, (NDType, Vc));

pub struct Topology {
    pub tracks: Vec<Track>,
    pub locations: Vec<Location>,
    pub trackobjects: Vec<Vec<TrackObject>>,
}

/// The ports of a point of the given shape that the graph builder connects.
pub open spec fn required_ports(nd: NDType) -> Seq<Port> {
    match nd {
        NDType::OpenEnd => seq![Port::End],
        NDType::Cont => seq![Port::ContA, Port::ContB],
        NDType::Sw(_) => seq![Port::Left, Port::Right, Port::Trunk],
        NDType::Crossing(_) => seq![
            Port::Cross(AB::A, 0),
            Port::Cross(AB::A, 1),
            Port::Cross(AB::B, 0),
            Port::Cross(AB::B, 1),
        ],
        NDType::BufferStop | NDType::Error => seq![],
    }
}

/// Some track ends at the given (point, port).
pub open spec fn port_present(tracks: Seq<Track>, key: (Pt, Port)) -> bool {
    exists|i: int| 0 <= i < tracks.len() && ((#[trigger] tracks[i]).1 == key || tracks[i].2 == key)
}

/// How many objects the first `n` tracks carry.
pub open spec fn objects_total(trackobjects: Seq<Vec<TrackObject>>, n: int) -> int
    decreases n,
{
    if n <= 0 {
        0
    } else {
        objects_total(trackobjects, n - 1) + trackobjects[n - 1]@.len()
    }
}

pub proof fn lemma_objects_total_mono(trackobjects: Seq<Vec<TrackObject>>, n: int, m: int)
    requires
        0 <= n <= m,
    ensures
        0 <= objects_total(trackobjects, n) <= objects_total(trackobjects, m),
    decreases m,
{
    if n < m {
        lemma_objects_total_mono(trackobjects, n, m - 1);
    } else if n > 0 {
        lemma_objects_total_mono(trackobjects, n - 1, n - 1);
    }
}

/// Node and object ids fit a `usize`: the network has four nodes per track
/// and two per track object, and one object per track object and at most
/// four per point.
pub open spec fn size_ok(tracks: Seq<Track>, locations: Seq<Location>, trackobjects: Seq<Vec<TrackObject>>) -> bool {
    &&& 4 * tracks.len() + 2 * objects_total(trackobjects, tracks.len() as int) + 2 <= usize::MAX
    &&& objects_total(trackobjects, tracks.len() as int) + 4 * locations.len() + 1 <= usize::MAX
}

/// The parts of a topology can be compiled: every track has a positive
/// length and its own object list, every object lies on its track, the
/// points are listed once each, every port a point's shape needs is the end
/// of some track, and node and object ids fit a `usize`.
pub open spec fn parts_ok(tracks: Seq<Track>, locations: Seq<Location>, trackobjects: Seq<Vec<TrackObject>>) -> bool {
    &&& trackobjects.len() == tracks.len()
    &&& size_ok(tracks, locations, trackobjects)
    &&& forall|i: int| 0 <= i < tracks.len() ==> (#[trigger] tracks[i]).0 > 0
    &&& forall|i: int, k: int|
        0 <= i < tracks.len() && 0 <= k < trackobjects[i]@.len()
            ==> (#[trigger] trackobjects[i]@[k]).0 <= tracks[i].0
    &&& forall|i: int, j: int|
        0 <= i < j < locations.len() ==> (#[trigger] locations[i]).0 != (#[trigger] locations[j]).0
    &&& forall|i: int, p: int|
        0 <= i < locations.len() && 0 <= p < required_ports(locations[i].1.0).len() ==> port_present(
            tracks,
            (locations[i].0, #[trigger] required_ports(locations[i].1.0)[p]),
        )
}

impl Topology {
    /// The topology can be compiled (see `parts_ok`).
    pub open spec fn well_formed(&self) -> bool {
        parts_ok(self.tracks@, self.locations@, self.trackobjects@)
    }
}

/// The ports that a point of the given shape needs, as a list.
pub fn required_ports_of(nd: NDType) -> (r: Vec<Port>)
    ensures
        r@ == required_ports(nd),
{
    let r = match nd {
        NDType::OpenEnd => vec![Port::End],
        NDType::Cont => vec![Port::ContA, Port::ContB],
        NDType::Sw(_) => vec![Port::Left, Port::Right, Port::Trunk],
        NDType::Crossing(_) => vec![
            Port::Cross(AB::A, 0),
            Port::Cross(AB::A, 1),
            Port::Cross(AB::B, 0),
            Port::Cross(AB::B, 1),
        ],
        NDType::BufferStop | NDType::Error => Vec::new(),
    };
    proof {
        assert(r@ =~= required_ports(nd));
    }
    r
}

pub(crate) fn same_end(x: (Pt, Port), y: (Pt, Port)) -> (r: bool)
    ensures
        r == (x == y),
{
    x.0.0 == y.0.0 && x.0.1 == y.0.1 && x.1 == y.1
}

/// Whether some track ends at `key`.
pub fn has_track_end(tracks: &Vec<Track>, key: (Pt, Port)) -> (r: bool)
    ensures
        r == port_present(tracks@, key),
{
    let mut i: usize = 0;
    while i < tracks.len()
        invariant
            i <= tracks@.len(),
            forall|k: int| 0 <= k < i ==> (#[trigger] tracks@[k]).1 != key && tracks@[k].2 != key,
        decreases tracks@.len() - i,
    {
        if same_end(tracks[i].1, key) || same_end(tracks[i].2, key) {
            return true;
        }
        i += 1;
    }
    false
}

impl Topology {
    /// Whether the topology can be compiled.
    pub fn is_well_formed(&self) -> (r: bool)
        ensures
            r == self.well_formed(),
    {
        let tracks = &self.tracks;
        let locs = &self.locations;
        let objs = &self.trackobjects;
        if objs.len() != tracks.len() {
            return false;
        }
        let mut i: usize = 0;
        while i < tracks.len()
            invariant
                tracks@ == self.tracks@,
                objs@ == self.trackobjects@,
                locs@ == self.locations@,
                i <= tracks@.len(),
                objs@.len() == tracks@.len(),
                forall|t: int| 0 <= t < i ==> (#[trigger] tracks@[t]).0 > 0,
                forall|t: int, k: int| 0 <= t < i && 0 <= k < objs@[t]@.len() ==> (#[trigger] objs@[t]@[k]).0 <= tracks@[t].0,
            decreases tracks@.len() - i,
        {
            if tracks[i].0 == 0 {
                proof {
                    assert(tracks@[i as int].0 == 0);
                    assert(!parts_ok(self.tracks@, self.locations@, self.trackobjects@));
                }
                return false;
            }
            let mut k: usize = 0;
            while k < objs[i].len()
                invariant
                    tracks@ == self.tracks@,
                    objs@ == self.trackobjects@,
                    locs@ == self.locations@,
                    i < tracks@.len(),
                    objs@.len() == tracks@.len(),
                    k <= objs@[i as int]@.len(),
                    forall|q: int| 0 <= q < k ==> (#[trigger] objs@[i as int]@[q]).0 <= tracks@[i as int].0,
                decreases objs@[i as int]@.len() - k,
            {
                if objs[i][k].0 > tracks[i].0 {
                    proof {
                        assert((objs@[i as int]@[k as int]).0 > tracks@[i as int].0);
                        assert(!parts_ok(self.tracks@, self.locations@, self.trackobjects@));
                    }
                    return false;
                }
                k += 1;
            }
            i += 1;
        }
        // Count the objects, and check that the ids they need fit.
        let mut total: usize = 0;
        let mut t: usize = 0;
        while t < objs.len()
            invariant
                tracks@ == self.tracks@,
                objs@ == self.trackobjects@,
                locs@ == self.locations@,
                t <= objs@.len(),
                objs@.len() == tracks@.len(),
                total == objects_total(objs@, t as int),
            decreases objs@.len() - t,
        {
            match total.checked_add(objs[t].len()) {
                Some(x) => {
                    total = x;
                },
                None => {
                    proof {
                        assert(objects_total(objs@, t + 1) == total + objs@[t as int]@.len());
                        lemma_objects_total_mono(objs@, t + 1, objs@.len() as int);
                        assert(!size_ok(self.tracks@, self.locations@, self.trackobjects@));
                        assert(!parts_ok(self.tracks@, self.locations@, self.trackobjects@));
                    }
                    return false;
                },
            }
            t += 1;
        }
        let nodes_needed = match tracks.len().checked_mul(4) {
            Some(x) => match total.checked_mul(2) {
                Some(y) => match x.checked_add(y) {
                    Some(z) => z.checked_add(2),
                    None => None,
                },
                None => None,
            },
            None => None,
        };
        let objects_needed = match locs.len().checked_mul(4) {
            Some(x) => match total.checked_add(x) {
                Some(y) => y.checked_add(1),
                None => None,
            },
            None => None,
        };
        if nodes_needed.is_none() || objects_needed.is_none() {
            proof {
                assert(!size_ok(self.tracks@, self.locations@, self.trackobjects@));
                assert(!parts_ok(self.tracks@, self.locations@, self.trackobjects@));
            }
            return false;
        }
        let mut a: usize = 0;
        while a < locs.len()
            invariant
                tracks@ == self.tracks@,
                objs@ == self.trackobjects@,
                locs@ == self.locations@,
                a <= locs@.len(),
                forall|x: int, y: int| 0 <= x < y < locs@.len() && x < a ==> (#[trigger] locs@[x]).0 != (#[trigger] locs@[y]).0,
                forall|x: int, p: int|
                    0 <= x < a && 0 <= p < required_ports(locs@[x].1.0).len() ==> port_present(
                        tracks@,
                        (locs@[x].0, #[trigger] required_ports(locs@[x].1.0)[p]),
                    ),
            decreases locs@.len() - a,
        {
            let pt = locs[a].0;
            let mut b: usize = a + 1;
            while b < locs.len()
                invariant
                    tracks@ == self.tracks@,
                    objs@ == self.trackobjects@,
                    locs@ == self.locations@,
                    a < b <= locs@.len(),
                    pt == locs@[a as int].0,
                    forall|y: int| a < y < b ==> (#[trigger] locs@[y]).0 != pt,
                decreases locs@.len() - b,
            {
                if locs[b].0.0 == pt.0 && locs[b].0.1 == pt.1 {
                    proof {
                        assert(locs@[a as int].0 == locs@[b as int].0);
                        assert(!parts_ok(self.tracks@, self.locations@, self.trackobjects@));
                    }
                    return false;
                }
                b += 1;
            }
            let ports = required_ports_of(locs[a].1.0);
            let mut p: usize = 0;
            while p < ports.len()
                invariant
                    tracks@ == self.tracks@,
                    objs@ == self.trackobjects@,
                    locs@ == self.locations@,
                    a < locs@.len(),
                    pt == locs@[a as int].0,
                    ports@ == required_ports(locs@[a as int].1.0),
                    p <= ports@.len(),
                    forall|q: int| 0 <= q < p ==> port_present(tracks@, (pt, #[trigger] ports@[q])),
                decreases ports@.len() - p,
            {
                if !has_track_end(tracks, (pt, ports[p])) {
                    proof {
                        assert(required_ports(locs@[a as int].1.0)[p as int] == ports@[p as int]);
                        assert(!port_present(tracks@, (locs@[a as int].0, required_ports(locs@[a as int].1.0)[p as int])));
                        assert(!parts_ok(self.tracks@, self.locations@, self.trackobjects@));
                    }
                    return false;
                }
                p += 1;
            }
            a += 1;
        }
        true
    }
}

} // verus!
