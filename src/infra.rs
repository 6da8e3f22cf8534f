//! The pair-node graph: directed node sides allocated in mirrored pairs,
//! edges implied by each node's `edges` value, and a flat object table.
use vstd::prelude::*;

verus! {

pub type NodeId = usize;

pub type ObjectId = usize;

#[derive(Clone, Copy, Debug, PartialEq, Eq, Structural)]
pub enum SwitchPosition {
    Left,
    Right,
}

/// Where a node leads.
#[derive(Clone, Copy, Debug, PartialEq, Eq, Structural)]
pub enum Edges {
    Nothing,
    ModelBoundary,
    Single(NodeId, u64),
    Switchable(ObjectId),
}

#[derive(Clone, Copy, Debug)]
pub enum StaticObject {
    Signal { has_distant: bool },
    Sight { distance: u64, signal: ObjectId },
    Switch { left_link: (NodeId, u64), right_link: (NodeId, u64), branch_side: SwitchPosition },
}

#[derive(Debug)]
pub struct Node {
    pub other_node: NodeId,
    pub edges: Edges,
    pub objects: Vec<ObjectId>,
}

#[derive(Debug)]
pub struct StaticInfrastructure {
    pub nodes: Vec<Node>,
    pub objects: Vec<StaticObject>,
}

/// Two node records agree in every field.
pub open spec fn same_node(x: Node, y: Node) -> bool {
    x.other_node == y.other_node && x.edges == y.edges && x.objects@ == y.objects@
}

/// The other side of node `n`: nodes are allocated in pairs `(2k, 2k+1)`.
pub open spec fn mate(n: int) -> int {
    if n % 2 == 0 {
        n + 1
    } else {
        n - 1
    }
}

impl StaticInfrastructure {
    /// The node count as an integer.
    pub open spec fn len(&self) -> int {
        self.nodes@.len() as int
    }

    /// Node `a` has an outgoing link to `b` of length `d`.
    pub open spec fn link(&self, a: int, b: int, d: int) -> bool {
        0 <= a < self.len() && match self.nodes@[a].edges {
            Edges::Single(m, l) => m == b && l == d,
            Edges::Switchable(o) => 0 <= o < self.objects@.len() && match self.objects@[o as int] {
                StaticObject::Switch { left_link, right_link, .. } => (left_link.0 == b
                    && left_link.1 == d) || (right_link.0 == b && right_link.1 == d),
                _ => false,
            },
            _ => false,
        }
    }

    /// The length of the link from `a` to `b`, if there is one.
    pub open spec fn edge_len(&self, a: int, b: int) -> Option<u64> {
        if 0 <= a < self.len() {
            match self.nodes@[a].edges {
                Edges::Single(m, l) => if m == b {
                    Some(l)
                } else {
                    None
                },
                Edges::Switchable(o) => if 0 <= o < self.objects@.len() {
                    match self.objects@[o as int] {
                        StaticObject::Switch { left_link, right_link, .. } => if left_link.0 == b {
                            Some(left_link.1)
                        } else if right_link.0 == b {
                            Some(right_link.1)
                        } else {
                            None
                        },
                        _ => None,
                    }
                } else {
                    None
                },
                _ => None,
            }
        } else {
            None
        }
    }

    /// Every link leaving `n` has a positive length.
    pub open spec fn positive_out(&self, n: int) -> bool {
        forall|k: int, d: int| #[trigger] self.link(n, k, d) ==> d > 0
    }

    /// Node `n` points at its mate, its links stay inside the graph, a switch
    /// it leads into has two distinct zero-length branches, and the objects
    /// it carries exist.
    pub open spec fn node_ok(&self, n: int) -> bool {
        &&& self.nodes@[n].other_node == mate(n)
        &&& match self.nodes@[n].edges {
            Edges::Single(m, _) => m < self.len() && m != n,
            Edges::Switchable(o) => o < self.objects@.len() && match self.objects@[o as int] {
                StaticObject::Switch { left_link, right_link, .. } => {
                    &&& left_link.0 < self.len()
                    &&& right_link.0 < self.len()
                    &&& left_link.1 == 0
                    &&& right_link.1 == 0
                    &&& left_link.0 != right_link.0
                },
                _ => false,
            },
            _ => true,
        }
        &&& forall|k: int|
            0 <= k < self.nodes@[n].objects@.len() ==> #[trigger] self.nodes@[n].objects@[k]
                < self.objects@.len()
    }

    /// Every link is present in both directions with the same length.
    pub open spec fn symmetric(&self) -> bool {
        forall|a: int, b: int, d: int| #[trigger] self.link(a, b, d) ==> self.link(b, a, d)
    }

    /// A zero-length link never leads on to another zero-length link: after
    /// passing a junction, the next link has a positive length.
    pub open spec fn layered(&self) -> bool {
        forall|a: int, b: int| #[trigger] self.link(a, b, 0) ==> self.positive_out(mate(b))
    }

    pub open spec fn wf(&self) -> bool {
        &&& self.len() % 2 == 0
        &&& forall|n: int| 0 <= n < self.len() ==> #[trigger] self.node_ok(n)
        &&& self.symmetric()
        &&& self.layered()
    }
}

/// Relation between `link` and `edge_len` in a well-formed graph.
pub proof fn lemma_link_edge_len(g: &StaticInfrastructure, a: int, b: int, d: int)
    requires
        g.wf(),
    ensures
        g.link(a, b, d) <==> g.edge_len(a, b) == Some(d as u64) && 0 <= d <= u64::MAX,
{
    if 0 <= a < g.len() {
        assert(g.node_ok(a));
    }
}

/// Nodes come in pairs: the other side of the other side is the node itself.
pub proof fn lemma_other_node_involutive(g: &StaticInfrastructure, n: int)
    requires
        g.wf(),
        0 <= n < g.len(),
    ensures
        0 <= g.nodes@[n].other_node < g.len(),
        g.nodes@[g.nodes@[n].other_node as int].other_node == n,
{
    assert(g.node_ok(n));
    assert(g.node_ok(mate(n)));
}

/// A plain edge and its reverse plain edge carry the same distance.
pub proof fn lemma_plain_edge_distances_agree(g: &StaticInfrastructure, a: int, b: int)
    requires
        g.wf(),
        0 <= a < g.len(),
        0 <= b < g.len(),
        g.nodes@[a].edges matches Edges::Single(t, _) && t == b,
        g.nodes@[b].edges matches Edges::Single(t, _) && t == a,
    ensures
        g.nodes@[a].edges->Single_1 == g.nodes@[b].edges->Single_1,
{
    let d = g.nodes@[a].edges->Single_1;
    assert(g.link(a, b, d as int));
    assert(g.link(b, a, d as int));
}

/// A node that leads into a switch has exactly two outgoing links, to two
/// distinct nodes, both of length zero, and each of them links back to it
/// with length zero.
pub proof fn lemma_switchable_branches(g: &StaticInfrastructure, n: int)
    requires
        g.wf(),
        0 <= n < g.len(),
        g.nodes@[n].edges is Switchable,
    ensures
        ({
            let o = g.nodes@[n].edges->Switchable_0 as int;
            let l = g.objects@[o]->Switch_left_link.0 as int;
            let r = g.objects@[o]->Switch_right_link.0 as int;
            &&& 0 <= o < g.objects@.len()
            &&& g.objects@[o] is Switch
            &&& l != r
            &&& g.link(n, l, 0) && g.link(n, r, 0)
            &&& g.link(l, n, 0) && g.link(r, n, 0)
            &&& forall|k: int, d: int| g.link(n, k, d) ==> (k == l || k == r) && d == 0
        }),
{
    assert(g.node_ok(n));
    let o = g.nodes@[n].edges->Switchable_0 as int;
    let l = g.objects@[o]->Switch_left_link.0 as int;
    let r = g.objects@[o]->Switch_right_link.0 as int;
    assert(g.link(n, l, 0));
    assert(g.link(n, r, 0));
}

/// The length of the link from `a` to `b`, if there is one; for a switch the
/// left branch is looked at first.
pub fn edge_length(g: &StaticInfrastructure, a: NodeId, b: NodeId) -> (r: Option<u64>)
    requires
        a < g.len() ==> g.node_ok(a as int),
    ensures
        r == g.edge_len(a as int, b as int),
{
    if a >= g.nodes.len() {
        return None;
    }
    match g.nodes[a].edges {
        Edges::Single(bx, d) => if b == bx {
            Some(d)
        } else {
            None
        },
        Edges::Switchable(objid) => {
            if objid >= g.objects.len() {
                return None;
            }
            match g.objects[objid] {
                StaticObject::Switch { left_link, right_link, .. } => {
                    if left_link.0 == b {
                        Some(left_link.1)
                    } else if right_link.0 == b {
                        Some(right_link.1)
                    } else {
                        None
                    }
                },
                _ => None,
            }
        },
        _ => None,
    }
}

} // verus!
