//! A transient position in the graph: at a node, or partway along an edge.
use vstd::prelude::*;
use crate::infra::{edge_length, lemma_link_edge_len, mate, Edges, NodeId, StaticInfrastructure, StaticObject};

verus! {

#[derive(Clone, Copy, Debug, PartialEq, Eq)]
pub enum Cursor {
    /// At a node, facing along that node's links.
    Node(NodeId),
    /// On the edge from the first node to the second, with the given distance
    /// left before the second node.
    Edge((NodeId, NodeId), u64),
}

/// How many ways lead out of a node.
pub open spec fn multiplicity(e: Edges) -> nat {
    match e {
        Edges::Switchable(_) => 2,
        Edges::ModelBoundary | Edges::Nothing => 0,
        Edges::Single(_, _) => 1,
    }
}

/// Ranks that measure progress where a walk passes zero-length links: a
/// node with a zero-length link ranks above one whose links are positive.
pub open spec fn node_rank(g: &StaticInfrastructure, n: int) -> int {
    if g.positive_out(n) {
        1
    } else {
        3
    }
}

pub open spec fn link_rank(d: int) -> int {
    if d > 0 {
        0
    } else {
        2
    }
}

/// Where a forward walk of length `l > 0` that starts at node `n` ends, if
/// every node it leaves has exactly one link.
pub open spec fn advance_node(g: &StaticInfrastructure, n: int, l: int) -> Option<Cursor>
    decreases l, node_rank(g, n),
    when g.wf() && 0 <= n < g.len() && l > 0
{
    match g.nodes@[n].edges {
        Edges::Single(b, d) => if d > l {
            Some(Cursor::Edge((n as usize, b), (d - l) as u64))
        } else if d == l {
            Some(Cursor::Node(mate(b as int) as usize))
        } else {
            proof {
                assert(g.node_ok(n));
                assert(g.link(n, b as int, d as int));
                if d == 0 {
                    assert(g.positive_out(mate(b as int)));
                }
                assert(g.node_ok(b as int));
            }
            advance_node(g, mate(b as int), l - d)
        },
        _ => None,
    }
}

/// The sighting search from node `a` with `d` of the budget `l` left: at a
/// node without links the branch ends there; otherwise each link is
/// searched in turn, the left branch of a switch first.
pub open spec fn search_node(g: &StaticInfrastructure, a: int, d: int, l: int) -> Seq<(Cursor, u64)>
    decreases d, node_rank(g, a),
    when g.wf() && 0 <= a < g.len() && 0 <= d <= l <= u64::MAX
{
    match g.nodes@[a].edges {
        Edges::Single(b, nd) => {
            proof {
                assert(g.node_ok(a));
                assert(g.link(a, b as int, nd as int));
            }
            search_link(g, a, b as int, nd as int, d, l)
        },
        Edges::Switchable(o) => {
            proof {
                assert(g.node_ok(a));
            }
            let lk = g.objects@[o as int]->Switch_left_link;
            let rk = g.objects@[o as int]->Switch_right_link;
            proof {
                assert(g.link(a, lk.0 as int, lk.1 as int));
                assert(g.link(a, rk.0 as int, rk.1 as int));
            }
            search_link(g, a, lk.0 as int, lk.1 as int, d, l) + search_link(
                g,
                a,
                rk.0 as int,
                rk.1 as int,
                d,
                l,
            )
        },
        _ => seq![(Cursor::Node(a as usize), (l - d) as u64)],
    }
}

/// The sighting search along the link from `a` to `b` of length `nd`, with
/// `d` of the budget `l` left.
pub open spec fn search_link(
    g: &StaticInfrastructure,
    a: int,
    b: int,
    nd: int,
    d: int,
    l: int,
) -> Seq<(Cursor, u64)>
    decreases d, link_rank(nd),
    when g.wf() && g.link(a, b, nd) && 0 <= d <= l <= u64::MAX
{
    if nd >= d {
        seq![(Cursor::Edge((a as usize, b as usize), (nd - d) as u64), l as u64)]
    } else if multiplicity(g.nodes@[b].edges) > 1 {
        seq![(Cursor::Edge((a as usize, b as usize), 0), (l - (d - nd)) as u64)]
    } else {
        proof {
            assert(g.node_ok(a));
            assert(g.link(b, a, nd));
            assert(g.node_ok(b));
            if nd == 0 {
                assert(g.positive_out(mate(b)));
            }
        }
        search_node(g, mate(b), d - nd, l)
    }
}

/// The sighting search from cursor `c` with budget `l`: each entry is a
/// place where a branch of the search stopped and the distance it covered.
pub open spec fn search(g: &StaticInfrastructure, c: Cursor, l: int) -> Seq<(Cursor, u64)> {
    match c {
        Cursor::Node(a) => search_node(g, a as int, l, l),
        Cursor::Edge((a, b), nd) => if nd >= l {
            seq![(Cursor::Edge((a, b), (nd - l) as u64), l as u64)]
        } else if multiplicity(g.nodes@[b as int].edges) > 1 {
            seq![(Cursor::Edge((a, b), 0), nd)]
        } else {
            search_node(g, mate(b as int), l - nd, l)
        },
    }
}

/// Where a forward walk of length `l` from cursor `c` ends: `None` where it
/// would have to leave a node that has no link or leads into a switch.
pub open spec fn advance(g: &StaticInfrastructure, c: Cursor, l: int) -> Option<Cursor> {
    if l <= 0 {
        Some(c)
    } else {
        match c {
            Cursor::Node(n) => advance_node(g, n as int, l),
            Cursor::Edge((a, b), d) => if d > l {
                Some(Cursor::Edge((a, b), (d - l) as u64))
            } else if d == l {
                Some(Cursor::Node(mate(b as int) as usize))
            } else {
                advance_node(g, mate(b as int), l - d)
            },
        }
    }
}

impl Cursor {
    /// The cursor lies in the graph: at an existing node, or on an existing
    /// link with no more than its length left.
    pub open spec fn valid(self, g: &StaticInfrastructure) -> bool {
        match self {
            Cursor::Node(n) => n < g.len(),
            Cursor::Edge((a, b), d) => g.edge_len(a as int, b as int) matches Some(len) && d <= len,
        }
    }

    /// The same place, facing the other way.
    pub open spec fn reversed(self, g: &StaticInfrastructure) -> Cursor {
        match self {
            Cursor::Node(n) => Cursor::Node(mate(n as int) as usize),
            Cursor::Edge((a, b), l) => Cursor::Edge(
                (b, a),
                (g.edge_len(a as int, b as int)->Some_0 - l) as u64,
            ),
        }
    }

    /// The pair of nodes the cursor lies within.
    pub open spec fn ends(self) -> (NodeId, NodeId) {
        match self {
            Cursor::Node(n) => (n, mate(n as int) as usize),
            Cursor::Edge((a, b), _) => (a, b),
        }
    }

    /// Moves forward by `l` along a single unambiguous path.
    pub fn advance_single(&self, dg: &StaticInfrastructure, l: u64) -> (r: Option<Cursor>)
        requires
            dg.wf(),
            self.valid(dg),
        ensures
            r == advance(dg, *self, l as int),
            r matches Some(c) ==> c.valid(dg),
    {
        if l == 0 {
            return Some(*self);
        }
        let (mut n, mut rem) = match *self {
            Cursor::Node(n) => (n, l),
            Cursor::Edge((a, b), d) => {
                proof {
                    lemma_link_edge_len(dg, a as int, b as int, d as int);
                    assert(dg.node_ok(a as int));
                }
                let len = edge_length(dg, a, b).unwrap();
                proof {
                    lemma_link_edge_len(dg, a as int, b as int, len as int);
                    assert(dg.link(b as int, a as int, len as int));
                    assert(dg.node_ok(b as int));
                }
                if d > l {
                    return Some(Cursor::Edge((a, b), d - l));
                } else if d == l {
                    return Some(Cursor::Node(dg.nodes[b].other_node));
                } else {
                    (dg.nodes[b].other_node, l - d)
                }
            },
        };
        loop
            invariant
                dg.wf(),
                n < dg.len(),
                rem > 0,
                advance_node(dg, n as int, rem as int) == advance(dg, *self, l as int),
            decreases rem, node_rank(dg, n as int),
        {
            proof {
                assert(dg.node_ok(n as int));
            }
            match dg.nodes[n].edges {
                Edges::Single(b, d) => {
                    proof {
                        assert(dg.link(n as int, b as int, d as int));
                        assert(dg.link(b as int, n as int, d as int));
                        assert(dg.node_ok(b as int));
                    }
                    if d > rem {
                        proof {
                            lemma_link_edge_len(dg, n as int, b as int, d as int);
                        }
                        return Some(Cursor::Edge((n, b), d - rem));
                    } else if d == rem {
                        return Some(Cursor::Node(dg.nodes[b].other_node));
                    } else {
                        proof {
                            if d == 0 {
                                assert(dg.positive_out(mate(b as int)));
                                assert(!dg.positive_out(n as int));
                            }
                        }
                        n = dg.nodes[b].other_node;
                        rem = rem - d;
                    }
                },
                _ => {
                    return None;
                },
            }
        }
    }

    /// Searches forward up to `l`, forking where it enters a switch from the
    /// trunk, and stopping where it comes out of a switch's branch onto the
    /// trunk, since the way on is not known there. Each entry is where one
    /// branch of the search stopped and the distance it covered.
    pub fn advance_nontrailing_truncate(&self, dg: &StaticInfrastructure, l: u64) -> (r: Vec<
        (Cursor, u64),
    >)
        requires
            dg.wf(),
            self.valid(dg),
        ensures
            r@ == search(dg, *self, l as int),
    {
        let mut output: Vec<(Cursor, u64)> = Vec::new();
        let mut cursors: Vec<(Cursor, u64)> = Vec::new();
        match *self {
            Cursor::Node(a) => {
                cursors.push((Cursor::Node(a), l));
            },
            Cursor::Edge((a, b), nd) => {
                proof {
                    lemma_link_edge_len(dg, a as int, b as int, nd as int);
                    let len = dg.edge_len(a as int, b as int)->Some_0;
                    lemma_link_edge_len(dg, a as int, b as int, len as int);
                    assert(dg.link(b as int, a as int, len as int));
                    assert(dg.node_ok(b as int));
                }
                if nd >= l {
                    output.push((Cursor::Edge((a, b), nd - l), l));
                } else if edge_multiplicity(&dg.nodes[b].edges) > 1 {
                    output.push((Cursor::Edge((a, b), 0), nd));
                } else {
                    cursors.push((Cursor::Node(dg.nodes[b].other_node), l - nd));
                }
            },
        }
        proof {
            assert(stack_results(dg, cursors@, l as int) =~= item_result(dg, cursors@.last(), l as int) + stack_results(dg, cursors@.drop_last(), l as int) || cursors@.len() == 0);
            if cursors@.len() == 1 {
                assert(cursors@.drop_last() =~= Seq::<(Cursor, u64)>::empty());
            }
            assert(output@ + stack_results(dg, cursors@, l as int) =~= search(dg, *self, l as int));
        }
        // Depth-first over an explicit stack of places and budgets left.
        while cursors.len() > 0
            invariant
                dg.wf(),
                forall|i: int| 0 <= i < cursors@.len() ==> item_ok(dg, #[trigger] cursors@[i], l as int),
                output@ + stack_results(dg, cursors@, l as int) == search(dg, *self, l as int),
            decreases stack_size(dg, cursors@, l as int),
        {
            let ghost st0 = cursors@;
            let (cursor, d) = cursors.pop().unwrap();
            proof {
                assert(st0.last() == (cursor, d));
                assert(cursors@ =~= st0.drop_last());
                assert(item_ok(dg, st0[st0.len() - 1], l as int));
            }
            let ghost rest = cursors@;
            let ghost out0 = output@;
            match cursor {
                Cursor::Edge((a0, b0), nd0) => {
                    proof {
                        assert(dg.node_ok(a0 as int));
                        assert(dg.link(b0 as int, a0 as int, nd0 as int));
                        assert(dg.node_ok(b0 as int));
                    }
                    if nd0 >= d {
                        output.push((Cursor::Edge((a0, b0), nd0 - d), l));
                    } else if edge_multiplicity(&dg.nodes[b0].edges) > 1 {
                        output.push((Cursor::Edge((a0, b0), 0), l - (d - nd0)));
                    } else {
                        proof {
                            if nd0 == 0 {
                                assert(dg.positive_out(mate(b0 as int)));
                            }
                        }
                        cursors.push((Cursor::Node(dg.nodes[b0].other_node), d - nd0));
                        proof {
                            lemma_stack_push(dg, rest, (Cursor::Node(mate(b0 as int) as usize), (d - nd0) as u64), l as int);
                        }
                    }
                },
                Cursor::Node(a) => {
                    proof {
                        assert(dg.node_ok(a as int));
                    }
                    if edge_multiplicity(&dg.nodes[a].edges) > 0 {
                        let es = out_edges(dg, a);
                        let mut k: usize = 0;
                        while k < es.len()
                            invariant
                                dg.wf(),
                                a < dg.len(),
                                dg.node_ok(a as int),
                                k <= es@.len(),
                                es@.len() == multiplicity(dg.nodes@[a as int].edges),
                                es@.len() > 0,
                                forall|q: int| 0 <= q < es@.len() ==> dg.link(a as int, es@[q].0 as int, es@[q].1 as int),
                                es@ == match dg.nodes@[a as int].edges {
                                    Edges::Single(n, dd) => seq![(n, dd)],
                                    Edges::Switchable(o) => seq![
                                        dg.objects@[o as int]->Switch_right_link,
                                        dg.objects@[o as int]->Switch_left_link,
                                    ],
                                    _ => seq![],
                                },
                                d <= l,
                                cursors@ == rest + Seq::new(k as nat, |q: int| (Cursor::Edge((a, es@[q].0), es@[q].1), d)),
                                forall|i: int| 0 <= i < cursors@.len() ==> item_ok(dg, #[trigger] cursors@[i], l as int),
                            decreases es@.len() - k,
                        {
                            let ghost before = cursors@;
                            cursors.push((Cursor::Edge((a, es[k].0), es[k].1), d));
                            proof {
                                assert(cursors@ =~= rest + Seq::new((k + 1) as nat, |q: int| (Cursor::Edge((a, es@[q].0), es@[q].1), d)));
                                assert forall|i: int| 0 <= i < cursors@.len() implies item_ok(dg, #[trigger] cursors@[i], l as int) by {
                                    if i < before.len() {
                                        assert(cursors@[i] == before[i]);
                                    }
                                }
                            }
                            k += 1;
                        }
                        proof {
                            let e0 = (Cursor::Edge((a, es@[0].0), es@[0].1), d);
                            lemma_stack_push(dg, rest, e0, l as int);
                            if es@.len() == 1 {
                                assert(cursors@ =~= rest.push(e0));
                            } else {
                                let e1 = (Cursor::Edge((a, es@[1].0), es@[1].1), d);
                                assert(cursors@ =~= rest.push(e0).push(e1));
                                lemma_stack_push(dg, rest.push(e0), e1, l as int);
                                if es@[0].1 == 0 || es@[1].1 == 0 {
                                    assert(!dg.positive_out(a as int));
                                }
                            }
                            if es@[0].1 == 0 {
                                assert(!dg.positive_out(a as int));
                            }
                        }
                    } else {
                        output.push((Cursor::Node(a), l - d));
                    }
                },
            }
            proof {
                lemma_stack_push(dg, rest, (cursor, d), l as int);
                assert(st0 =~= rest.push((cursor, d)));
                assert(output@ + stack_results(dg, cursors@, l as int) =~= search(dg, *self, l as int));
            }
        }
        output
    }

    /// Whether the cursor lies in the graph.
    pub fn is_valid(&self, dg: &StaticInfrastructure) -> (r: bool)
        requires
            dg.wf(),
        ensures
            r == self.valid(dg),
    {
        match self {
            Cursor::Node(n) => *n < dg.nodes.len(),
            Cursor::Edge((a, b), d) => {
                if *a < dg.nodes.len() {
                    proof {
                        assert(dg.node_ok(*a as int));
                    }
                }
                match edge_length(dg, *a, *b) {
                    Some(len) => *d <= len,
                    None => false,
                }
            },
        }
    }

    /// The ordered pair of nodes the cursor lies within.
    pub fn nodes(&self, dg: &StaticInfrastructure) -> (r: (NodeId, NodeId))
        requires
            dg.wf(),
            self.valid(dg),
        ensures
            r == self.ends(),
    {
        match self {
            Cursor::Node(n) => {
                proof {
                    assert(dg.node_ok(*n as int));
                }
                (*n, dg.nodes[*n].other_node)
            },
            Cursor::Edge((a, b), _d) => (*a, *b),
        }
    }

    /// The same place, facing the other way: a node becomes its mate, and a
    /// place on an edge is measured from the other end.
    pub fn reverse(&self, dg: &StaticInfrastructure) -> (r: Cursor)
        requires
            dg.wf(),
            self.valid(dg),
        ensures
            r == self.reversed(dg),
            r.valid(dg),
    {
        match self {
            Cursor::Node(n) => {
                proof {
                    assert(dg.node_ok(*n as int));
                }
                Cursor::Node(dg.nodes[*n].other_node)
            },
            Cursor::Edge((a, b), l) => {
                proof {
                    let len = dg.edge_len(*a as int, *b as int)->Some_0;
                    lemma_link_edge_len(dg, *a as int, *b as int, len as int);
                    assert(dg.link(*b as int, *a as int, len as int));
                    lemma_link_edge_len(dg, *b as int, *a as int, len as int);
                    assert(dg.node_ok(*a as int));
                }
                Cursor::Edge((*b, *a), edge_length(dg, *a, *b).unwrap() - *l)
            },
        }
    }
}

/// How many ways lead out of a node.
pub fn edge_multiplicity(e: &Edges) -> (r: usize)
    ensures
        r == multiplicity(*e),
{
    match e {
        Edges::Switchable(_) => 2,
        Edges::ModelBoundary | Edges::Nothing => 0,
        Edges::Single(_, _) => 1,
    }
}

/// The links leaving node `e`; for a switch the right branch comes first.
pub fn out_edges(dg: &StaticInfrastructure, e: NodeId) -> (r: Vec<(NodeId, u64)>)
    requires
        e < dg.len(),
        dg.node_ok(e as int),
    ensures
        r@ == match dg.nodes@[e as int].edges {
            Edges::Single(n, d) => seq![(n, d)],
            Edges::Switchable(o) => seq![
                dg.objects@[o as int]->Switch_right_link,
                dg.objects@[o as int]->Switch_left_link,
            ],
            _ => seq![],
        },
        forall|i: int| 0 <= i < r@.len() ==> dg.link(e as int, r@[i].0 as int, r@[i].1 as int),
{
    match dg.nodes[e].edges {
        Edges::Single(n, d) => vec![(n, d)],
        Edges::Switchable(obj) => match dg.objects[obj] {
            StaticObject::Switch { right_link, left_link, .. } => vec![right_link, left_link],
            _ => Vec::new(),
        },
        Edges::ModelBoundary | Edges::Nothing => Vec::new(),
    }
}

/// How many work items the sighting search handles from node `a`.
pub open spec fn size_node(g: &StaticInfrastructure, a: int, d: int, l: int) -> nat
    decreases d, node_rank(g, a),
    when g.wf() && 0 <= a < g.len() && 0 <= d <= l <= u64::MAX
{
    match g.nodes@[a].edges {
        Edges::Single(b, nd) => {
            proof {
                assert(g.node_ok(a));
                assert(g.link(a, b as int, nd as int));
            }
            1 + size_link(g, a, b as int, nd as int, d, l)
        },
        Edges::Switchable(o) => {
            proof {
                assert(g.node_ok(a));
            }
            let lk = g.objects@[o as int]->Switch_left_link;
            let rk = g.objects@[o as int]->Switch_right_link;
            proof {
                assert(g.link(a, lk.0 as int, lk.1 as int));
                assert(g.link(a, rk.0 as int, rk.1 as int));
            }
            1 + size_link(g, a, lk.0 as int, lk.1 as int, d, l) + size_link(g, a, rk.0 as int, rk.1 as int, d, l)
        },
        _ => 1,
    }
}

/// How many work items the sighting search handles along a link.
pub open spec fn size_link(g: &StaticInfrastructure, a: int, b: int, nd: int, d: int, l: int) -> nat
    decreases d, link_rank(nd),
    when g.wf() && g.link(a, b, nd) && 0 <= d <= l <= u64::MAX
{
    if nd >= d {
        1
    } else if multiplicity(g.nodes@[b].edges) > 1 {
        1
    } else {
        proof {
            assert(g.node_ok(a));
            assert(g.link(b, a, nd));
            assert(g.node_ok(b));
            if nd == 0 {
                assert(g.positive_out(mate(b)));
            }
        }
        1 + size_node(g, mate(b), d - nd, l)
    }
}

/// A work item of the sighting search: a node, or a link given with its
/// length, and the budget left.
pub open spec fn item_ok(g: &StaticInfrastructure, it: (Cursor, u64), l: int) -> bool {
    it.1 <= l && match it.0 {
        Cursor::Node(a) => a < g.len(),
        Cursor::Edge((a, b), nd) => g.link(a as int, b as int, nd as int),
    }
}

pub open spec fn item_result(g: &StaticInfrastructure, it: (Cursor, u64), l: int) -> Seq<(Cursor, u64)> {
    match it.0 {
        Cursor::Node(a) => search_node(g, a as int, it.1 as int, l),
        Cursor::Edge((a, b), nd) => search_link(g, a as int, b as int, nd as int, it.1 as int, l),
    }
}

pub open spec fn item_size(g: &StaticInfrastructure, it: (Cursor, u64), l: int) -> nat {
    match it.0 {
        Cursor::Node(a) => size_node(g, a as int, it.1 as int, l),
        Cursor::Edge((a, b), nd) => size_link(g, a as int, b as int, nd as int, it.1 as int, l),
    }
}

/// What the items on a stack yield, the top one first.
pub open spec fn stack_results(g: &StaticInfrastructure, st: Seq<(Cursor, u64)>, l: int) -> Seq<(Cursor, u64)>
    decreases st.len(),
{
    if st.len() == 0 {
        seq![]
    } else {
        item_result(g, st.last(), l) + stack_results(g, st.drop_last(), l)
    }
}

pub open spec fn stack_size(g: &StaticInfrastructure, st: Seq<(Cursor, u64)>, l: int) -> nat
    decreases st.len(),
{
    if st.len() == 0 {
        0
    } else {
        item_size(g, st.last(), l) + stack_size(g, st.drop_last(), l)
    }
}

proof fn lemma_stack_push(g: &StaticInfrastructure, st: Seq<(Cursor, u64)>, x: (Cursor, u64), l: int)
    ensures
        stack_results(g, st.push(x), l) == item_result(g, x, l) + stack_results(g, st, l),
        stack_size(g, st.push(x), l) == item_size(g, x, l) + stack_size(g, st, l),
{
    assert(st.push(x).drop_last() =~= st);
}

proof fn lemma_search_node_bounded(g: &StaticInfrastructure, a: int, d: int, l: int)
    requires
        g.wf(),
        0 <= a < g.len(),
        0 <= d <= l <= u64::MAX,
    ensures
        forall|i: int| 0 <= i < search_node(g, a, d, l).len() ==> (#[trigger] search_node(g, a, d, l)[i]).1 <= l
            && search_node(g, a, d, l)[i].0.valid(g),
        search_node(g, a, d, l).len() > 0,
    decreases d, node_rank(g, a),
{
    assert(g.node_ok(a));
    match g.nodes@[a].edges {
        Edges::Single(b, nd) => {
            assert(g.link(a, b as int, nd as int));
            if nd == 0 {
                assert(!g.positive_out(a));
            }
            lemma_search_link_bounded(g, a, b as int, nd as int, d, l);
            assert(search_node(g, a, d, l) == search_link(g, a, b as int, nd as int, d, l));
        },
        Edges::Switchable(o) => {
            let lk = g.objects@[o as int]->Switch_left_link;
            let rk = g.objects@[o as int]->Switch_right_link;
            assert(g.link(a, lk.0 as int, lk.1 as int));
            assert(g.link(a, rk.0 as int, rk.1 as int));
            assert(!g.positive_out(a));
            lemma_search_link_bounded(g, a, lk.0 as int, lk.1 as int, d, l);
            lemma_search_link_bounded(g, a, rk.0 as int, rk.1 as int, d, l);
            let x = search_link(g, a, lk.0 as int, lk.1 as int, d, l);
            let y = search_link(g, a, rk.0 as int, rk.1 as int, d, l);
            assert forall|i: int| 0 <= i < (x + y).len() implies (#[trigger] (x + y)[i]).1 <= l && (x + y)[i].0.valid(g) by {
                if i < x.len() {
                    assert((x + y)[i] == x[i]);
                } else {
                    assert((x + y)[i] == y[i - x.len()]);
                }
            }
            assert(search_node(g, a, d, l) == x + y);
        },
        _ => {
            assert(search_node(g, a, d, l) == seq![(Cursor::Node(a as usize), (l - d) as u64)]);
            assert(search_node(g, a, d, l)[0].1 == l - d);
        },
    }
}

proof fn lemma_search_link_bounded(g: &StaticInfrastructure, a: int, b: int, nd: int, d: int, l: int)
    requires
        g.wf(),
        g.link(a, b, nd),
        0 <= d <= l <= u64::MAX,
    ensures
        forall|i: int| 0 <= i < search_link(g, a, b, nd, d, l).len() ==> (#[trigger] search_link(g, a, b, nd, d, l)[i]).1 <= l
            && search_link(g, a, b, nd, d, l)[i].0.valid(g),
        search_link(g, a, b, nd, d, l).len() > 0,
    decreases d, link_rank(nd),
{
    assert(g.node_ok(a));
    assert(g.link(b, a, nd));
    assert(g.node_ok(b));
    lemma_link_edge_len(g, a, b, nd);
    if nd >= d {
        assert(search_link(g, a, b, nd, d, l)[0].1 == l);
    } else if multiplicity(g.nodes@[b].edges) > 1 {
        assert(search_link(g, a, b, nd, d, l)[0].1 == l - (d - nd));
    } else {
        if nd == 0 {
            assert(g.positive_out(mate(b)));
        }
        lemma_search_node_bounded(g, mate(b), d - nd, l);
        assert(search_link(g, a, b, nd, d, l) == search_node(g, mate(b), d - nd, l));
    }
}

/// The sighting search reports at least one place; every place it reports
/// lies in the graph, and none lies beyond the search's budget.
pub proof fn lemma_search_bounded(g: &StaticInfrastructure, c: Cursor, l: int)
    requires
        g.wf(),
        c.valid(g),
        0 <= l <= u64::MAX,
    ensures
        forall|i: int| 0 <= i < search(g, c, l).len() ==> (#[trigger] search(g, c, l)[i]).1 <= l
            && search(g, c, l)[i].0.valid(g),
        search(g, c, l).len() > 0,
{
    match c {
        Cursor::Node(a) => {
            lemma_search_node_bounded(g, a as int, l, l);
        },
        Cursor::Edge((a, b), nd) => {
            lemma_link_edge_len(g, a as int, b as int, nd as int);
            let len = g.edge_len(a as int, b as int)->Some_0;
            lemma_link_edge_len(g, a as int, b as int, len as int);
            assert(g.link(b as int, a as int, len as int));
            assert(g.node_ok(b as int));
            if nd < l && multiplicity(g.nodes@[b as int].edges) <= 1 {
                lemma_search_node_bounded(g, mate(b as int), l - nd, l);
            }
        },
    }
}

} // verus!
