//! The port table: which node each (point, port) of a track end is.
use vstd::prelude::*;
use crate::infra::{mate, NodeId, StaticInfrastructure};
use crate::model::{same_end, Port, Pt};
use crate::tracks::grows;

verus! {

/// Which node each (point, port) is attached to: each key at most once.
pub type PortMap = Vec<((Pt, Port), NodeId)>;

/// The port table: keys and nodes are distinct, no port node is the mate of
/// another, and every port node's mate has only positive links.
pub open spec fn ports_ok(ports: Seq<((Pt, Port), NodeId)>, g: &StaticInfrastructure) -> bool {
    &&& forall|i: int, k: int| 0 <= i < k < ports.len() ==> (#[trigger] ports[i]).0 != (#[trigger] ports[k]).0
    &&& forall|i: int, k: int|
        0 <= i < ports.len() && 0 <= k < ports.len() && i != k ==> (#[trigger] ports[i]).1 != (#[trigger] ports[k]).1
    &&& forall|i: int, k: int|
        0 <= i < ports.len() && 0 <= k < ports.len() ==> (#[trigger] ports[i]).1 != mate((#[trigger] ports[k]).1 as int)
    &&& forall|i: int|
        0 <= i < ports.len() ==> (#[trigger] ports[i]).1 < g.len() && g.positive_out(mate(ports[i].1 as int))
}

pub open spec fn has_port(ports: Seq<((Pt, Port), NodeId)>, key: (Pt, Port)) -> bool {
    exists|i: int| 0 <= i < ports.len() && (#[trigger] ports[i]).0 == key
}

/// The port nodes of point `pt` have no links yet.
pub open spec fn ports_free(ports: Seq<((Pt, Port), NodeId)>, g: &StaticInfrastructure, pt: Pt) -> bool {
    forall|i: int| 0 <= i < ports.len() && (#[trigger] ports[i]).0.0 == pt ==> g.nodes@[ports[i].1 as int].edges is Nothing
}

pub(crate) fn find_port(ports: &PortMap, key: (Pt, Port)) -> (r: Option<usize>)
    ensures
        r matches Some(i) ==> i < ports@.len() && ports@[i as int].0 == key,
        r is None ==> !has_port(ports@, key),
{
    let mut i: usize = 0;
    while i < ports.len()
        invariant
            i <= ports@.len(),
            forall|k: int| 0 <= k < i ==> (#[trigger] ports@[k]).0 != key,
        decreases ports@.len() - i,
    {
        if same_end(ports[i].0, key) {
            return Some(i);
        }
        i += 1;
    }
    None
}

/// Attaches `key` to `node`, replacing what it was attached to.
pub(crate) fn set_port(ports: &mut PortMap, key: (Pt, Port), node: NodeId)
    ensures
        (exists|i: int| 0 <= i < old(ports)@.len() && old(ports)@[i].0 == key && final(ports)@ == old(ports)@.update(i, (key, node)))
            || (!has_port(old(ports)@, key) && final(ports)@ == old(ports)@.push((key, node))),
{
    match find_port(ports, key) {
        Some(i) => {
            ports.set(i, (key, node));
        },
        None => {
            ports.push((key, node));
        },
    }
}

/// The node that `key` is attached to.
pub(crate) fn port(ports: &PortMap, key: (Pt, Port)) -> (r: NodeId)
    requires
        has_port(ports@, key),
    ensures
        exists|i: int| 0 <= i < ports@.len() && ports@[i] == (key, r),
{
    match find_port(ports, key) {
        Some(i) => ports[i].1,
        None => 0,
    }
}

/// The node that `key` is attached to in the port table.
pub open spec fn port_node(ports: Seq<((Pt, Port), NodeId)>, key: (Pt, Port)) -> int {
    ports[choose|i: int| 0 <= i < ports.len() && (#[trigger] ports[i]).0 == key].1 as int
}

/// Node `n` is attached to some port of point `pt`.
pub open spec fn port_of(ports: Seq<((Pt, Port), NodeId)>, pt: Pt, n: int) -> bool {
    exists|i: int| 0 <= i < ports.len() && (#[trigger] ports[i]).0.0 == pt && ports[i].1 == n
}

pub(crate) proof fn lemma_port_node(ports: Seq<((Pt, Port), NodeId)>, g: &StaticInfrastructure, key: (Pt, Port), r: NodeId)
    requires
        ports_ok(ports, g),
        exists|i: int| 0 <= i < ports.len() && ports[i] == (key, r),
    ensures
        port_node(ports, key) == r,
        port_of(ports, key.0, r as int),
{
    let i = choose|i: int| 0 <= i < ports.len() && ports[i] == (key, r);
    let k = choose|k: int| 0 <= k < ports.len() && (#[trigger] ports[k]).0 == key;
    if i != k {
        if i < k {
            assert(ports[i].0 != ports[k].0);
        } else {
            assert(ports[k].0 != ports[i].0);
        }
    }
    assert(ports[i].0.0 == key.0);
}

pub(crate) proof fn lemma_ports_distinct(
    ports: Seq<((Pt, Port), NodeId)>,
    g: &StaticInfrastructure,
    k1: (Pt, Port),
    r1: NodeId,
    k2: (Pt, Port),
    r2: NodeId,
)
    requires
        ports_ok(ports, g),
        exists|i: int| 0 <= i < ports.len() && ports[i] == (k1, r1),
        exists|i: int| 0 <= i < ports.len() && ports[i] == (k2, r2),
        k1 != k2,
    ensures
        r1 != r2,
        port_node(ports, k1) == r1,
        port_node(ports, k2) == r2,
        port_of(ports, k1.0, r1 as int),
        port_of(ports, k2.0, r2 as int),
{
    let i1 = choose|i: int| 0 <= i < ports.len() && ports[i] == (k1, r1);
    let i2 = choose|i: int| 0 <= i < ports.len() && ports[i] == (k2, r2);
    assert(ports[i1].1 != ports[i2].1);
    lemma_port_node(ports, g, k1, r1);
    lemma_port_node(ports, g, k2, r2);
}

/// The port table holds on in a graph that grew.
pub(crate) proof fn lemma_ports_grow(ports: Seq<((Pt, Port), NodeId)>, g0: &StaticInfrastructure, g: &StaticInfrastructure)
    requires
        g0.wf(),
        ports_ok(ports, g0),
        grows(g0, g),
        forall|k: int| 0 <= k < ports.len() ==> g0.nodes@[(#[trigger] ports[k]).1 as int].edges is Nothing,
    ensures
        ports_ok(ports, g),
        forall|k: int| 0 <= k < ports.len() ==> g.nodes@[(#[trigger] ports[k]).1 as int].edges is Nothing,
{
    assert forall|k: int| 0 <= k < ports.len() implies (#[trigger] ports[k]).1 < g.len() && g.positive_out(mate(ports[k].1 as int)) by {
        assert(g0.positive_out(mate(ports[k].1 as int)));
    }
    assert forall|k: int| 0 <= k < ports.len() implies g.nodes@[(#[trigger] ports[k]).1 as int].edges is Nothing by {
        assert(g0.nodes@[ports[k].1 as int].edges is Nothing);
    }
}

/// Attaching `key` to a fresh port node keeps the table sound.
pub(crate) proof fn lemma_set_port(
    pre: Seq<((Pt, Port), NodeId)>,
    post: Seq<((Pt, Port), NodeId)>,
    g: &StaticInfrastructure,
    key: (Pt, Port),
    node: NodeId,
)
    requires
        ports_ok(pre, g),
        forall|k: int| 0 <= k < pre.len() ==> g.nodes@[(#[trigger] pre[k]).1 as int].edges is Nothing,
        (exists|i: int| 0 <= i < pre.len() && pre[i].0 == key && post == pre.update(i, (key, node)))
            || (!has_port(pre, key) && post == pre.push((key, node))),
        node < g.len(),
        g.nodes@[node as int].edges is Nothing,
        g.positive_out(mate(node as int)),
        forall|k: int| 0 <= k < pre.len() ==> (#[trigger] pre[k]).1 != node && pre[k].1 != mate(node as int),
    ensures
        ports_ok(post, g),
        forall|k: int| 0 <= k < post.len() ==> g.nodes@[(#[trigger] post[k]).1 as int].edges is Nothing,
        has_port(post, key),
        forall|k: (Pt, Port)| has_port(pre, k) ==> has_port(post, k),
        forall|k: int| 0 <= k < post.len() ==> (#[trigger] post[k]) == (key, node) || pre.contains(post[k]),
{
    if exists|i: int| 0 <= i < pre.len() && pre[i].0 == key && post == pre.update(i, (key, node)) {
        let i = choose|i: int| 0 <= i < pre.len() && pre[i].0 == key && post == pre.update(i, (key, node));
        assert(post[i].0 == key);
        assert forall|k: (Pt, Port)| has_port(pre, k) implies has_port(post, k) by {
            let m = choose|m: int| 0 <= m < pre.len() && (#[trigger] pre[m]).0 == k;
            assert(post[m].0 == k);
        }
        assert forall|k: int| 0 <= k < post.len() implies (#[trigger] post[k]) == (key, node) || pre.contains(post[k]) by {
            if k != i {
                assert(pre[k] == post[k]);
            }
        }
        assert forall|a: int, b: int| 0 <= a < post.len() && 0 <= b < post.len() implies (#[trigger] post[a]).1 != mate((#[trigger] post[b]).1 as int) by {
            if a != i && b != i {
                assert(post[a] == pre[a] && post[b] == pre[b]);
            } else if a != i {
                assert(post[a] == pre[a]);
            } else if b != i {
                assert(post[b] == pre[b]);
                assert(mate(mate(node as int)) == node);
            } else {
                assert(mate(node as int) != node);
            }
        }
    } else {
        assert(post[pre.len() as int].0 == key);
        assert forall|k: (Pt, Port)| has_port(pre, k) implies has_port(post, k) by {
            let m = choose|m: int| 0 <= m < pre.len() && (#[trigger] pre[m]).0 == k;
            assert(post[m].0 == k);
        }
        assert forall|k: int| 0 <= k < post.len() implies (#[trigger] post[k]) == (key, node) || pre.contains(post[k]) by {
            if k < pre.len() {
                assert(pre[k] == post[k]);
            }
        }
        assert forall|a: int, b: int| 0 <= a < b < post.len() implies (#[trigger] post[a]).0 != (#[trigger] post[b]).0 by {
            if b < pre.len() {
                assert(post[a] == pre[a] && post[b] == pre[b]);
            } else {
                assert(post[a] == pre[a]);
            }
        }
        assert forall|a: int, b: int| 0 <= a < post.len() && 0 <= b < post.len() implies (#[trigger] post[a]).1 != mate((#[trigger] post[b]).1 as int) by {
            let n0 = pre.len() as int;
            if a != n0 && b != n0 {
                assert(post[a] == pre[a] && post[b] == pre[b]);
            } else if a != n0 {
                assert(post[a] == pre[a]);
            } else if b != n0 {
                assert(post[b] == pre[b]);
                assert(mate(mate(node as int)) == node);
            } else {
                assert(mate(node as int) != node);
            }
        }
    }
}

/// The node that a present key is attached to is one of its point's port nodes.
pub(crate) proof fn lemma_has_port_node(ports: Seq<((Pt, Port), NodeId)>, key: (Pt, Port))
    requires
        has_port(ports, key),
    ensures
        port_of(ports, key.0, port_node(ports, key)),
        exists|i: int| 0 <= i < ports.len() && ports[i].0 == key && ports[i].1 == port_node(ports, key),
{
    let i = choose|i: int| 0 <= i < ports.len() && (#[trigger] ports[i]).0 == key;
    assert(ports[i].0.0 == key.0);
}

/// Two present keys are attached to two distinct nodes.
pub proof fn lemma_ports_distinct_pub(ports: Seq<((Pt, Port), NodeId)>, g: &StaticInfrastructure, k1: (Pt, Port), k2: (Pt, Port))
    requires
        ports_ok(ports, g),
        has_port(ports, k1),
        has_port(ports, k2),
        k1 != k2,
    ensures
        port_node(ports, k1) != port_node(ports, k2),
{
    lemma_has_port_node(ports, k1);
    lemma_has_port_node(ports, k2);
    let i1 = choose|i: int| 0 <= i < ports.len() && ports[i].0 == k1 && ports[i].1 == port_node(ports, k1);
    let i2 = choose|i: int| 0 <= i < ports.len() && ports[i].0 == k2 && ports[i].1 == port_node(ports, k2);
    assert(ports[i1].1 != ports[i2].1);
}

} // verus!
