//! The graph of the swarm's active peers.

use crate::graph;
use crate::graph::{Adjacency, Graph, Name};
use vstd::prelude::*;

verus! {

/// What is known of one peer: its node id, the neighbors it reports, and whether it has
/// been silent for too long.
pub struct PeerStatus {
    pub node_id: String,
    pub neighbors: Vec<String>,
    pub stale: bool,
}

/// The peers of the swarm at one moment.
pub struct SwarmSnapshot {
    pub peers: Vec<PeerStatus>,
}

/// Whether some peer with this id is not stale.
pub open spec fn active(peers: Seq<PeerStatus>, n: Name) -> bool {
    exists|i: int| 0 <= i < peers.len() && !(#[trigger] peers[i]).stale && peers[i].node_id@ == n
}

/// The ids of the peers that are not stale, each once, in the order of the snapshot.
pub open spec fn active_ids(peers: Seq<PeerStatus>) -> Seq<Name>
    decreases peers.len(),
{
    if peers.len() == 0 {
        Seq::empty()
    } else {
        let ids = active_ids(peers.drop_last());
        let peer = peers.last();
        if peer.stale || ids.contains(peer.node_id@) {
            ids
        } else {
            ids.push(peer.node_id@)
        }
    }
}

/// Whether the link between peer `i`, which is not stale, and the active peer that it reports
/// as neighbor `j` joins `u` and `v`, in either direction.
pub open spec fn link_at(peers: Seq<PeerStatus>, i: int, j: int, u: Name, v: Name) -> bool {
    let a = peers[i].node_id@;
    let b = peers[i].neighbors@[j]@;
    &&& 0 <= i < peers.len()
    &&& 0 <= j < peers[i].neighbors@.len()
    &&& !peers[i].stale
    &&& active(peers, b)
    &&& u == a && v == b || u == b && v == a
}

/// Whether two active peers are linked: one of them reports the other.
pub open spec fn linked(peers: Seq<PeerStatus>, u: Name, v: Name) -> bool {
    exists|i: int, j: int| link_at(peers, i, j, u, v)
}

pub proof fn lemma_active_ids(peers: Seq<PeerStatus>)
    ensures
        active_ids(peers).no_duplicates(),
        forall|n: Name| #[trigger] active_ids(peers).contains(n) <==> active(peers, n),
    decreases peers.len(),
{
    if peers.len() > 0 {
        let rest = peers.drop_last();
        let last = peers.last();
        lemma_active_ids(rest);
        let ids = active_ids(rest);
        if !last.stale && !ids.contains(last.node_id@) {
            graph::lemma_push_new(ids, last.node_id@);
        }
        assert forall|n: Name| #[trigger] active_ids(peers).contains(n) <==> active(peers, n) by {
            assert(active_ids(peers).to_set().contains(n) <==> active_ids(peers).contains(n));
            assert(ids.to_set().contains(n) <==> ids.contains(n));
            if active(rest, n) {
                let i = choose|i: int|
                    0 <= i < rest.len() && !(#[trigger] rest[i]).stale && rest[i].node_id@ == n;
                assert(peers[i] == rest[i]);
            }
            if active(peers, n) {
                let i = choose|i: int|
                    0 <= i < peers.len() && !(#[trigger] peers[i]).stale && peers[i].node_id@ == n;
                if i < rest.len() {
                    assert(rest[i] == peers[i]);
                }
            }
            if !last.stale && last.node_id@ == n {
                assert(!peers[peers.len() - 1].stale);
            }
        }
    }
}

/// Whether a peer that is not stale has the id `u` and names `v` as a neighbor, and some peer that
/// is not stale has the id `v`.
pub open spec fn reports(peers: Seq<PeerStatus>, u: Name, v: Name) -> bool {
    &&& exists|i: int|
        {
            &&& 0 <= i < peers.len()
            &&& !(#[trigger] peers[i]).stale
            &&& peers[i].node_id@ == u
            &&& exists|j: int|
                0 <= j < peers[i].neighbors@.len() && (#[trigger] peers[i].neighbors@[j])@ == v
        }
    &&& exists|k: int| 0 <= k < peers.len() && !(#[trigger] peers[k]).stale && peers[k].node_id@ == v
}

/// Two peers are linked if and only if one of them, not being stale, names the other, and the
/// other is not stale either.
pub proof fn law_linked_where_one_reports_the_other(peers: Seq<PeerStatus>, u: Name, v: Name)
    ensures
        linked(peers, u, v) <==> reports(peers, u, v) || reports(peers, v, u),
{
    if linked(peers, u, v) {
        let (i, j) = choose|i: int, j: int| link_at(peers, i, j, u, v);
        assert(!peers[i].stale);
        assert(peers[i].neighbors@[j]@ == u || peers[i].neighbors@[j]@ == v);
    }
    if reports(peers, u, v) {
        lemma_reported(peers, u, v);
    }
    if reports(peers, v, u) {
        lemma_reported(peers, v, u);
    }
}

proof fn lemma_reported(peers: Seq<PeerStatus>, u: Name, v: Name)
    requires
        reports(peers, u, v),
    ensures
        linked(peers, u, v),
        linked(peers, v, u),
{
    let i = choose|i: int|
        {
            &&& 0 <= i < peers.len()
            &&& !(#[trigger] peers[i]).stale
            &&& peers[i].node_id@ == u
            &&& exists|j: int|
                0 <= j < peers[i].neighbors@.len() && (#[trigger] peers[i].neighbors@[j])@ == v
        };
    let j = choose|j: int|
        0 <= j < peers[i].neighbors@.len() && (#[trigger] peers[i].neighbors@[j])@ == v;
    assert(active(peers, v));
    assert(link_at(peers, i, j, u, v));
    assert(link_at(peers, i, j, v, u));
}

/// The active ids are those of the peers that are not stale, each once, in the order in which the
/// peers first have them.
pub proof fn law_active_ids_in_order(peers: Seq<PeerStatus>)
    ensures
        active_ids(peers).no_duplicates(),
        forall|n: Name|
            #![trigger active_ids(peers).contains(n)]
            active_ids(peers).contains(n) <==> exists|i: int|
                0 <= i < peers.len() && !(#[trigger] peers[i]).stale && peers[i].node_id@ == n,
        forall|a: int, b: int|
            0 <= a < b < active_ids(peers).len() ==> #[trigger] comes_before(
                peers,
                active_ids(peers)[a],
                active_ids(peers)[b],
            ),
    decreases peers.len(),
{
    lemma_active_ids(peers);
    if peers.len() > 0 {
        let front = peers.drop_last();
        let ids = active_ids(front);
        law_active_ids_in_order(front);
        assert forall|a: int, b: int| 0 <= a < b < active_ids(peers).len() implies #[trigger]
            comes_before(peers, active_ids(peers)[a], active_ids(peers)[b]) by {
            let x = active_ids(peers)[a];
            let y = active_ids(peers)[b];
            assert(ids[a] == x);
            if b < ids.len() {
                assert(comes_before(front, ids[a], ids[b]));
                let i = choose|i: int|
                    {
                        &&& 0 <= i < front.len()
                        &&& !(#[trigger] front[i]).stale
                        &&& front[i].node_id@ == x
                        &&& !active(front.take(i + 1), y)
                    };
                assert(peers[i] == front[i]);
                assert(peers.take(i + 1) =~= front.take(i + 1));
            } else {
                assert(ids.contains(x));
                assert(!ids.contains(y));
                let i = choose|i: int|
                    0 <= i < front.len() && !(#[trigger] front[i]).stale && front[i].node_id@ == x;
                assert(peers[i] == front[i]);
                if active(peers.take(i + 1), y) {
                    let seen = peers.take(i + 1);
                    let k = choose|k: int|
                        0 <= k < seen.len() && !(#[trigger] seen[k]).stale && seen[k].node_id@ == y;
                    assert(front[k] == seen[k]);
                    assert(!front[k].stale && front[k].node_id@ == y);
                }
            }
        }
    }
}

/// Whether a peer that is not stale has the id `x` before any that is not stale has the id `y`.
pub open spec fn comes_before(peers: Seq<PeerStatus>, x: Name, y: Name) -> bool {
    exists|i: int|
        {
            &&& 0 <= i < peers.len()
            &&& !(#[trigger] peers[i]).stale
            &&& peers[i].node_id@ == x
            &&& !active(peers.take(i + 1), y)
        }
}

/// Adding an edge adds that edge and no other.
proof fn lemma_with_edge(g: Graph, a: Name, b: Name)
    ensures
        forall|u: Name, v: Name| #[trigger]
            graph::edge(graph::with_edge(g, a, b), u, v) <==> graph::edge(g, u, v) || u == a && v
                == b,
{
    let h = graph::with_node(g, a);
    let r = graph::with_edge(g, a, b);
    assert forall|u: Name, v: Name| #[trigger] graph::edge(r, u, v) <==> graph::edge(g, u, v) || u
        == a && v == b by {
        if u == a {
            if !h[a].contains(b) {
                assert(r[a] == h[a].push(b));
                assert(r[a][h[a].len() as int] == b);
                if h[a].contains(v) {
                    let k = choose|k: int| 0 <= k < h[a].len() && h[a][k] == v;
                    assert(r[a][k] == v);
                }
            }
        }
    }
}

/// Builds the graph of the active peers: its nodes are the peers that are not stale, and two
/// of them have an edge, in both directions, where one reports the other.
pub fn build_graph(snapshot: &SwarmSnapshot) -> (r: Adjacency)
    ensures
        r.wf(),
        r.nodes() == active_ids(snapshot.peers@),
        forall|u: Name, v: Name| #[trigger]
            graph::edge(r@, u, v) <==> linked(snapshot.peers@, u, v),
        forall|n: Name|
            #![trigger r.nodes().contains(n)]
            r.nodes().contains(n) <==> exists|i: int|
                0 <= i < snapshot.peers@.len() && !(#[trigger] snapshot.peers@[i]).stale
                    && snapshot.peers@[i].node_id@ == n,
        forall|u: Name, v: Name|
            #![trigger r@[u].contains(v)]
            r@.dom().contains(u) && r@[u].contains(v) <==> reports(snapshot.peers@, u, v)
                || reports(snapshot.peers@, v, u),
{
    let ghost peers = snapshot.peers@;
    let mut adj = Adjacency::new();
    let count: usize = snapshot.peers.len();
    let mut i: usize = 0;
    assert(peers.take(0) =~= Seq::<PeerStatus>::empty());
    while i < count
        invariant
            i <= count,
            peers == snapshot.peers@,
            count == peers.len(),
            adj.wf(),
            adj.nodes() == active_ids(peers.take(i as int)),
            forall|u: Name, v: Name| !#[trigger] graph::edge(adj@, u, v),
        decreases count - i,
    {
        let peer: &PeerStatus = &snapshot.peers[i];
        let ghost before = adj@;
        assert(peers.take(i + 1).drop_last() =~= peers.take(i as int));
        assert(peers.take(i + 1).last() == *peer);
        if !peer.stale {
            adj.add_node(peer.node_id.as_str());
            assert forall|u: Name, v: Name| !#[trigger] graph::edge(adj@, u, v) by {
                assert(!graph::edge(before, u, v));
            }
        }
        i += 1;
    }
    assert(peers.take(count as int) =~= peers);
    proof {
        lemma_active_ids(peers);
    }
    let mut i: usize = 0;
    while i < count
        invariant
            i <= count,
            peers == snapshot.peers@,
            count == peers.len(),
            adj.wf(),
            adj.nodes() == active_ids(peers),
            forall|n: Name| #[trigger] active_ids(peers).contains(n) <==> active(peers, n),
            forall|u: Name, v: Name| #[trigger]
                graph::edge(adj@, u, v) <==> exists|a: int, b: int|
                    a < i && link_at(peers, a, b, u, v),
        decreases count - i,
    {
        let peer: &PeerStatus = &snapshot.peers[i];
        if !peer.stale {
            assert(active(peers, peer.node_id@)) by {
                assert(peers[i as int] == *peer);
            }
            let n: usize = peer.neighbors.len();
            let mut j: usize = 0;
            while j < n
                invariant
                    j <= n,
                    i < count,
                    count == peers.len(),
                    *peer == peers[i as int],
                    !peer.stale,
                    active(peers, peer.node_id@),
                    n == peer.neighbors@.len(),
                    adj.wf(),
                    adj.nodes() == active_ids(peers),
                    forall|n: Name| #[trigger] active_ids(peers).contains(n) <==> active(peers, n),
                    forall|u: Name, v: Name| #[trigger]
                        graph::edge(adj@, u, v) <==> exists|a: int, b: int|
                            (a < i || a == i && b < j) && link_at(peers, a, b, u, v),
                decreases n - j,
            {
                let name: &String = &peer.neighbors[j];
                let ghost g0 = adj@;
                let known: bool = match adj.neighbors(name.as_str()) {
                    Some(_) => true,
                    None => false,
                };
                assert(known == active(peers, name@)) by {
                    assert(adj@.dom().contains(name@) <==> adj.nodes().contains(name@));
                }
                if known {
                    adj.add_edge(name.as_str(), peer.node_id.as_str());
                    let ghost g1 = adj@;
                    adj.add_edge(peer.node_id.as_str(), name.as_str());
                    proof {
                        lemma_with_edge(g0, name@, peer.node_id@);
                        lemma_with_edge(g1, peer.node_id@, name@);
                    }
                }
                assert forall|u: Name, v: Name| #[trigger]
                    graph::edge(adj@, u, v) <==> exists|a: int, b: int|
                        (a < i || a == i && b < j + 1) && link_at(peers, a, b, u, v) by {
                    assert(graph::edge(g0, u, v) <==> exists|a: int, b: int|
                        (a < i || a == i && b < j) && link_at(peers, a, b, u, v));
                    if graph::edge(adj@, u, v) && !graph::edge(g0, u, v) {
                        assert(link_at(peers, i as int, j as int, u, v));
                    }
                    if graph::edge(g0, u, v) {
                        let (a, b) = choose|a: int, b: int|
                            (a < i || a == i && b < j) && link_at(peers, a, b, u, v);
                        assert((a < i || a == i && b < j + 1) && link_at(peers, a, b, u, v));
                    }
                    if exists|a: int, b: int|
                        (a < i || a == i && b < j + 1) && link_at(peers, a, b, u, v) {
                        let (a, b) = choose|a: int, b: int|
                            (a < i || a == i && b < j + 1) && link_at(peers, a, b, u, v);
                        if !(a < i || a == i && b < j) {
                            assert(a == i && b == j);
                            assert(known);
                        }
                    }
                }
                j += 1;
            }
        }
        assert forall|u: Name, v: Name| #[trigger]
            graph::edge(adj@, u, v) <==> exists|a: int, b: int|
                a < i + 1 && link_at(peers, a, b, u, v) by {
            if graph::edge(adj@, u, v) {
                let (a, b) = choose|a: int, b: int|
                    (a <= i) && link_at(peers, a, b, u, v);
                assert(a < i + 1 && link_at(peers, a, b, u, v));
            }
            if exists|a: int, b: int| a < i + 1 && link_at(peers, a, b, u, v) {
                let (a, b) = choose|a: int, b: int| a < i + 1 && link_at(peers, a, b, u, v);
                if a < i {
                    assert(a < i && link_at(peers, a, b, u, v));
                }
            }
        }
        i += 1;
    }
    assert forall|u: Name, v: Name| #[trigger]
        graph::edge(adj@, u, v) <==> linked(peers, u, v) by {
        if linked(peers, u, v) {
            let (a, b) = choose|a: int, b: int| link_at(peers, a, b, u, v);
            assert(a < i && link_at(peers, a, b, u, v));
        }
    }
    proof {
        assert forall|u: Name, v: Name|
            #![trigger adj@[u].contains(v)]
            adj@.dom().contains(u) && adj@[u].contains(v) <==> reports(peers, u, v) || reports(
                peers,
                v,
                u,
            ) by {
            law_linked_where_one_reports_the_other(peers, u, v);
            assert(graph::edge(adj@, u, v) <==> linked(peers, u, v));
        }
        assert forall|n: Name|
            #![trigger adj.nodes().contains(n)]
            adj.nodes().contains(n) <==> exists|i: int|
                0 <= i < peers.len() && !(#[trigger] peers[i]).stale && peers[i].node_id@ == n by {
            assert(active_ids(peers).contains(n) <==> active(peers, n));
        }
    }
    adj
}

/// The graph of the active peers is symmetric, and both ends of each edge are nodes.
pub proof fn law_graph_is_undirected(peers: Seq<PeerStatus>, g: Graph)
    requires
        forall|u: Name, v: Name| #[trigger] graph::edge(g, u, v) <==> linked(peers, u, v),
    ensures
        graph::symmetric(g),
        forall|u: Name, v: Name| #[trigger]
            graph::edge(g, u, v) ==> active(peers, u) && active(peers, v),
{
    assert forall|u: Name, v: Name| #[trigger] graph::edge(g, u, v) implies graph::edge(g, v, u)
        && active(peers, u) && active(peers, v) by {
        let (i, j) = choose|i: int, j: int| link_at(peers, i, j, u, v);
        assert(link_at(peers, i, j, v, u));
        assert(linked(peers, v, u));
        assert(!peers[i].stale);
    }
}

} // verus!
