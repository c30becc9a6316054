//! Splitting a graph into its components.

use crate::graph;
use crate::graph::{Adjacency, Graph, Name, NodeSet};
use crate::traversal;
use crate::traversal::bfs_component;
use vstd::prelude::*;

verus! {

/// The texts of a list of lists of strings.
pub open spec fn text_lists(lists: Seq<Vec<String>>) -> Seq<Seq<Name>> {
    lists.map_values(|l: Vec<String>| graph::texts(l@))
}

/// The members of the first `k` components.
pub open spec fn members_before(comps: Seq<Seq<Name>>, k: int) -> Set<Name>
    decreases k,
{
    if k <= 0 {
        Set::empty()
    } else {
        members_before(comps, k - 1) + comps[k - 1].to_set()
    }
}

/// Whether `comps` is what comes of taking the nodes in turn and traversing the graph from
/// each one that no earlier traversal has found.
pub open spec fn is_split(g: Graph, nodes: Seq<Name>, comps: Seq<Seq<Name>>) -> bool {
    &&& forall|k: int|
        0 <= k < comps.len() ==> is_component(g, nodes, comps, k)
    &&& forall|i: int|
        0 <= i < nodes.len() ==> members_before(comps, comps.len() as int).contains(
            #[trigger] nodes[i],
        )
}

/// Whether component `k` starts at the first node that no earlier component holds and is
/// the traversal from there that stays out of the earlier components.
pub open spec fn is_component(g: Graph, nodes: Seq<Name>, comps: Seq<Seq<Name>>, k: int) -> bool {
    let earlier = members_before(comps, k);
    &&& comps[k].len() > 0
    &&& traversal::breadth_first(g, earlier, comps[k][0], comps[k])
    &&& exists|i: int|
        {
            &&& 0 <= i < nodes.len()
            &&& #[trigger] nodes[i] == comps[k][0]
            &&& !earlier.contains(nodes[i])
            &&& forall|j: int| 0 <= j < i ==> earlier.contains(#[trigger] nodes[j])
        }
}

/// Later components do not change what the earlier ones hold.
proof fn lemma_members_prefix(a: Seq<Seq<Name>>, b: Seq<Seq<Name>>, k: int)
    requires
        0 <= k <= a.len(),
        k <= b.len(),
        forall|i: int| 0 <= i < k ==> a[i] == b[i],
    ensures
        members_before(a, k) == members_before(b, k),
    decreases k,
{
    if k > 0 {
        lemma_members_prefix(a, b, k - 1);
    }
}

/// What the first `k` components hold is what some one of them holds.
pub proof fn lemma_member_of_one(comps: Seq<Seq<Name>>, k: int, w: Name)
    requires
        0 <= k <= comps.len(),
    ensures
        members_before(comps, k).contains(w) <==> exists|i: int|
            0 <= i < k && #[trigger] comps[i].contains(w),
    decreases k,
{
    if k > 0 {
        lemma_member_of_one(comps, k - 1, w);
        assert(comps[k - 1].to_set().contains(w) <==> comps[k - 1].contains(w));
        if members_before(comps, k).contains(w) {
            if comps[k - 1].contains(w) {
            } else {
                let i = choose|i: int| 0 <= i < k - 1 && #[trigger] comps[i].contains(w);
                assert(comps[i].contains(w));
            }
        }
    }
}

/// Splits the graph into components, taking the nodes in the order in which they were added.
pub fn find_components(adj: &Adjacency) -> (r: Vec<Vec<String>>)
    requires
        adj.wf(),
    ensures
        is_split(adj@, adj.nodes(), text_lists(r@)),
{
    let ghost g = adj@;
    let ghost all = adj.nodes();
    let nodes: &Vec<String> = adj.node_names();
    let mut visited = NodeSet::new();
    let mut comps: Vec<Vec<String>> = Vec::new();
    assert(visited@.to_set() =~= Set::<Name>::empty());
    let mut i: usize = 0;
    while i < nodes.len()
        invariant
            adj.wf(),
            g == adj@,
            all == graph::texts(nodes@),
            i <= nodes@.len(),
            visited.wf(),
            visited@.to_set() == members_before(text_lists(comps@), comps@.len() as int),
            forall|k: int| 0 <= k < comps@.len() ==> is_component(g, all, text_lists(comps@), k),
            forall|j: int|
                0 <= j < i ==> members_before(
                    text_lists(comps@),
                    comps@.len() as int,
                ).contains(#[trigger] all[j]),
        decreases nodes@.len() - i,
    {
        let ghost done = text_lists(comps@);
        let ghost count = comps@.len() as int;
        assert(all[i as int] == nodes@[i as int]@);
        assert(visited@.contains(all[i as int]) <==> visited@.to_set().contains(all[i as int]));
        if !visited.contains(nodes[i].as_str()) {
            let found = bfs_component(nodes[i].as_str(), adj, &mut visited);
            comps.push(found);
            proof {
                let now = text_lists(comps@);
                assert(now =~= done.push(graph::texts(found@)));
                lemma_members_prefix(done, now, count);
                assert(now[count] == graph::texts(found@));
                assert(members_before(now, count + 1) == members_before(now, count)
                    + now[count].to_set());
                assert forall|k: int| 0 <= k < now.len() implies is_component(g, all, now, k) by {
                    if k < count {
                        assert(is_component(g, all, done, k));
                        lemma_members_prefix(done, now, k);
                    } else {
                        assert(all[i as int] == now[k][0]);
                    }
                }
                assert(now[count].contains(all[i as int])) by {
                    assert(now[count][0] == all[i as int]);
                }
            }
        }
        i += 1;
    }
    comps
}

/// The position of the largest component; of several that are equally large, the last one.
pub fn largest_component(comps: &Vec<Vec<String>>) -> (r: usize)
    requires
        comps@.len() > 0,
    ensures
        is_largest(text_lists(comps@), r as int),
        r < comps@.len(),
        forall|i: int|
            0 <= i < comps@.len() ==> (#[trigger] comps@[i])@.len() <= comps@[r as int]@.len(),
        forall|i: int|
            r < i < comps@.len() ==> (#[trigger] comps@[i])@.len() < comps@[r as int]@.len(),
{
    let mut best: usize = 0;
    let mut i: usize = 1;
    while i < comps.len()
        invariant
            0 < i <= comps@.len(),
            best < i,
            forall|k: int|
                0 <= k < i ==> (#[trigger] comps@[k])@.len() <= comps@[best as int]@.len(),
            forall|k: int|
                best < k < i ==> (#[trigger] comps@[k])@.len() < comps@[best as int]@.len(),
        decreases comps@.len() - i,
    {
        if comps[i].len() >= comps[best].len() {
            best = i;
        }
        i += 1;
    }
    best
}

/// Whether component `k` is the last of the largest ones.
pub open spec fn is_largest(comps: Seq<Seq<Name>>, k: int) -> bool {
    &&& 0 <= k < comps.len()
    &&& forall|i: int| 0 <= i < comps.len() ==> (#[trigger] comps[i]).len() <= comps[k].len()
    &&& forall|i: int| k < i < comps.len() ==> (#[trigger] comps[i]).len() < comps[k].len()
}

/// Reaching is transitive.
pub proof fn lemma_reach_transitive(g: Graph, a: Name, b: Name, c: Name)
    requires
        graph::reachable(g, Set::empty(), a, b),
        graph::reachable(g, Set::empty(), b, c),
    ensures
        graph::reachable(g, Set::empty(), a, c),
{
    let j = choose|j: nat| graph::within(g, Set::empty(), a, b, j);
    let k = choose|k: nat| graph::within(g, Set::empty(), b, c, k);
    lemma_within_transitive(g, a, b, c, j, k);
}

proof fn lemma_within_transitive(g: Graph, a: Name, b: Name, c: Name, j: nat, k: nat)
    requires
        graph::within(g, Set::empty(), a, b, j),
        graph::within(g, Set::empty(), b, c, k),
    ensures
        graph::within(g, Set::empty(), a, c, j + k),
    decreases k,
{
    if c == b {
        graph::lemma_within_monotonic(g, Set::empty(), a, b, j, j + k);
    } else {
        let u = choose|u: Name|
            graph::within(g, Set::empty(), b, u, (k - 1) as nat) && #[trigger] graph::edge(g, u, c);
        lemma_within_transitive(g, a, b, u, j, (k - 1) as nat);
        assert(graph::within(g, Set::empty(), a, u, (j + k - 1) as nat));
    }
}

/// In a symmetric graph reaching is symmetric.
pub proof fn lemma_reach_symmetric(g: Graph, a: Name, b: Name)
    requires
        graph::symmetric(g),
        graph::reachable(g, Set::empty(), a, b),
    ensures
        graph::reachable(g, Set::empty(), b, a),
{
    let k = choose|k: nat| graph::within(g, Set::empty(), a, b, k);
    lemma_within_symmetric(g, a, b, k);
}

proof fn lemma_within_symmetric(g: Graph, a: Name, b: Name, k: nat)
    requires
        graph::symmetric(g),
        graph::within(g, Set::empty(), a, b, k),
    ensures
        graph::reachable(g, Set::empty(), b, a),
    decreases k,
{
    if a == b {
        assert(graph::within(g, Set::empty(), b, a, 0));
    } else {
        let u = choose|u: Name|
            graph::within(g, Set::empty(), a, u, (k - 1) as nat) && #[trigger] graph::edge(g, u, b);
        lemma_within_symmetric(g, a, u, (k - 1) as nat);
        assert(graph::edge(g, b, u));
        assert(graph::within(g, Set::empty(), b, b, 0));
        assert(graph::within(g, Set::empty(), b, u, 1));
        lemma_reach_transitive(g, b, u, a);
    }
}

/// A step into fewer forbidden nodes is still possible.
proof fn lemma_within_unhindered(g: Graph, avoid: Set<Name>, s: Name, w: Name, k: nat)
    requires
        graph::within(g, avoid, s, w, k),
    ensures
        graph::within(g, Set::empty(), s, w, k),
    decreases k,
{
    if w != s {
        let u = choose|u: Name|
            graph::within(g, avoid, s, u, (k - 1) as nat) && #[trigger] graph::edge(g, u, w);
        lemma_within_unhindered(g, avoid, s, u, (k - 1) as nat);
    }
}

/// A traversal ends on nodes outside what it avoids.
proof fn lemma_reached_is_outside(g: Graph, avoid: Set<Name>, s: Name, w: Name)
    requires
        graph::reachable(g, avoid, s, w),
        !avoid.contains(s),
    ensures
        !avoid.contains(w),
{
    let k = choose|k: nat| graph::within(g, avoid, s, w, k);
    assert(graph::within(g, avoid, s, w, k));
}

/// In a symmetric graph no edge leads out of the components found so far.
proof fn lemma_no_edge_out(g: Graph, nodes: Seq<Name>, comps: Seq<Seq<Name>>, k: int, u: Name, v: Name)
    requires
        graph::symmetric(g),
        is_split(g, nodes, comps),
        0 <= k <= comps.len(),
        members_before(comps, k).contains(u),
        graph::edge(g, u, v),
    ensures
        members_before(comps, k).contains(v),
    decreases k,
{
    let earlier = members_before(comps, k - 1);
    if earlier.contains(u) {
        lemma_no_edge_out(g, nodes, comps, k - 1, u, v);
    } else {
        let c = comps[k - 1];
        assert(is_component(g, nodes, comps, k - 1));
        assert(c.contains(u));
        if earlier.contains(v) {
        } else {
            let d = choose|d: nat| graph::within(g, earlier, c[0], u, d);
            assert(graph::within(g, earlier, c[0], v, d + 1)) by {
                assert(graph::within(g, earlier, c[0], u, ((d + 1) - 1) as nat));
            }
            assert(c.contains(v));
        }
    }
}

/// No node is in two components.
pub proof fn law_components_disjoint(
    g: Graph,
    nodes: Seq<Name>,
    comps: Seq<Seq<Name>>,
    i: int,
    k: int,
    w: Name,
)
    requires
        is_split(g, nodes, comps),
        0 <= i < comps.len(),
        0 <= k < comps.len(),
        comps[i].contains(w),
        comps[k].contains(w),
    ensures
        i == k,
{
    if i != k {
        let (first, second) = if i < k {
            (i, k)
        } else {
            (k, i)
        };
        assert(is_component(g, nodes, comps, second));
        let earlier = members_before(comps, second);
        assert(comps[first].contains(w));
        lemma_member_of_one(comps, second, w);
        lemma_reached_is_outside(g, earlier, comps[second][0], w);
    }
}

/// Every node is in some component.
pub proof fn law_components_cover(g: Graph, nodes: Seq<Name>, comps: Seq<Seq<Name>>, w: Name)
    requires
        is_split(g, nodes, comps),
        nodes.contains(w),
    ensures
        exists|k: int| 0 <= k < comps.len() && #[trigger] comps[k].contains(w),
{
    lemma_member_of_one(comps, comps.len() as int, w);
}

/// In a symmetric graph a component is a connected class: from any of its members exactly
/// its members can be reached.
pub proof fn law_component_is_connected_class(
    g: Graph,
    nodes: Seq<Name>,
    comps: Seq<Seq<Name>>,
    k: int,
    a: Name,
    b: Name,
)
    requires
        graph::symmetric(g),
        is_split(g, nodes, comps),
        0 <= k < comps.len(),
        comps[k].contains(a),
    ensures
        comps[k].contains(b) <==> graph::reachable(g, Set::empty(), a, b),
{
    let c = comps[k];
    let earlier = members_before(comps, k);
    assert(is_component(g, nodes, comps, k));
    let d = choose|d: nat| graph::within(g, earlier, c[0], a, d);
    lemma_within_unhindered(g, earlier, c[0], a, d);
    assert(graph::reachable(g, Set::empty(), c[0], a));
    if c.contains(b) {
        let e = choose|e: nat| graph::within(g, earlier, c[0], b, e);
        lemma_within_unhindered(g, earlier, c[0], b, e);
        assert(graph::reachable(g, Set::empty(), c[0], b));
        lemma_reach_symmetric(g, c[0], a);
        lemma_reach_transitive(g, a, c[0], b);
    }
    if graph::reachable(g, Set::empty(), a, b) {
        let e = choose|e: nat| graph::within(g, Set::empty(), a, b, e);
        lemma_stays_inside(g, nodes, comps, k, a, b, e);
    }
}

proof fn lemma_stays_inside(
    g: Graph,
    nodes: Seq<Name>,
    comps: Seq<Seq<Name>>,
    k: int,
    a: Name,
    b: Name,
    e: nat,
)
    requires
        graph::symmetric(g),
        is_split(g, nodes, comps),
        0 <= k < comps.len(),
        comps[k].contains(a),
        graph::within(g, Set::empty(), a, b, e),
    ensures
        comps[k].contains(b),
    decreases e,
{
    if a != b {
        let u = choose|u: Name|
            graph::within(g, Set::empty(), a, u, (e - 1) as nat) && #[trigger] graph::edge(g, u, b);
        lemma_stays_inside(g, nodes, comps, k, a, u, (e - 1) as nat);
        let earlier = members_before(comps, k);
        assert(is_component(g, nodes, comps, k));
        lemma_reached_is_outside(g, earlier, comps[k][0], u);
        assert(comps[k].to_set().contains(u));
        lemma_no_edge_out(g, nodes, comps, k + 1, u, b);
        if earlier.contains(b) {
            assert(graph::edge(g, b, u));
            lemma_no_edge_out(g, nodes, comps, k, b, u);
        }
    }
}

/// Whether one of the first `k` components holds `n`.
pub open spec fn held_before(comps: Seq<Seq<Name>>, k: int, n: Name) -> bool {
    exists|m: int| 0 <= m < k && #[trigger] comps[m].contains(n)
}

/// Whether a link leads to member `i` of a list from an earlier one.
pub open spec fn led_to(g: Graph, c: Seq<Name>, i: int) -> bool {
    exists|j: int| 0 <= j < i && g.dom().contains(#[trigger] c[j]) && g[c[j]].contains(c[i])
}

/// A component begins with a node that no earlier component holds, all nodes listed before it being
/// held by earlier ones; every other member is led to by an earlier member; no member is listed
/// twice.
pub proof fn law_component_grows_along_links(
    g: Graph,
    nodes: Seq<Name>,
    comps: Seq<Seq<Name>>,
    k: int,
)
    requires
        is_split(g, nodes, comps),
        0 <= k < comps.len(),
    ensures
        comps[k].len() > 0,
        comps[k].no_duplicates(),
        !held_before(comps, k, comps[k][0]),
        exists|i: int|
            {
                &&& 0 <= i < nodes.len()
                &&& #[trigger] nodes[i] == comps[k][0]
                &&& forall|n: Name|
                    nodes.take(i).contains(n) ==> #[trigger] held_before(comps, k, n)
            },
        forall|i: int| 0 < i < comps[k].len() ==> #[trigger] led_to(g, comps[k], i),
{
    let c = comps[k];
    let earlier = members_before(comps, k);
    assert(is_component(g, nodes, comps, k));
    let dist = traversal::law_breadth_first_follows_the_links(g, earlier, c[0], c);
    lemma_member_of_one(comps, k, c[0]);
    let i = choose|i: int|
        {
            &&& 0 <= i < nodes.len()
            &&& #[trigger] nodes[i] == comps[k][0]
            &&& !earlier.contains(nodes[i])
            &&& forall|j: int| 0 <= j < i ==> earlier.contains(#[trigger] nodes[j])
        };
    assert forall|n: Name| nodes.take(i).contains(n) implies #[trigger] held_before(
        comps,
        k,
        n,
    ) by {
        let seen = nodes.take(i);
        let j = choose|j: int| 0 <= j < seen.len() && seen[j] == n;
        assert(nodes[j] == n);
        lemma_member_of_one(comps, k, n);
    }
    assert forall|i: int| 0 < i < c.len() implies #[trigger] led_to(g, c, i) by {
        assert(!earlier.contains(c[i]));
        let j = choose|j: int|
            {
                &&& 0 <= j < i
                &&& g.dom().contains(#[trigger] c[j])
                &&& g[c[j]].contains(c[i])
                &&& dist[j] + 1 == dist[i]
            };
        assert(g.dom().contains(c[j]));
    }
}

/// In a symmetric graph no link leads out of a component.
pub proof fn law_no_link_leaves_a_component(
    g: Graph,
    nodes: Seq<Name>,
    comps: Seq<Seq<Name>>,
    k: int,
    u: Name,
    v: Name,
)
    requires
        forall|a: Name, b: Name|
            g.dom().contains(a) && #[trigger] g[a].contains(b) ==> g.dom().contains(b)
                && g[b].contains(a),
        is_split(g, nodes, comps),
        0 <= k < comps.len(),
        comps[k].contains(u),
        g.dom().contains(u),
        g[u].contains(v),
    ensures
        comps[k].contains(v),
{
    assert(graph::symmetric(g)) by {
        assert forall|a: Name, b: Name| #[trigger] graph::edge(g, a, b) implies graph::edge(
            g,
            b,
            a,
        ) by {
            assert(g[a].contains(b));
        }
    }
    assert(graph::edge(g, u, v));
    assert(graph::within(g, Set::empty(), u, u, 0));
    assert(graph::within(g, Set::empty(), u, v, 1));
    assert(graph::reachable(g, Set::empty(), u, v));
    law_component_is_connected_class(g, nodes, comps, k, u, v);
}

} // verus!
