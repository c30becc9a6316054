//! Breadth-first traversal: reachable components, distances and shortest-path predecessors.

use crate::graph;
use crate::graph::{Adjacency, Graph, Name, NodeSet};
use vstd::hash_map::StringHashMap;
use vstd::prelude::*;

verus! {

/// Whether `order` lists, each once, the nodes that can be reached from `s` without a step
/// into `avoid`, starting with `s` and nearer nodes before farther ones.
pub open spec fn breadth_first(g: Graph, avoid: Set<Name>, s: Name, order: Seq<Name>) -> bool {
    &&& order.len() > 0
    &&& order[0] == s
    &&& order.no_duplicates()
    &&& forall|w: Name| #[trigger] order.contains(w) <==> graph::reachable(g, avoid, s, w)
    &&& forall|i: int, j: int, d: nat, e: nat|
        0 <= i <= j < order.len() && #[trigger] graph::distance_is(g, avoid, s, order[i], d)
            && #[trigger] graph::distance_is(g, avoid, s, order[j], e) ==> d <= e
}

/// What a breadth-first traversal from `s` knows after the first `head` nodes of `order`
/// have been expanded; `dist[i]` is the distance of `order[i]`.
spec fn bfs_state(
    g: Graph,
    avoid: Set<Name>,
    s: Name,
    order: Seq<Name>,
    dist: Seq<nat>,
    head: int,
) -> bool {
    &&& 0 <= head <= order.len()
    &&& order.len() == dist.len()
    &&& order.len() > 0
    &&& order[0] == s
    &&& order.no_duplicates()
    &&& forall|i: int| 0 < i < order.len() ==> !avoid.contains(#[trigger] order[i])
    &&& forall|i: int|
        0 <= i < order.len() ==> graph::distance_is(
            g,
            avoid,
            s,
            #[trigger] order[i],
            dist[i],
        )
    &&& forall|i: int, j: int| 0 <= i <= j < dist.len() ==> dist[i] <= dist[j]
    &&& forall|i: int| 0 <= i < dist.len() ==> #[trigger] dist[i] <= i
    &&& forall|i: int|
        head <= i < dist.len() ==> #[trigger] dist[i] <= dist[if head < dist.len() {
            head
        } else {
            i
        }] + 1
    &&& forall|i: int, v: Name|
        0 <= i < head && #[trigger] graph::edge(g, order[i], v) && !avoid.contains(v)
            ==> order.contains(v)
}

/// Whatever lies no farther than the node that is next to be expanded has been found.
proof fn lemma_found(
    g: Graph,
    avoid: Set<Name>,
    s: Name,
    order: Seq<Name>,
    dist: Seq<nat>,
    head: int,
    w: Name,
    k: nat,
)
    requires
        bfs_state(g, avoid, s, order, dist, head),
        graph::within(g, avoid, s, w, k),
        head == order.len() || k <= dist[head],
    ensures
        order.contains(w),
    decreases k,
{
    if w == s {
        assert(order[0] == w);
    } else {
        let u = choose|u: Name|
            graph::within(g, avoid, s, u, (k - 1) as nat) && #[trigger] graph::edge(
                g,
                u,
                w,
            );
        lemma_found(g, avoid, s, order, dist, head, u, (k - 1) as nat);
        let i = choose|i: int| 0 <= i < order.len() && order[i] == u;
        assert(graph::distance_is(g, avoid, s, order[i], dist[i]));
        assert(dist[i] <= k - 1);
        assert(i < head);
        assert(graph::edge(g, order[i], w));
    }
}

/// A neighbor of the node that is being expanded joins the traversal, one step farther away.
proof fn lemma_discover(
    g: Graph,
    avoid: Set<Name>,
    s: Name,
    order: Seq<Name>,
    dist: Seq<nat>,
    head: int,
    w: Name,
)
    requires
        bfs_state(g, avoid, s, order, dist, head),
        head < order.len(),
        graph::edge(g, order[head], w),
        !avoid.contains(w),
        !order.contains(w),
    ensures
        bfs_state(g, avoid, s, order.push(w), dist.push(dist[head] + 1), head),
{
    let d = dist[head] + 1;
    assert(graph::distance_is(g, avoid, s, order[head], dist[head]));
    assert(graph::within(g, avoid, s, w, d)) by {
        assert(graph::within(g, avoid, s, order[head], (d - 1) as nat));
        assert(graph::edge(g, order[head], w));
    }
    assert forall|k: nat| k < d implies !graph::within(g, avoid, s, w, k) by {
        if graph::within(g, avoid, s, w, k) {
            lemma_found(g, avoid, s, order, dist, head, w, k);
        }
    }
    graph::lemma_push_new(order, w);
    let order2 = order.push(w);
    let dist2 = dist.push(d);
    assert forall|i: int, v: Name|
        0 <= i < head && #[trigger] graph::edge(g, order2[i], v) && !avoid.contains(
            v,
        ) implies order2.contains(v) by {
        assert(graph::edge(g, order[i], v));
        assert(order.contains(v));
        let j = choose|j: int| 0 <= j < order.len() && order[j] == v;
        assert(order2[j] == v);
    }
    assert forall|i: int| 0 <= i < order2.len() implies graph::distance_is(
        g,
        avoid,
        s,
        #[trigger] order2[i],
        dist2[i],
    ) by {
        if i < order.len() {
            assert(graph::distance_is(g, avoid, s, order[i], dist[i]));
        }
    }
}

/// A node is expanded once all its neighbors outside `avoid` have been found.
proof fn lemma_expanded(
    g: Graph,
    avoid: Set<Name>,
    s: Name,
    order: Seq<Name>,
    dist: Seq<nat>,
    head: int,
)
    requires
        bfs_state(g, avoid, s, order, dist, head),
        head < order.len(),
        forall|v: Name|
            graph::edge(g, order[head], v) && !avoid.contains(v) ==> order.contains(v),
    ensures
        bfs_state(g, avoid, s, order, dist, head + 1),
{
    assert forall|i: int| head + 1 <= i < dist.len() implies #[trigger] dist[i] <= dist[if head + 1
        < dist.len() {
        head + 1
    } else {
        i
    }] + 1 by {
        assert(dist[i] <= dist[head] + 1);
        assert(dist[head] <= dist[head + 1]);
    }
}

/// A finished traversal has found what can be reached, nearest first.
proof fn lemma_finished(g: Graph, avoid: Set<Name>, s: Name, order: Seq<Name>, dist: Seq<nat>)
    requires
        bfs_state(g, avoid, s, order, dist, order.len() as int),
    ensures
        breadth_first(g, avoid, s, order),
{
    assert forall|w: Name| #[trigger] order.contains(w) <==> graph::reachable(g, avoid, s, w) by {
        if order.contains(w) {
            let i = choose|i: int| 0 <= i < order.len() && order[i] == w;
            assert(graph::distance_is(g, avoid, s, order[i], dist[i]));
            assert(graph::within(g, avoid, s, w, dist[i]));
        }
        if graph::reachable(g, avoid, s, w) {
            let k = choose|k: nat| graph::within(g, avoid, s, w, k);
            lemma_found(g, avoid, s, order, dist, order.len() as int, w, k);
        }
    }
    assert forall|i: int, j: int, d: nat, e: nat|
        0 <= i <= j < order.len() && #[trigger] graph::distance_is(g, avoid, s, order[i], d)
            && #[trigger] graph::distance_is(g, avoid, s, order[j], e) implies d <= e by {
        lemma_distance_unique(g, avoid, s, order[i], d, dist[i]);
        lemma_distance_unique(g, avoid, s, order[j], e, dist[j]);
    }
}

/// A node has one distance at most.
pub proof fn lemma_distance_unique(
    g: Graph,
    avoid: Set<Name>,
    s: Name,
    w: Name,
    d: nat,
    e: nat,
)
    requires
        graph::distance_is(g, avoid, s, w, d),
        graph::distance_is(g, avoid, s, w, e),
    ensures
        d == e,
{
    if d < e {
        assert(!graph::within(g, avoid, s, w, d));
    }
    if e < d {
        assert(!graph::within(g, avoid, s, w, e));
    }
}

/// All neighbors of the listed nodes.
spec fn targets(g: Graph, nodes: Seq<Name>) -> Set<Name>
    decreases nodes.len(),
{
    if nodes.len() == 0 {
        Set::empty()
    } else {
        targets(g, nodes.drop_last()) + g[nodes.last()].to_set()
    }
}

proof fn lemma_targets(g: Graph, nodes: Seq<Name>)
    ensures
        targets(g, nodes).finite(),
        forall|u: Name, v: Name|
            nodes.contains(u) && #[trigger] g[u].contains(v) ==> targets(g, nodes).contains(v),
    decreases nodes.len(),
{
    if nodes.len() > 0 {
        lemma_targets(g, nodes.drop_last());
        assert forall|u: Name, v: Name|
            nodes.contains(u) && #[trigger] g[u].contains(v) implies targets(g, nodes).contains(
            v,
        ) by {
            if u == nodes.last() {
                assert(g[nodes.last()].to_set().contains(v));
            } else {
                let i = choose|i: int| 0 <= i < nodes.len() && nodes[i] == u;
                assert(nodes.drop_last()[i] == u);
            }
        }
    }
}

/// A list without repetitions is no longer than a finite set that holds all its elements.
proof fn lemma_bounded(s: Seq<Name>, all: Set<Name>)
    requires
        s.no_duplicates(),
        all.finite(),
        forall|i: int| 0 <= i < s.len() ==> all.contains(#[trigger] s[i]),
    ensures
        s.len() <= all.len(),
{
    s.unique_seq_to_set();
    assert(s.to_set().subset_of(all));
    vstd::set_lib::lemma_len_subset(s.to_set(), all);
}

/// The nodes that a breadth-first traversal found, in the order in which it found them,
/// and the distance of each from the start.
struct Traversal {
    order: Vec<String>,
    dist: Vec<usize>,
}

/// Traverses the graph breadth-first from `start`, never entering a node in `visited`,
/// and adds what it finds to `visited`.
fn traverse(start: &str, adj: &Adjacency, visited: &mut NodeSet) -> (r: Traversal)
    requires
        adj.wf(),
        old(visited).wf(),
    ensures
        final(visited).wf(),
        final(visited)@.to_set() == old(visited)@.to_set() + graph::texts(r.order@).to_set(),
        r.dist@.len() == r.order@.len(),
        bfs_state(
            adj@,
            old(visited)@.to_set(),
            start@,
            graph::texts(r.order@),
            r.dist@.map_values(|d: usize| d as nat),
            r.order@.len() as int,
        ),
{
    let ghost g = adj@;
    let ghost avoid = visited@.to_set();
    let ghost all = targets(g, adj.nodes()).insert(start@);
    proof {
        lemma_targets(g, adj.nodes());
    }
    let mut order: Vec<String> = Vec::new();
    let mut dist: Vec<usize> = Vec::new();
    let ghost before = visited@;
    visited.insert(start);
    order.push(start.to_owned());
    dist.push(0);
    let mut head: usize = 0;
    proof {
        assert(graph::texts(order@) =~= seq![start@]);
        assert(dist@.map_values(|d: usize| d as nat) =~= seq![0nat]);
        if before.contains(start@) {
        } else {
            graph::lemma_push_new(before, start@);
        }
        assert(visited@.to_set() =~= avoid + seq![start@].to_set()) by {
            assert(seq![start@][0] == start@);
            assert(before.contains(start@) <==> avoid.contains(start@));
        }
        assert(graph::distance_is(g, avoid, start@, start@, 0));
    }
    while head < order.len()
        invariant
            adj.wf(),
            g == adj@,
            visited.wf(),
            visited@.to_set() == avoid + graph::texts(order@).to_set(),
            order@.len() == dist@.len(),
            bfs_state(
                g,
                avoid,
                start@,
                graph::texts(order@),
                dist@.map_values(|d: usize| d as nat),
                head as int,
            ),
            all.finite(),
            forall|u: Name, v: Name|
                adj.nodes().contains(u) && #[trigger] g[u].contains(v) ==> all.contains(v),
            forall|i: int| 0 <= i < order@.len() ==> all.contains(#[trigger] order@[i]@),
        decreases all.len() - head,
    {
        let ghost here = order@[head as int]@;
        proof {
            assert forall|i: int| 0 <= i < graph::texts(order@).len() implies all.contains(
                #[trigger] graph::texts(order@)[i],
            ) by {
                assert(graph::texts(order@)[i] == order@[i]@);
            }
            lemma_bounded(graph::texts(order@), all);
        }
        let d: usize = dist[head];
        if let Some(set) = adj.neighbors(order[head].as_str()) {
            let n: usize = set.len();
            let mut j: usize = 0;
            while j < n
                invariant
                    j <= n,
                    set.wf(),
                    n == set@.len(),
                    g.dom().contains(here),
                    set@ == g[here],
                    head < order@.len(),
                    here == order@[head as int]@,
                    d == dist@[head as int],
                    visited.wf(),
                    visited@.to_set() == avoid + graph::texts(order@).to_set(),
                    order@.len() == dist@.len(),
                    bfs_state(
                        g,
                        avoid,
                        start@,
                        graph::texts(order@),
                        dist@.map_values(|d: usize| d as nat),
                        head as int,
                    ),
                    adj.nodes().contains(here),
                    forall|u: Name, v: Name|
                        adj.nodes().contains(u) && #[trigger] g[u].contains(v) ==> all.contains(v),
                    forall|i: int| 0 <= i < order@.len() ==> all.contains(#[trigger] order@[i]@),
                    forall|i: int|
                        0 <= i < j ==> avoid.contains(#[trigger] set@[i]) || graph::texts(
                            order@,
                        ).contains(set@[i]),
                decreases n - j,
            {
                let w: &String = set.get(j);
                assert(dist@.map_values(|d: usize| d as nat)[head as int] == d);
                assert(d <= head < order.len());
                assert(g[here].contains(w@)) by {
                    assert(g[here][j as int] == w@);
                }
                assert(visited@.contains(w@) <==> visited@.to_set().contains(w@));
                assert(graph::texts(order@).contains(w@) <==> graph::texts(
                    order@,
                ).to_set().contains(w@));
                if !visited.contains(w.as_str()) {
                    let ghost names = graph::texts(order@);
                    let ghost steps = dist@.map_values(|d: usize| d as nat);
                    let ghost seen = visited@;
                    visited.insert(w.as_str());
                    order.push(w.clone());
                    dist.push(d + 1);
                    proof {
                        assert(graph::texts(order@) =~= names.push(w@));
                        assert(dist@.map_values(|d: usize| d as nat) =~= steps.push(
                            (d + 1) as nat,
                        ));
                        lemma_discover(g, avoid, start@, names, steps, head as int, w@);
                        graph::lemma_push_new(names, w@);
                        graph::lemma_push_new(seen, w@);
                        assert(visited@.to_set() =~= avoid + graph::texts(order@).to_set());
                        assert forall|i: int| 0 <= i < j + 1 implies avoid.contains(
                            #[trigger] set@[i],
                        ) || graph::texts(order@).contains(set@[i]) by {
                            if i < j && names.contains(set@[i]) {
                                let k = choose|k: int| 0 <= k < names.len() && names[k] == set@[i];
                                assert(graph::texts(order@)[k] == set@[i]);
                            }
                            if i == j {
                                assert(graph::texts(order@)[names.len() as int] == set@[i]);
                            }
                        }
                    }
                }
                j += 1;
            }
        }
        proof {
            assert(graph::texts(order@)[head as int] == here);
            lemma_expanded(
                g,
                avoid,
                start@,
                graph::texts(order@),
                dist@.map_values(|d: usize| d as nat),
                head as int,
            );
        }
        head += 1;
    }
    Traversal { order, dist }
}

/// Breadth-first search from `start` that enters no node of `visited`: returns the nodes it
/// finds, nearest first, and marks them as visited.
pub fn bfs_component(start: &str, adj: &Adjacency, visited: &mut NodeSet) -> (r: Vec<String>)
    requires
        adj.wf(),
        old(visited).wf(),
    ensures
        breadth_first(adj@, old(visited)@.to_set(), start@, graph::texts(r@)),
        final(visited).wf(),
        final(visited)@.to_set() == old(visited)@.to_set() + graph::texts(r@).to_set(),
        exists|dist: Seq<nat>| #[trigger]
            steps(adj@, old(visited)@.to_set(), start@, graph::texts(r@), dist),
{
    let ghost avoid = visited@.to_set();
    let found = traverse(start, adj, visited);
    proof {
        lemma_finished(
            adj@,
            avoid,
            start@,
            graph::texts(found.order@),
            found.dist@.map_values(|d: usize| d as nat),
        );
        let dist = law_breadth_first_follows_the_links(
            adj@,
            avoid,
            start@,
            graph::texts(found.order@),
        );
    }
    found.order
}

/// The shortest paths from one node: the nodes it reaches, nearest first, the distance of
/// each, and for each the positions in `order` of the nodes that come right before it on a
/// shortest path.
pub struct ShortestPaths {
    pub order: Vec<String>,
    pub dist: Vec<usize>,
    pub predecessors: Vec<Vec<usize>>,
}

impl ShortestPaths {
    /// Whether node `j` comes right before node `i` on a shortest path.
    pub open spec fn precedes(&self, g: Graph, j: int, i: int) -> bool {
        let names = graph::texts(self.order@);
        &&& 0 <= j < names.len()
        &&& self.dist@[j] + 1 == self.dist@[i]
        &&& graph::edge(g, names[j], names[i])
    }

    /// These are the shortest paths from `s` in `g`.
    pub open spec fn describes(&self, g: Graph, s: Name) -> bool {
        let names = graph::texts(self.order@);
        &&& breadth_first(g, Set::empty(), s, names)
        &&& self.dist@.len() == names.len()
        &&& self.predecessors@.len() == names.len()
        &&& forall|i: int|
            0 <= i < names.len() ==> graph::distance_is(
                g,
                Set::empty(),
                s,
                #[trigger] names[i],
                self.dist@[i] as nat,
            )
        &&& forall|i: int, a: int, b: int|
            0 <= i < names.len() && 0 <= a < b < self.predecessors@[i]@.len()
                ==> #[trigger] self.predecessors@[i]@[a] < #[trigger] self.predecessors@[i]@[b]
        &&& forall|i: int, j: usize|
            0 <= i < names.len() ==> (#[trigger] self.predecessors@[i]@.contains(j)
                <==> self.precedes(g, j as int, i))
    }
}

/// The position of each name in a list without repetitions.
fn positions(order: &Vec<String>) -> (r: StringHashMap<usize>)
    requires
        graph::texts(order@).no_duplicates(),
    ensures
        forall|n: Name| #[trigger]
            r@.dom().contains(n) <==> graph::texts(order@).contains(n),
        forall|i: int|
            0 <= i < order@.len() ==> r@[#[trigger] order@[i]@] == i,
{
    let mut r: StringHashMap<usize> = StringHashMap::new();
    let mut i: usize = 0;
    while i < order.len()
        invariant
            i <= order@.len(),
            graph::texts(order@).no_duplicates(),
            forall|n: Name| #[trigger]
                r@.dom().contains(n) <==> graph::texts(order@).take(i as int).contains(n),
            forall|k: int| 0 <= k < i ==> r@[#[trigger] order@[k]@] == k,
        decreases order@.len() - i,
    {
        r.insert(order[i].clone(), i);
        proof {
            let names = graph::texts(order@);
            assert(names.take(i + 1) =~= names.take(i as int).push(names[i as int]));
            assert forall|n: Name| #[trigger]
                r@.dom().contains(n) <==> names.take(i + 1).contains(n) by {
                if names.take(i as int).contains(n) {
                    let k = choose|k: int| 0 <= k < i && names.take(i as int)[k] == n;
                    assert(names.take(i + 1)[k] == n);
                }
                assert(names.take(i + 1)[i as int] == names[i as int]);
            }
            assert forall|k: int| 0 <= k < i + 1 implies r@[#[trigger] order@[k]@] == k by {
                assert(names[k] == order@[k]@);
                assert(names[i as int] == order@[i as int]@);
            }
        }
        i += 1;
    }
    assert(graph::texts(order@).take(order@.len() as int) =~= graph::texts(order@));
    r
}

/// The shortest paths from `source` to every node that it reaches.
pub fn shortest_paths(source: &str, adj: &Adjacency) -> (r: ShortestPaths)
    requires
        adj.wf(),
    ensures
        r.describes(adj@, source@),
{
    let ghost g = adj@;
    let mut none = NodeSet::new();
    assert(none@.to_set() =~= Set::<Name>::empty());
    let found = traverse(source, adj, &mut none);
    let order = found.order;
    let dist = found.dist;
    let n: usize = order.len();
    let ghost names = graph::texts(order@);
    let ghost steps = dist@.map_values(|d: usize| d as nat);
    proof {
        lemma_finished(g, Set::empty(), source@, names, steps);
    }
    let place = positions(&order);
    let mut predecessors: Vec<Vec<usize>> = Vec::new();
    let mut i: usize = 0;
    while i < n
        invariant
            i <= n,
            predecessors@.len() == i,
            forall|k: int| 0 <= k < i ==> (#[trigger] predecessors@[k])@.len() == 0,
        decreases n - i,
    {
        predecessors.push(Vec::new());
        i += 1;
    }
    let mut j: usize = 0;
    while j < n
        invariant
            j <= n,
            n == order@.len(),
            n == dist@.len(),
            adj.wf(),
            g == adj@,
            names == graph::texts(order@),
            names.no_duplicates(),
            steps == dist@.map_values(|d: usize| d as nat),
            bfs_state(g, Set::empty(), source@, names, steps, n as int),
            forall|m: Name| #[trigger] place@.dom().contains(m) <==> names.contains(m),
            forall|k: int| 0 <= k < n ==> place@[#[trigger] order@[k]@] == k,
            predecessors@.len() == n,
            forall|i: int, a: int, b: int|
                0 <= i < n && 0 <= a < b < predecessors@[i]@.len()
                    ==> #[trigger] predecessors@[i]@[a] < #[trigger] predecessors@[i]@[b],
            forall|i: int, k: usize|
                0 <= i < n ==> (#[trigger] predecessors@[i]@.contains(k) <==> k < j && dist@[k as int]
                    + 1 == dist@[i] && graph::edge(g, names[k as int], names[i])),
        decreases n - j,
    {
        let ghost here = names[j as int];
        assert(here == order@[j as int]@);
        let d: usize = dist[j];
        if let Some(set) = adj.neighbors(order[j].as_str()) {
            let m: usize = set.len();
            let mut t: usize = 0;
            while t < m
                invariant
                    t <= m,
                    set.wf(),
                    m == set@.len(),
                    g.dom().contains(here),
                    set@ == g[here],
                    j < n,
                    n == order@.len(),
                    n == dist@.len(),
                    d == dist@[j as int],
                    names == graph::texts(order@),
                    here == names[j as int],
                    names.no_duplicates(),
                    steps == dist@.map_values(|d: usize| d as nat),
                    bfs_state(g, Set::empty(), source@, names, steps, n as int),
                    forall|m: Name| #[trigger] place@.dom().contains(m) <==> names.contains(m),
                    forall|k: int| 0 <= k < n ==> place@[#[trigger] order@[k]@] == k,
                    predecessors@.len() == n,
                    forall|i: int, a: int, b: int|
                        0 <= i < n && 0 <= a < b < predecessors@[i]@.len()
                            ==> #[trigger] predecessors@[i]@[a] < #[trigger] predecessors@[i]@[b],
                    forall|i: int, k: usize|
                        0 <= i < n ==> (#[trigger] predecessors@[i]@.contains(k) <==> {
                            &&& k < j || k == j && set@.take(t as int).contains(names[i])
                            &&& dist@[k as int] + 1 == dist@[i]
                            &&& graph::edge(g, names[k as int], names[i])
                        }),
                decreases m - t,
            {
                let w: &String = set.get(t);
                proof {
                    assert(g[here].contains(w@)) by {
                        assert(g[here][t as int] == w@);
                    }
                    assert(graph::edge(g, names[j as int], w@));
                    assert(names.contains(w@));
                    assert(set@.take(t + 1) =~= set@.take(t as int).push(w@));
                }
                let p: usize = *place.get(w.as_str()).unwrap();
                let ghost before = predecessors@;
                proof {
                    let k = choose|k: int| 0 <= k < names.len() && names[k] == w@;
                    assert(order@[k]@ == w@);
                    assert(p == k);
                    assert(steps[j as int] == d);
                    assert(d <= j < order.len());
                }
                let next: usize = d + 1;
                if dist[p] == next {
                    assert(!before[p as int]@.contains(j)) by {
                        if set@.take(t as int).contains(w@) {
                            let a = choose|a: int| 0 <= a < t && set@.take(t as int)[a] == w@;
                            assert(set@[a] == set@[t as int]);
                        }
                    }
                    predecessors[p].push(j);
                    assert(predecessors@[p as int]@ == before[p as int]@.push(j));
                }
                assert forall|i: int, a: int, b: int|
                    0 <= i < n && 0 <= a < b
                        < predecessors@[i]@.len() implies #[trigger] predecessors@[i]@[a]
                    < #[trigger] predecessors@[i]@[b] by {
                    if i == p && dist@[p as int] == next && b == before[i]@.len() {
                        assert(before[i]@.contains(before[i]@[a]));
                    }
                }
                assert forall|i: int, k: usize| 0 <= i < n implies (
                #[trigger] predecessors@[i]@.contains(k) <==> {
                    &&& k < j || k == j && set@.take(t + 1).contains(names[i])
                    &&& dist@[k as int] + 1 == dist@[i]
                    &&& graph::edge(g, names[k as int], names[i])
                }) by {
                    if i == p && dist@[p as int] == next {
                        let s = before[i]@;
                        assert(s.push(j)[s.len() as int] == j);
                        if s.contains(k) {
                            let a = choose|a: int| 0 <= a < s.len() && s[a] == k;
                            assert(s.push(j)[a] == k);
                        }
                    }
                    if set@.take(t as int).contains(names[i]) {
                        let a = choose|a: int| 0 <= a < t && set@.take(t as int)[a] == names[i];
                        assert(set@.take(t + 1)[a] == names[i]);
                    }
                    assert(set@.take(t + 1)[t as int] == w@);
                    assert(before[i]@.contains(k) <==> {
                        &&& k < j || k == j && set@.take(t as int).contains(names[i])
                        &&& dist@[k as int] + 1 == dist@[i]
                        &&& graph::edge(g, names[k as int], names[i])
                    });
                }
                t += 1;
            }
            assert(set@.take(m as int) =~= set@);
        }
        j += 1;
    }
    let r = ShortestPaths { order, dist, predecessors };
    proof {
        assert forall|i: int| 0 <= i < names.len() implies graph::distance_is(
            g,
            Set::empty(),
            source@,
            #[trigger] names[i],
            r.dist@[i] as nat,
        ) by {
            assert(graph::distance_is(g, Set::empty(), source@, names[i], steps[i]));
        }
    }
    r
}

/// A node that can be reached has a distance.
proof fn lemma_distance_exists(g: Graph, avoid: Set<Name>, s: Name, w: Name, k: nat) -> (d: nat)
    requires
        graph::within(g, avoid, s, w, k),
    ensures
        d <= k,
        graph::distance_is(g, avoid, s, w, d),
    decreases k,
{
    if exists|j: nat| j < k && graph::within(g, avoid, s, w, j) {
        let j = choose|j: nat| j < k && graph::within(g, avoid, s, w, j);
        lemma_distance_exists(g, avoid, s, w, j)
    } else {
        k
    }
}

/// Whether `order` lists nodes with their distances in steps: the start at distance nought, every
/// other node one step farther than an earlier one that leads to it, none of them in `avoid`, and
/// nearer nodes before farther ones. Every step out of a listed node leads to `avoid` or to a
/// listed node that is at most one step farther.
pub open spec fn steps(
    g: Graph,
    avoid: Set<Name>,
    s: Name,
    order: Seq<Name>,
    dist: Seq<nat>,
) -> bool {
    &&& order.len() > 0
    &&& dist.len() == order.len()
    &&& order[0] == s
    &&& dist[0] == 0
    &&& forall|i: int, j: int| 0 <= i < j < order.len() ==> order[i] != order[j]
    &&& forall|i: int, j: int| 0 <= i <= j < order.len() ==> dist[i] <= dist[j]
    &&& forall|i: int|
        0 < i < order.len() ==> !avoid.contains(#[trigger] order[i]) && exists|j: int|
            {
                &&& 0 <= j < i
                &&& g.dom().contains(#[trigger] order[j])
                &&& g[order[j]].contains(order[i])
                &&& dist[j] + 1 == dist[i]
            }
    &&& forall|i: int, x: Name|
        #![trigger order[i], g[order[i]].contains(x)]
        0 <= i < order.len() && g.dom().contains(order[i]) && g[order[i]].contains(x)
            && !avoid.contains(x) ==> exists|k: int|
            0 <= k < order.len() && #[trigger] order[k] == x && dist[k] <= dist[i] + 1
}

/// A breadth-first traversal follows the links, one step at a time, and leaves none out.
pub proof fn law_breadth_first_follows_the_links(
    g: Graph,
    avoid: Set<Name>,
    s: Name,
    order: Seq<Name>,
) -> (dist: Seq<nat>)
    requires
        breadth_first(g, avoid, s, order),
    ensures
        steps(g, avoid, s, order, dist),
        forall|i: int|
            0 <= i < order.len() ==> graph::distance_is(
                g,
                avoid,
                s,
                #[trigger] order[i],
                dist[i],
            ),
{
    let dist = Seq::new(
        order.len(),
        |i: int| choose|d: nat| graph::distance_is(g, avoid, s, order[i], d),
    );
    assert forall|i: int| 0 <= i < order.len() implies graph::distance_is(
        g,
        avoid,
        s,
        #[trigger] order[i],
        dist[i],
    ) by {
        assert(order.contains(order[i]));
        let k = choose|k: nat| graph::within(g, avoid, s, order[i], k);
        let d = lemma_distance_exists(g, avoid, s, order[i], k);
        assert(graph::distance_is(g, avoid, s, order[i], d));
    }
    lemma_steps(g, avoid, s, order, dist);
    dist
}

proof fn lemma_steps(g: Graph, avoid: Set<Name>, s: Name, order: Seq<Name>, dist: Seq<nat>)
    requires
        breadth_first(g, avoid, s, order),
        dist.len() == order.len(),
        forall|i: int|
            0 <= i < order.len() ==> graph::distance_is(
                g,
                avoid,
                s,
                #[trigger] order[i],
                dist[i],
            ),
    ensures
        steps(g, avoid, s, order, dist),
{
    assert(graph::distance_is(g, avoid, s, order[0], dist[0]));
    assert(graph::within(g, avoid, s, s, 0));
    assert(dist[0] == 0);
    assert forall|i: int, j: int| 0 <= i <= j < order.len() implies dist[i] <= dist[j] by {
        assert(graph::distance_is(g, avoid, s, order[i], dist[i]));
        assert(graph::distance_is(g, avoid, s, order[j], dist[j]));
    }
    assert forall|i: int| 0 < i < order.len() implies !avoid.contains(#[trigger] order[i])
        && exists|j: int|
        {
            &&& 0 <= j < i
            &&& g.dom().contains(#[trigger] order[j])
            &&& g[order[j]].contains(order[i])
            &&& dist[j] + 1 == dist[i]
        } by {
        let w = order[i];
        let d = dist[i];
        assert(graph::distance_is(g, avoid, s, order[i], dist[i]));
        assert(w != order[0]);
        let u = choose|u: Name|
            graph::within(g, avoid, s, u, (d - 1) as nat) && #[trigger] graph::edge(g, u, w);
        assert(graph::reachable(g, avoid, s, u));
        assert(order.contains(u));
        let j = choose|j: int| 0 <= j < order.len() && order[j] == u;
        assert(graph::distance_is(g, avoid, s, order[j], dist[j]));
        assert(dist[j] <= d - 1);
        if dist[j] < d - 1 {
            let e = (dist[j] + 1) as nat;
            assert(graph::within(g, avoid, s, u, (e - 1) as nat));
            assert(graph::within(g, avoid, s, w, e));
        }
        if j >= i {
            assert(dist[i] <= dist[j]);
        }
        assert(g.dom().contains(order[j]));
    }
    assert forall|i: int, x: Name|
        #![trigger order[i], g[order[i]].contains(x)]
        0 <= i < order.len() && g.dom().contains(order[i]) && g[order[i]].contains(x)
            && !avoid.contains(x) implies exists|k: int|
        0 <= k < order.len() && #[trigger] order[k] == x && dist[k] <= dist[i] + 1 by {
        assert(graph::distance_is(g, avoid, s, order[i], dist[i]));
        let e = (dist[i] + 1) as nat;
        assert(graph::edge(g, order[i], x));
        assert(graph::within(g, avoid, s, order[i], (e - 1) as nat));
        assert(graph::within(g, avoid, s, x, e));
        assert(graph::reachable(g, avoid, s, x));
        assert(order.contains(x));
        let k = choose|k: int| 0 <= k < order.len() && order[k] == x;
        assert(graph::distance_is(g, avoid, s, order[k], dist[k]));
        if dist[k] > e {
            assert(!graph::within(g, avoid, s, x, e));
        }
    }
}

/// Shortest paths follow the links one step at a time, with the distances that they give; what
/// comes right before a node are the nodes that lead to it and are one step nearer, each once and
/// in order.
pub proof fn law_shortest_paths_follow_the_links(p: ShortestPaths, g: Graph, s: Name)
    requires
        p.describes(g, s),
    ensures
        steps(
            g,
            Set::empty(),
            s,
            graph::texts(p.order@),
            p.dist@.map_values(|d: usize| d as nat),
        ),
        p.predecessors@.len() == p.order@.len(),
        forall|i: int, j: usize|
            0 <= i < p.order@.len() ==> (#[trigger] p.predecessors@[i]@.contains(j) <==> {
                &&& j < p.order@.len()
                &&& p.dist@[j as int] + 1 == p.dist@[i]
                &&& g.dom().contains(p.order@[j as int]@)
                &&& g[p.order@[j as int]@].contains(p.order@[i]@)
            }),
        forall|i: int, a: int, b: int|
            0 <= i < p.order@.len() && 0 <= a < b < p.predecessors@[i]@.len()
                ==> #[trigger] p.predecessors@[i]@[a] < #[trigger] p.predecessors@[i]@[b],
{
    let names = graph::texts(p.order@);
    let dist = p.dist@.map_values(|d: usize| d as nat);
    assert forall|i: int| 0 <= i < names.len() implies graph::distance_is(
        g,
        Set::empty(),
        s,
        #[trigger] names[i],
        dist[i],
    ) by {
        assert(dist[i] == p.dist@[i] as nat);
    }
    lemma_steps(g, Set::empty(), s, names, dist);
    assert forall|i: int, j: usize|
        0 <= i < p.order@.len() implies (#[trigger] p.predecessors@[i]@.contains(j) <==> {
        &&& j < p.order@.len()
        &&& p.dist@[j as int] + 1 == p.dist@[i]
        &&& g.dom().contains(p.order@[j as int]@)
        &&& g[p.order@[j as int]@].contains(p.order@[i]@)
    }) by {
        assert(p.precedes(g, j as int, i) <==> p.predecessors@[i]@.contains(j));
    }
}

} // verus!
