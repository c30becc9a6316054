//! Which peers of the swarm should be told to connect to others, and to whom.

use crate::components;
use crate::components::{find_components, largest_component};
use crate::graph;
use crate::graph::{Adjacency, Graph, Name, NodeSet};
use crate::ranking;
use crate::ranking::{descending_order, pick_best};
use crate::text::str_eq;
use vstd::prelude::*;

verus! {

/// How many peers are suggested to one node.
pub const SUGGESTED_PEERS: usize = 3;

/// How isolated a node is: the number that its suggestion is sorted by, kept as the counts
/// it is computed from.
#[derive(Debug, Clone, Copy, PartialEq, Eq)]
pub enum IsolationScore {
    /// Cut off entirely: 1.
    Full,
    /// Attached by one link: 1/2.
    Half,
    /// The density of the neighborhood, `edges / max_edges`, times the share of the `others`
    /// that lie more than two hops away, `1 - two_hop / others`.
    Clustered { edges: u128, max_edges: u128, two_hop: usize, others: usize },
}

/// A suggestion that a node connect to certain peers.
#[derive(Debug, Clone)]
pub struct PeerSuggestion {
    pub target_node_id: String,
    pub suggested_peers: Vec<String>,
    pub reason: String,
    pub isolation_score: IsolationScore,
}

/// What a suggestion says.
#[verifier::ext_equal]
pub struct Suggestion {
    pub target: Name,
    pub peers: Seq<Name>,
    pub reason: Seq<char>,
    pub score: IsolationScore,
}

impl View for PeerSuggestion {
    type V = Suggestion;

    open spec fn view(&self) -> Suggestion {
        Suggestion {
            target: self.target_node_id@,
            peers: graph::texts(self.suggested_peers@),
            reason: self.reason@,
            score: self.isolation_score,
        }
    }
}

/// What the suggestions of a list say.
pub open spec fn contents(list: Seq<PeerSuggestion>) -> Seq<Suggestion> {
    list.map_values(|s: PeerSuggestion| s@)
}

/// The neighbors of a node, or none where the graph does not have it.
pub open spec fn neighbors_of(g: Graph, n: Name) -> Seq<Name> {
    if g.dom().contains(n) {
        g[n]
    } else {
        Seq::empty()
    }
}

/// How many of the listed nodes have an edge to `v`.
pub open spec fn links_to(g: Graph, list: Seq<Name>, v: Name) -> nat
    decreases list.len(),
{
    if list.len() == 0 {
        0
    } else {
        links_to(g, list.drop_last(), v) + if graph::edge(g, list.last(), v) {
            1nat
        } else {
            0
        }
    }
}

/// How many pairs of listed nodes, an earlier and a later one, have an edge.
pub open spec fn linked_pairs(g: Graph, list: Seq<Name>) -> nat
    decreases list.len(),
{
    if list.len() == 0 {
        0
    } else {
        linked_pairs(g, list.drop_last()) + links_to(g, list.drop_last(), list.last())
    }
}

/// The nodes that are two steps away from `n`: neighbors of neighbors that are neither `n`
/// nor neighbors of it.
pub open spec fn two_hop(g: Graph, n: Name) -> Set<Name> {
    let near = neighbors_of(g, n);
    Set::new(
        |w: Name|
            w != n && !near.contains(w) && exists|u: Name|
                near.contains(u) && #[trigger] graph::edge(g, u, w),
    )
}

/// How many pairs `count` nodes form.
pub open spec fn pairs(count: int) -> int {
    count * (count - 1) / 2
}

/// Whether a neighborhood is a clique cut off from the rest: more than 8 in 10 of its pairs
/// are linked, and fewer than 3 in 10 of the other nodes are two hops away.
pub open spec fn isolated(edges: int, max_edges: int, two_hop: int, others: int) -> bool {
    10 * edges > 8 * max_edges && (others <= 0 || 10 * two_hop < 3 * others)
}

/// The suggestion for a node of the main component, where it needs one: it has fewer than
/// two neighbors, or its neighborhood is cut off from the rest.
pub open spec fn verdict(g: Graph, names: Seq<Name>, keys: Seq<u64>, n: Name) -> Option<
    Suggestion,
> {
    let near = neighbors_of(g, n);
    let peers = ranking::best(
        names,
        keys,
        ranking::eligible(None, near.to_set().insert(n)),
        SUGGESTED_PEERS as nat,
    );
    let edges = linked_pairs(g, near);
    let far = two_hop(g, n).len();
    let others = names.len() - 1;
    if near.len() < 2 {
        Some(
            Suggestion {
                target: n,
                peers,
                reason: "low_connectivity"@,
                score: if near.len() == 0 {
                    IsolationScore::Full
                } else {
                    IsolationScore::Half
                },
            },
        )
    } else if isolated(edges as int, pairs(near.len() as int), far as int, others) {
        Some(
            Suggestion {
                target: n,
                peers,
                reason: "isolated_clique"@,
                score: IsolationScore::Clustered {
                    edges: edges as u128,
                    max_edges: pairs(near.len() as int) as u128,
                    two_hop: far as usize,
                    others: others as usize,
                },
            },
        )
    } else {
        None
    }
}

/// The suggestions for the first `k` members of the main component.
pub open spec fn main_part(
    g: Graph,
    names: Seq<Name>,
    keys: Seq<u64>,
    members: Seq<Name>,
    k: int,
) -> Seq<Suggestion>
    decreases k,
{
    if k <= 0 {
        Seq::empty()
    } else {
        let before = main_part(g, names, keys, members, k - 1);
        match verdict(g, names, keys, members[k - 1]) {
            Some(s) => before.push(s),
            None => before,
        }
    }
}

/// The suggestions for the members of a component that is not the main one: connect to the
/// best peers of the main component.
pub open spec fn clique_part(
    names: Seq<Name>,
    keys: Seq<u64>,
    main: Seq<Name>,
    members: Seq<Name>,
) -> Seq<Suggestion> {
    let peers = ranking::best(
        names,
        keys,
        ranking::eligible(Some(main.to_set()), members.to_set()),
        SUGGESTED_PEERS as nat,
    );
    members.map_values(
        |n: Name|
            Suggestion {
                target: n,
                peers,
                reason: "isolated_clique"@,
                score: IsolationScore::Full,
            },
    )
}

/// The suggestions for the first `k` components, leaving out the main one.
pub open spec fn cliques_part(
    names: Seq<Name>,
    keys: Seq<u64>,
    comps: Seq<Seq<Name>>,
    main: int,
    k: int,
) -> Seq<Suggestion>
    decreases k,
{
    if k <= 0 {
        Seq::empty()
    } else {
        let before = cliques_part(names, keys, comps, main, k - 1);
        if k - 1 == main {
            before
        } else {
            before + clique_part(names, keys, comps[main], comps[k - 1])
        }
    }
}

/// All suggestions: first those for the components that are not the main one, then those for
/// members of the main one.
pub open spec fn suggestions_for(
    g: Graph,
    names: Seq<Name>,
    keys: Seq<u64>,
    comps: Seq<Seq<Name>>,
    main: int,
) -> Seq<Suggestion> {
    cliques_part(names, keys, comps, main, comps.len() as int) + main_part(
        g,
        names,
        keys,
        comps[main],
        comps[main].len() as int,
    )
}

/// A copy of a list of strings.
fn copy_strings(list: &Vec<String>) -> (r: Vec<String>)
    ensures
        graph::texts(r@) == graph::texts(list@),
{
    let mut r: Vec<String> = Vec::new();
    let mut i: usize = 0;
    while i < list.len()
        invariant
            i <= list@.len(),
            graph::texts(r@) == graph::texts(list@).take(i as int),
        decreases list@.len() - i,
    {
        let ghost done = graph::texts(r@);
        r.push(list[i].clone());
        assert(graph::texts(r@) =~= done.push(list@[i as int]@));
        assert(graph::texts(list@).take(i + 1) =~= graph::texts(list@).take(i as int).push(
            list@[i as int]@,
        ));
        i += 1;
    }
    assert(graph::texts(list@).take(list@.len() as int) =~= graph::texts(list@));
    r
}

/// The set of the listed names.
fn set_of(list: &Vec<String>) -> (r: NodeSet)
    ensures
        r.wf(),
        r@.to_set() == graph::texts(list@).to_set(),
{
    let mut r = NodeSet::new();
    let mut i: usize = 0;
    assert(graph::texts(list@).take(0).to_set() =~= r@.to_set());
    while i < list.len()
        invariant
            i <= list@.len(),
            r.wf(),
            r@.to_set() == graph::texts(list@).take(i as int).to_set(),
        decreases list@.len() - i,
    {
        let ghost before = r@;
        let ghost all = graph::texts(list@);
        r.insert(list[i].as_str());
        proof {
            let name = list@[i as int]@;
            assert(all[i as int] == name);
            assert(before.contains(name) <==> before.to_set().contains(name));
            if !before.contains(name) {
                graph::lemma_push_new(before, name);
            }
            assert(all.take(i + 1) =~= all.take(i as int).push(name));
            lemma_push_set(all.take(i as int), name);
            assert(r@.to_set() =~= all.take(i + 1).to_set());
        }
        i += 1;
    }
    assert(graph::texts(list@).take(list@.len() as int) =~= graph::texts(list@));
    r
}

proof fn lemma_push_set(s: Seq<Name>, a: Name)
    ensures
        s.push(a).to_set() == s.to_set().insert(a),
{
    assert forall|x: Name| s.push(a).to_set().contains(x) == s.to_set().insert(a).contains(x) by {
        if s.contains(x) {
            let i = choose|i: int| 0 <= i < s.len() && s[i] == x;
            assert(s.push(a)[i] == x);
        }
        assert(s.push(a)[s.len() as int] == a);
    }
    assert(s.push(a).to_set() =~= s.to_set().insert(a));
}

proof fn lemma_links_bounded(g: Graph, list: Seq<Name>, v: Name)
    ensures
        links_to(g, list, v) <= list.len(),
    decreases list.len(),
{
    if list.len() > 0 {
        lemma_links_bounded(g, list.drop_last(), v);
    }
}

/// One node more forms a pair with each of the others.
pub proof fn lemma_pairs_step(n: int)
    requires
        n >= 0,
    ensures
        pairs(n + 1) == pairs(n) + n,
        pairs(n) >= 0,
{
    assert((n + 1) * n == n * (n - 1) + 2 * n) by (nonlinear_arith);
    assert(n * (n - 1) >= 0) by (nonlinear_arith)
        requires
            n >= 0,
    ;
}

/// The number of pairs of a machine-sized number of nodes fits in 128 bits.
pub proof fn lemma_pairs_bounded(n: int)
    requires
        0 <= n <= usize::MAX,
    ensures
        0 <= n * (n - 1) <= u128::MAX,
        0 <= pairs(n) <= u128::MAX,
        n > 0 ==> (n - 1) * n <= u128::MAX,
{
    if n > 0 {
        assert(n * (n - 1) <= 0xffff_ffff_ffff_ffff * 0xffff_ffff_ffff_ffff) by (nonlinear_arith)
            requires
                0 < n <= 0xffff_ffff_ffff_ffff,
        ;
        assert(n * (n - 1) >= 0) by (nonlinear_arith)
            requires
                n > 0,
        ;
        assert((n - 1) * n == n * (n - 1)) by (nonlinear_arith);
    }
}

/// No more pairs are linked than there are.
pub proof fn law_linked_pairs_bounded(g: Graph, list: Seq<Name>)
    ensures
        linked_pairs(g, list) <= pairs(list.len() as int),
    decreases list.len(),
{
    if list.len() > 0 {
        law_linked_pairs_bounded(g, list.drop_last());
        lemma_links_bounded(g, list.drop_last(), list.last());
        lemma_pairs_step(list.len() - 1);
    }
}

/// Counts the linked pairs among the nodes of `near`.
fn count_linked_pairs(adj: &Adjacency, near: &NodeSet) -> (r: u128)
    requires
        adj.wf(),
        near.wf(),
    ensures
        r == linked_pairs(adj@, near@),
{
    let ghost g = adj@;
    let n: usize = near.len();
    let mut total: u128 = 0;
    let mut j: usize = 0;
    assert(near@.take(0) =~= Seq::<Name>::empty());
    while j < n
        invariant
            j <= n,
            n == near@.len(),
            adj.wf(),
            g == adj@,
            near.wf(),
            total == linked_pairs(g, near@.take(j as int)),
        decreases n - j,
    {
        let second: &String = near.get(j);
        let ghost v = near@[j as int];
        let ghost start = total;
        let mut i: usize = 0;
        assert(near@.take(0) =~= Seq::<Name>::empty());
        proof {
            law_linked_pairs_bounded(g, near@.take(j as int));
            lemma_pairs_step(j as int);
            lemma_pairs_bounded(j + 1);
        }
        while i < j
            invariant
                i <= j,
                j < n,
                n == near@.len(),
                adj.wf(),
                g == adj@,
                near.wf(),
                second@ == v,
                v == near@[j as int],
                start + j <= u128::MAX,
                total == start + links_to(g, near@.take(i as int), v),
            decreases j - i,
        {
            let first: &String = near.get(i);
            assert(near@.take(i + 1).drop_last() =~= near@.take(i as int));
            proof {
                lemma_links_bounded(g, near@.take(i as int), v);
            }
            if let Some(set) = adj.neighbors(first.as_str()) {
                if set.contains(second.as_str()) {
                    total += 1;
                }
            }
            i += 1;
        }
        assert(near@.take(j + 1).drop_last() =~= near@.take(j as int));
        j += 1;
    }
    assert(near@.take(n as int) =~= near@);
    total
}

/// The nodes two steps away from `node`, given its neighbors.
fn collect_two_hop(adj: &Adjacency, node: &str, near: &NodeSet) -> (r: NodeSet)
    requires
        adj.wf(),
        near.wf(),
        near@ == neighbors_of(adj@, node@),
    ensures
        r.wf(),
        r@.to_set() == two_hop(adj@, node@),
{
    let ghost g = adj@;
    let mut far = NodeSet::new();
    let n: usize = near.len();
    let mut i: usize = 0;
    while i < n
        invariant
            i <= n,
            n == near@.len(),
            adj.wf(),
            g == adj@,
            near.wf(),
            far.wf(),
            forall|w: Name| #[trigger]
                far@.contains(w) <==> w != node@ && !near@.contains(w) && exists|a: int|
                    0 <= a < i && #[trigger] graph::edge(g, near@[a], w),
        decreases n - i,
    {
        let name: &String = near.get(i);
        let ghost u = near@[i as int];
        let ghost before = far@;
        if let Some(set) = adj.neighbors(name.as_str()) {
            let m: usize = set.len();
            let mut j: usize = 0;
            while j < m
                invariant
                    j <= m,
                    m == set@.len(),
                    set.wf(),
                    near.wf(),
                    far.wf(),
                    forall|w: Name| #[trigger]
                        far@.contains(w) <==> before.contains(w) || w != node@ && !near@.contains(
                            w,
                        ) && set@.take(j as int).contains(w),
                decreases m - j,
            {
                let w: &String = set.get(j);
                let ghost sofar = far@;
                assert(set@.take(j + 1) =~= set@.take(j as int).push(w@));
                if !str_eq(w.as_str(), node) && !near.contains(w.as_str()) {
                    far.insert(w.as_str());
                }
                assert forall|x: Name| #[trigger]
                    far@.contains(x) <==> before.contains(x) || x != node@ && !near@.contains(x)
                        && set@.take(j + 1).contains(x) by {
                    assert(sofar.contains(x) <==> before.contains(x) || x != node@
                        && !near@.contains(x) && set@.take(j as int).contains(x));
                    graph::lemma_push_contains(set@.take(j as int), w@, x);
                    graph::lemma_push_contains(sofar, w@, x);
                }
                j += 1;
            }
            assert(set@.take(m as int) =~= set@);
        }
        assert forall|w: Name| #[trigger]
            far@.contains(w) <==> w != node@ && !near@.contains(w) && exists|a: int|
                0 <= a < i + 1 && #[trigger] graph::edge(g, near@[a], w) by {
            assert(before.contains(w) <==> w != node@ && !near@.contains(w) && exists|a: int|
                0 <= a < i && #[trigger] graph::edge(g, near@[a], w));
            if far@.contains(w) && !before.contains(w) {
                assert(graph::edge(g, near@[i as int], w));
            }
            if exists|a: int| 0 <= a < i + 1 && #[trigger] graph::edge(g, near@[a], w) {
                let a = choose|a: int| 0 <= a < i + 1 && #[trigger] graph::edge(g, near@[a], w);
                if a < i {
                    assert(graph::edge(g, near@[a], w));
                }
            }
        }
        i += 1;
    }
    proof {
        assert forall|w: Name| far@.to_set().contains(w) == two_hop(g, node@).contains(w) by {
            assert(far@.to_set().contains(w) <==> far@.contains(w));
            if far@.contains(w) {
                let a = choose|a: int| 0 <= a < n && #[trigger] graph::edge(g, near@[a], w);
                assert(near@.contains(near@[a]));
            }
            if two_hop(g, node@).contains(w) {
                let u = choose|u: Name| near@.contains(u) && #[trigger] graph::edge(g, u, w);
                let a = choose|a: int| 0 <= a < near@.len() && near@[a] == u;
                assert(graph::edge(g, near@[a], w));
            }
        }
        assert(far@.to_set() =~= two_hop(g, node@));
    }
    far
}

/// Whether the counts are those of a clique cut off from the rest.
fn is_isolated(edges: u128, max_edges: u128, two_hop: usize, others: usize) -> (r: bool)
    ensures
        r == isolated(edges as int, max_edges as int, two_hop as int, others as int),
{
    let dense: bool = edges > 4 * (max_edges / 5) + 4 * (max_edges % 5) / 5;
    let remote: bool = others == 0 || 10 * (two_hop as u128) < 3 * (others as u128);
    dense && remote
}

/// Judges one node of the main component.
fn judge_node(
    adj: &Adjacency,
    keys: &Vec<u64>,
    order: &Vec<usize>,
    node: &String,
) -> (r: Option<PeerSuggestion>)
    requires
        adj.wf(),
        keys@.len() == adj.nodes().len(),
        order@ == ranking::ranking(keys@),
        ranking::is_ranking(keys@, order@),
        adj.nodes().len() > 0,
    ensures
        match r {
            Some(s) => verdict(adj@, adj.nodes(), keys@, node@) == Some(s@),
            None => verdict(adj@, adj.nodes(), keys@, node@) is None,
        },
{
    let ghost g = adj@;
    let names: &Vec<String> = adj.node_names();
    let nobody = NodeSet::new();
    let near: &NodeSet = match adj.neighbors(node.as_str()) {
        Some(set) => set,
        None => &nobody,
    };
    assert(near@ =~= neighbors_of(g, node@));
    let degree: usize = near.len();
    let mut exclude = set_of(&near.to_vec());
    let ghost struck = exclude@;
    exclude.insert(node.as_str());
    proof {
        lemma_push_set(struck, node@);
        assert(struck.contains(node@) <==> struck.to_set().contains(node@));
        assert(exclude@.to_set() =~= near@.to_set().insert(node@));
    }
    if degree < 2 {
        let suggested = pick_best(names, order, Ghost(keys@), None, &exclude, SUGGESTED_PEERS);
        let score = if degree == 0 {
            IsolationScore::Full
        } else {
            IsolationScore::Half
        };
        return Some(
            PeerSuggestion {
                target_node_id: node.clone(),
                suggested_peers: suggested,
                reason: "low_connectivity".to_owned(),
                isolation_score: score,
            },
        );
    }
    let edges: u128 = count_linked_pairs(adj, near);
    proof {
        lemma_pairs_bounded(degree as int);
    }
    let max_edges: u128 = (degree as u128) * (degree as u128 - 1) / 2;
    let far = collect_two_hop(adj, node.as_str(), near);
    let two_hop_count: usize = far.len();
    proof {
        far@.unique_seq_to_set();
    }
    let others: usize = names.len() - 1;
    if is_isolated(edges, max_edges, two_hop_count, others) {
        let suggested = pick_best(names, order, Ghost(keys@), None, &exclude, SUGGESTED_PEERS);
        Some(
            PeerSuggestion {
                target_node_id: node.clone(),
                suggested_peers: suggested,
                reason: "isolated_clique".to_owned(),
                isolation_score: IsolationScore::Clustered {
                    edges,
                    max_edges,
                    two_hop: two_hop_count,
                    others,
                },
            },
        )
    } else {
        None
    }
}

/// Suggests to the members of a component that is not the main one that they connect to the
/// best peers of the main component.
fn suggest_to_clique(
    adj: &Adjacency,
    keys: &Vec<u64>,
    order: &Vec<usize>,
    main: &Vec<String>,
    members: &Vec<String>,
) -> (r: Vec<PeerSuggestion>)
    requires
        keys@.len() == adj.nodes().len(),
        order@ == ranking::ranking(keys@),
        ranking::is_ranking(keys@, order@),
    ensures
        contents(r@) == clique_part(
            adj.nodes(),
            keys@,
            graph::texts(main@),
            graph::texts(members@),
        ),
{
    let main_set = set_of(main);
    let exclude = set_of(members);
    let suggested = pick_best(
        adj.node_names(),
        order,
        Ghost(keys@),
        Some(&main_set),
        &exclude,
        SUGGESTED_PEERS,
    );
    let ghost want = clique_part(adj.nodes(), keys@, graph::texts(main@), graph::texts(members@));
    let mut r: Vec<PeerSuggestion> = Vec::new();
    let mut i: usize = 0;
    while i < members.len()
        invariant
            i <= members@.len(),
            want == clique_part(adj.nodes(), keys@, graph::texts(main@), graph::texts(members@)),
            graph::texts(suggested@) == ranking::best(
                adj.nodes(),
                keys@,
                ranking::eligible(
                    Some(graph::texts(main@).to_set()),
                    graph::texts(members@).to_set(),
                ),
                SUGGESTED_PEERS as nat,
            ),
            contents(r@) == want.take(i as int),
        decreases members@.len() - i,
    {
        let ghost done = contents(r@);
        let s = PeerSuggestion {
            target_node_id: members[i].clone(),
            suggested_peers: copy_strings(&suggested),
            reason: "isolated_clique".to_owned(),
            isolation_score: IsolationScore::Full,
        };
        r.push(s);
        assert(contents(r@) =~= done.push(s@));
        assert(want.take(i + 1) =~= want.take(i as int).push(want[i as int]));
        assert(want[i as int] == s@);
        i += 1;
    }
    assert(want.take(members@.len() as int) =~= want);
    r
}

/// Suggests peers to the nodes that need them, given the graph's components and which of
/// them is the main one. `keys` ranks the nodes, in the order of the graph.
pub fn suggest_peers(
    adj: &Adjacency,
    keys: &Vec<u64>,
    comps: &Vec<Vec<String>>,
    main: usize,
) -> (r: Vec<PeerSuggestion>)
    requires
        adj.wf(),
        keys@.len() == adj.nodes().len(),
        adj.nodes().len() > 0,
        main < comps@.len(),
    ensures
        contents(r@) == suggestions_for(
            adj@,
            adj.nodes(),
            keys@,
            components::text_lists(comps@),
            main as int,
        ),
{
    let ghost names = adj.nodes();
    let ghost lists = components::text_lists(comps@);
    let order = descending_order(keys);
    let mut r: Vec<PeerSuggestion> = Vec::new();
    let mut k: usize = 0;
    assert(contents(r@) =~= Seq::<Suggestion>::empty());
    while k < comps.len()
        invariant
            k <= comps@.len(),
            main < comps@.len(),
            names == adj.nodes(),
            lists == components::text_lists(comps@),
            keys@.len() == names.len(),
            order@ == ranking::ranking(keys@),
            ranking::is_ranking(keys@, order@),
            contents(r@) == cliques_part(names, keys@, lists, main as int, k as int),
        decreases comps@.len() - k,
    {
        if k != main {
            let ghost done = contents(r@);
            let mut more = suggest_to_clique(adj, keys, &order, &comps[main], &comps[k]);
            let ghost added = contents(more@);
            r.append(&mut more);
            assert(contents(r@) =~= done + added);
            assert(lists[main as int] == graph::texts(comps@[main as int]@));
            assert(lists[k as int] == graph::texts(comps@[k as int]@));
        }
        k += 1;
    }
    let ghost cliques = contents(r@);
    let members: &Vec<String> = &comps[main];
    let ghost main_names = lists[main as int];
    assert(main_names == graph::texts(members@));
    let mut i: usize = 0;
    assert(cliques + Seq::<Suggestion>::empty() =~= cliques);
    while i < members.len()
        invariant
            i <= members@.len(),
            adj.wf(),
            names == adj.nodes(),
            names.len() > 0,
            keys@.len() == names.len(),
            order@ == ranking::ranking(keys@),
            ranking::is_ranking(keys@, order@),
            main_names == graph::texts(members@),
            contents(r@) == cliques + main_part(adj@, names, keys@, main_names, i as int),
        decreases members@.len() - i,
    {
        let ghost done = contents(r@);
        let ghost part = main_part(adj@, names, keys@, main_names, i as int);
        assert(main_names[i as int] == members@[i as int]@);
        match judge_node(adj, keys, &order, &members[i]) {
            Some(s) => {
                r.push(s);
                assert(contents(r@) =~= done.push(s@));
                assert((cliques + part).push(s@) =~= cliques + part.push(s@));
            },
            None => {},
        }
        i += 1;
    }
    r
}

/// Whether the suggestions are those for the graph's components, the last of the largest
/// ones taken as the main one. An empty graph has none.
pub open spec fn is_analysis(
    g: Graph,
    nodes: Seq<Name>,
    keys: Seq<u64>,
    list: Seq<Suggestion>,
) -> bool {
    if nodes.len() == 0 {
        list.len() == 0
    } else {
        exists|comps: Seq<Seq<Name>>, main: int|
            {
                &&& #[trigger] components::is_split(g, nodes, comps)
                &&& #[trigger] components::is_largest(comps, main)
                &&& list == suggestions_for(g, nodes, keys, comps, main)
            }
    }
}

/// Finds the nodes of the swarm that need peers, and suggests some. `keys` ranks the nodes
/// of the graph, in the order of the graph, the most central one highest.
pub fn analyze_topology(adj: &Adjacency, keys: &Vec<u64>) -> (r: Vec<PeerSuggestion>)
    requires
        adj.wf(),
        keys@.len() == adj.nodes().len(),
    ensures
        is_analysis(adj@, adj.nodes(), keys@, contents(r@)),
{
    if adj.node_names().len() == 0 {
        return Vec::new();
    }
    let comps = find_components(adj);
    proof {
        let lists = components::text_lists(comps@);
        if comps@.len() == 0 {
            assert(components::members_before(lists, 0).contains(adj.nodes()[0]));
        }
    }
    let main = largest_component(&comps);
    let r = suggest_peers(adj, keys, &comps, main);
    proof {
        let lists = components::text_lists(comps@);
        assert(components::is_split(adj@, adj.nodes(), lists));
        assert(components::is_largest(lists, main as int));
    }
    r
}

impl PeerSuggestion {
    /// A suggestion that says the same.
    fn copy(&self) -> (r: PeerSuggestion)
        ensures
            r@ == self@,
    {
        PeerSuggestion {
            target_node_id: self.target_node_id.clone(),
            suggested_peers: copy_strings(&self.suggested_peers),
            reason: self.reason.clone(),
            isolation_score: self.isolation_score,
        }
    }
}

/// Sorts suggestions by their keys, greatest first; equal keys keep their order.
pub fn sort_suggestions(list: &Vec<PeerSuggestion>, keys: &Vec<u64>) -> (r: Vec<PeerSuggestion>)
    requires
        list@.len() == keys@.len(),
    ensures
        contents(r@) == ranking::ranking(keys@).map_values(|i: usize| list@[i as int]@),
        r@.len() == list@.len(),
        exists|at: Seq<usize>| #[trigger]
            at.no_duplicates() && at.len() == list@.len() && (forall|i: int|
                0 <= i < at.len() ==> (#[trigger] at[i]) < list@.len() && r@[i]@
                    == list@[at[i] as int]@) && (forall|i: int, j: int|
                0 <= i < j < at.len() ==> keys@[#[trigger] at[i] as int] > keys@[#[trigger] at[j] as int]
                    || keys@[at[i] as int] == keys@[at[j] as int] && at[i] < at[j]),
{
    let order = descending_order(keys);
    let ghost want = order@.map_values(|i: usize| list@[i as int]@);
    let mut r: Vec<PeerSuggestion> = Vec::new();
    let mut i: usize = 0;
    while i < order.len()
        invariant
            i <= order@.len(),
            list@.len() == keys@.len(),
            ranking::is_ranking(keys@, order@),
            want == order@.map_values(|i: usize| list@[i as int]@),
            contents(r@) == want.take(i as int),
        decreases order@.len() - i,
    {
        let ghost done = contents(r@);
        let s = list[order[i]].copy();
        r.push(s);
        assert(contents(r@) =~= done.push(s@));
        assert(want.take(i + 1) =~= want.take(i as int).push(want[i as int]));
        i += 1;
    }
    assert(want.take(order@.len() as int) =~= want);
    assert(order@.no_duplicates());
    assert forall|i: int| 0 <= i < order@.len() implies (#[trigger] order@[i]) < list@.len()
        && r@[i]@ == list@[order@[i] as int]@ by {
        assert(contents(r@)[i] == want[i]);
    }
    r
}

} // verus!
