//! What does not change the analysis of a swarm: the order of its peers, which side reports a
//! link, peers that are stale, and links to peers that are unknown or stale.

use crate::components;
use crate::graph;
use crate::graph::{Adjacency, Graph, Name};
use crate::suggestion_laws;
use crate::suggestions;
use crate::suggestions::{IsolationScore, Suggestion};
use crate::topology;
use crate::topology::PeerStatus;
use vstd::prelude::*;

verus! {

/// Whether two graphs have the same edges.
pub open spec fn same_edges(g: Graph, h: Graph) -> bool {
    forall|u: Name, v: Name| #[trigger] graph::edge(g, u, v) <==> graph::edge(h, u, v)
}

/// Whether two lists hold the same names.
pub open spec fn same_members(a: Seq<Name>, b: Seq<Name>) -> bool {
    forall|n: Name| #[trigger] a.contains(n) <==> b.contains(n)
}

/// The nodes that can be reached from `n`.
pub open spec fn class_of(g: Graph, n: Name) -> Set<Name> {
    Set::new(|w: Name| graph::reachable(g, Set::empty(), n, w))
}

/// Whether the nodes that can be reached from `n` are more than those that can be reached from
/// any node outside of them.
pub open spec fn in_the_largest(g: Graph, nodes: Seq<Name>, n: Name) -> bool {
    &&& nodes.contains(n)
    &&& forall|m: Name| #[trigger]
        nodes.contains(m) && !graph::reachable(g, Set::empty(), n, m) ==> class_of(g, m).len()
            < class_of(g, n).len()
}

/// Whether the graph has only one largest component. A graph without nodes has none, and counts
/// too.
pub open spec fn has_one_largest(g: Graph, nodes: Seq<Name>) -> bool {
    nodes.len() == 0 || exists|n: Name| in_the_largest(g, nodes, n)
}

/// Whether some suggestion of the list has this target, this reason and this score.
pub open spec fn says(
    list: Seq<Suggestion>,
    target: Name,
    reason: Seq<char>,
    score: IsolationScore,
) -> bool {
    exists|s: Suggestion| #[trigger]
        list.contains(s) && s.target == target && s.reason == reason && s.score == score
}

/// Whether two lists of suggestions agree on targets, reasons and scores.
pub open spec fn agree(a: Seq<Suggestion>, b: Seq<Suggestion>) -> bool {
    forall|target: Name, reason: Seq<char>, score: IsolationScore| #[trigger]
        says(a, target, reason, score) <==> says(b, target, reason, score)
}

/// The same edges reach the same nodes.
proof fn lemma_same_within(g: Graph, h: Graph, s: Name, w: Name, k: nat)
    requires
        same_edges(g, h),
        graph::within(g, Set::empty(), s, w, k),
    ensures
        graph::within(h, Set::empty(), s, w, k),
    decreases k,
{
    if w != s {
        let u = choose|u: Name|
            graph::within(g, Set::empty(), s, u, (k - 1) as nat) && #[trigger] graph::edge(g, u, w);
        lemma_same_within(g, h, s, u, (k - 1) as nat);
        assert(graph::edge(h, u, w));
    }
}

proof fn lemma_same_reachable(g: Graph, h: Graph, s: Name, w: Name)
    requires
        same_edges(g, h),
    ensures
        graph::reachable(g, Set::empty(), s, w) <==> graph::reachable(h, Set::empty(), s, w),
{
    if graph::reachable(g, Set::empty(), s, w) {
        let k = choose|k: nat| graph::within(g, Set::empty(), s, w, k);
        lemma_same_within(g, h, s, w, k);
    }
    if graph::reachable(h, Set::empty(), s, w) {
        let k = choose|k: nat| graph::within(h, Set::empty(), s, w, k);
        lemma_same_within(h, g, s, w, k);
    }
}

proof fn lemma_same_class(g: Graph, h: Graph, n: Name)
    requires
        same_edges(g, h),
    ensures
        class_of(g, n) == class_of(h, n),
{
    assert forall|w: Name| class_of(g, n).contains(w) == class_of(h, n).contains(w) by {
        lemma_same_reachable(g, h, n, w);
    }
    assert(class_of(g, n) =~= class_of(h, n));
}

/// A component is what can be reached from any of its members.
proof fn lemma_component_is_class(
    g: Graph,
    nodes: Seq<Name>,
    comps: Seq<Seq<Name>>,
    k: int,
    a: Name,
)
    requires
        graph::symmetric(g),
        components::is_split(g, nodes, comps),
        0 <= k < comps.len(),
        comps[k].contains(a),
    ensures
        forall|b: Name| #[trigger]
            comps[k].contains(b) <==> graph::reachable(g, Set::empty(), a, b),
        class_of(g, a).len() == comps[k].len(),
{
    assert forall|b: Name| #[trigger] comps[k].contains(b) <==> graph::reachable(
        g,
        Set::empty(),
        a,
        b,
    ) by {
        components::law_component_is_connected_class(g, nodes, comps, k, a, b);
    }
    assert(components::is_component(g, nodes, comps, k));
    assert forall|b: Name| class_of(g, a).contains(b) == comps[k].to_set().contains(b) by {
        assert(comps[k].contains(b) <==> comps[k].to_set().contains(b));
    }
    assert(class_of(g, a) =~= comps[k].to_set());
    comps[k].unique_seq_to_set();
}

/// The main component is the one that holds a node of the only largest component.
proof fn lemma_main_holds(
    g: Graph,
    nodes: Seq<Name>,
    comps: Seq<Seq<Name>>,
    main: int,
    n: Name,
)
    requires
        graph::symmetric(g),
        components::is_split(g, nodes, comps),
        components::is_largest(comps, main),
        in_the_largest(g, nodes, n),
    ensures
        comps[main].contains(n),
{
    components::law_components_cover(g, nodes, comps, n);
    let i = choose|i: int| 0 <= i < comps.len() && #[trigger] comps[i].contains(n);
    if i != main {
        assert(components::is_component(g, nodes, comps, main));
        let m = comps[main][0];
        assert(comps[main].contains(m));
        assert(nodes.contains(m));
        lemma_component_is_class(g, nodes, comps, i, n);
        lemma_component_is_class(g, nodes, comps, main, m);
        if graph::reachable(g, Set::empty(), n, m) {
            assert(comps[i].contains(m));
            components::law_components_disjoint(g, nodes, comps, i, main, m);
        }
        assert(class_of(g, m).len() < class_of(g, n).len());
        assert(comps[i].len() <= comps[main].len());
    }
}

/// Without one of its nodes a list has as many links to `v` less the link of that node.
proof fn lemma_links_remove(g: Graph, list: Seq<Name>, i: int, v: Name)
    requires
        0 <= i < list.len(),
    ensures
        suggestions::links_to(g, list, v) == suggestions::links_to(g, list.remove(i), v)
            + if graph::edge(g, list[i], v) {
            1nat
        } else {
            0
        },
    decreases list.len(),
{
    if i == list.len() - 1 {
        assert(list.remove(i) =~= list.drop_last());
    } else {
        let front = list.drop_last();
        lemma_links_remove(g, front, i, v);
        assert(list.remove(i).drop_last() =~= front.remove(i));
        assert(list.remove(i).last() == list.last());
    }
}

/// In a symmetric graph the linked pairs of a list are those without one of its nodes and the
/// links of that node.
proof fn lemma_pairs_remove(g: Graph, list: Seq<Name>, i: int)
    requires
        graph::symmetric(g),
        0 <= i < list.len(),
    ensures
        suggestions::linked_pairs(g, list) == suggestions::linked_pairs(g, list.remove(i))
            + suggestions::links_to(g, list.remove(i), list[i]),
    decreases list.len(),
{
    if i == list.len() - 1 {
        assert(list.remove(i) =~= list.drop_last());
    } else {
        let front = list.drop_last();
        let rest = list.remove(i);
        let (x, y) = (list[i], list.last());
        lemma_pairs_remove(g, front, i);
        lemma_links_remove(g, front, i, y);
        assert(rest.drop_last() =~= front.remove(i));
        assert(rest.last() == y);
        assert(graph::edge(g, x, y) <==> graph::edge(g, y, x));
    }
}

/// Taking the same node out of two lists with the same members leaves the same members.
proof fn lemma_remove_same(a: Seq<Name>, b: Seq<Name>, i: int)
    requires
        a.no_duplicates(),
        b.no_duplicates(),
        same_members(a, b),
        a.len() > 0,
        0 <= i < b.len(),
        b[i] == a.last(),
    ensures
        a.drop_last().no_duplicates(),
        b.remove(i).no_duplicates(),
        same_members(a.drop_last(), b.remove(i)),
{
    let front = a.drop_last();
    let rest = b.remove(i);
    assert forall|n: Name| #[trigger] front.contains(n) <==> rest.contains(n) by {
        if front.contains(n) {
            let k = choose|k: int| 0 <= k < front.len() && front[k] == n;
            assert(a[k] == n);
            assert(a.contains(n));
            assert(b.contains(n));
            let j = choose|j: int| 0 <= j < b.len() && b[j] == n;
            if j < i {
                assert(rest[j] == n);
            } else if j > i {
                assert(rest[j - 1] == n);
            }
        }
        if rest.contains(n) {
            let j = choose|j: int| 0 <= j < rest.len() && rest[j] == n;
            let m = if j < i {
                j
            } else {
                j + 1
            };
            assert(b[m] == n);
            assert(b.contains(n));
            assert(a.contains(n));
            let k = choose|k: int| 0 <= k < a.len() && a[k] == n;
            assert(b[m] != b[i]);
            assert(front[k] == n);
        }
    }
}

/// In graphs with the same edges, lists with the same members have as many links to `v`.
proof fn lemma_same_links(g: Graph, h: Graph, a: Seq<Name>, b: Seq<Name>, v: Name)
    requires
        same_edges(g, h),
        a.no_duplicates(),
        b.no_duplicates(),
        same_members(a, b),
    ensures
        a.len() == b.len(),
        suggestions::links_to(g, a, v) == suggestions::links_to(h, b, v),
    decreases a.len(),
{
    if a.len() == 0 {
        if b.len() > 0 {
            assert(b.contains(b[0]));
            assert(a.contains(b[0]));
        }
    } else {
        let x = a.last();
        assert(a[a.len() - 1] == x);
        assert(a.contains(x));
        let i = choose|i: int| 0 <= i < b.len() && b[i] == x;
        lemma_remove_same(a, b, i);
        lemma_same_links(g, h, a.drop_last(), b.remove(i), v);
        lemma_links_remove(h, b, i, v);
        assert(graph::edge(g, x, v) <==> graph::edge(h, x, v));
    }
}

/// In symmetric graphs with the same edges, lists with the same members have as many linked
/// pairs, whatever their order.
pub proof fn law_linked_pairs_have_no_order(g: Graph, h: Graph, a: Seq<Name>, b: Seq<Name>)
    requires
        graph::symmetric(h),
        same_edges(g, h),
        a.no_duplicates(),
        b.no_duplicates(),
        same_members(a, b),
    ensures
        a.len() == b.len(),
        suggestions::linked_pairs(g, a) == suggestions::linked_pairs(h, b),
    decreases a.len(),
{
    if a.len() == 0 {
        if b.len() > 0 {
            assert(b.contains(b[0]));
            assert(a.contains(b[0]));
        }
    } else {
        let x = a.last();
        assert(a[a.len() - 1] == x);
        assert(a.contains(x));
        let i = choose|i: int| 0 <= i < b.len() && b[i] == x;
        lemma_remove_same(a, b, i);
        law_linked_pairs_have_no_order(g, h, a.drop_last(), b.remove(i));
        lemma_same_links(g, h, a.drop_last(), b.remove(i), x);
        lemma_pairs_remove(h, b, i);
    }
}

/// Whether the neighbors of every node are listed without repetitions.
pub open spec fn lists_neighbors_once(g: Graph) -> bool {
    forall|n: Name| g.dom().contains(n) ==> (#[trigger] g[n]).no_duplicates()
}

/// The verdict on a node depends on the edges and the number of nodes only, apart from the
/// peers that it suggests.
proof fn lemma_same_verdict(
    g: Graph,
    h: Graph,
    nodes: Seq<Name>,
    others: Seq<Name>,
    keys: Seq<u64>,
    other_keys: Seq<u64>,
    n: Name,
)
    requires
        graph::symmetric(h),
        same_edges(g, h),
        lists_neighbors_once(g),
        lists_neighbors_once(h),
        nodes.len() == others.len(),
    ensures
        ({
            let v = suggestions::verdict(g, nodes, keys, n);
            let w = suggestions::verdict(h, others, other_keys, n);
            &&& v is Some <==> w is Some
            &&& v is Some ==> v->0.target == w->0.target && v->0.reason == w->0.reason && v->0.score
                == w->0.score
        }),
{
    let near = suggestions::neighbors_of(g, n);
    let close = suggestions::neighbors_of(h, n);
    assert forall|m: Name| #[trigger] near.contains(m) <==> close.contains(m) by {
        assert(graph::edge(g, n, m) <==> graph::edge(h, n, m));
    }
    law_linked_pairs_have_no_order(g, h, near, close);
    let far = suggestions::two_hop(g, n);
    let distant = suggestions::two_hop(h, n);
    assert forall|w: Name| far.contains(w) == distant.contains(w) by {
        assert(near.contains(w) <==> close.contains(w));
        if far.contains(w) {
            let u = choose|u: Name| near.contains(u) && #[trigger] graph::edge(g, u, w);
            assert(close.contains(u) && graph::edge(h, u, w));
        }
        if distant.contains(w) {
            let u = choose|u: Name| close.contains(u) && #[trigger] graph::edge(h, u, w);
            assert(near.contains(u) && graph::edge(g, u, w));
        }
    }
    assert(far =~= distant);
}

/// What one analysis says, the other one says too.
proof fn lemma_says_too(
    g: Graph,
    h: Graph,
    nodes: Seq<Name>,
    others: Seq<Name>,
    keys: Seq<u64>,
    other_keys: Seq<u64>,
    comps: Seq<Seq<Name>>,
    other_comps: Seq<Seq<Name>>,
    main: int,
    other_main: int,
    largest: Name,
    s: Suggestion,
)
    requires
        graph::symmetric(g),
        graph::symmetric(h),
        same_edges(g, h),
        lists_neighbors_once(g),
        lists_neighbors_once(h),
        same_members(nodes, others),
        nodes.len() == others.len(),
        components::is_split(g, nodes, comps),
        components::is_split(h, others, other_comps),
        components::is_largest(comps, main),
        components::is_largest(other_comps, other_main),
        comps[main].contains(largest),
        other_comps[other_main].contains(largest),
        suggestions::suggestions_for(g, nodes, keys, comps, main).contains(s),
    ensures
        says(
            suggestions::suggestions_for(h, others, other_keys, other_comps, other_main),
            s.target,
            s.reason,
            s.score,
        ),
{
    let list = suggestions::suggestions_for(h, others, other_keys, other_comps, other_main);
    let t = s.target;
    lemma_component_is_class(g, nodes, comps, main, largest);
    lemma_component_is_class(h, others, other_comps, other_main, largest);
    lemma_same_reachable(g, h, largest, t);
    suggestion_laws::lemma_source(g, nodes, keys, comps, main, s);
    if suggestions::main_part(
        g,
        nodes,
        keys,
        comps[main],
        comps[main].len() as int,
    ).contains(s) {
        assert(comps[main].contains(t));
        assert(other_comps[other_main].contains(t));
        lemma_same_verdict(g, h, nodes, others, keys, other_keys, t);
        let i = choose|i: int|
            0 <= i < other_comps[other_main].len() && other_comps[other_main][i] == t;
        let said = suggestions::verdict(h, others, other_keys, other_comps[other_main][i])->0;
        suggestion_laws::lemma_main_listed(h, others, other_keys, other_comps, other_main, i);
        assert(list.contains(said));
    } else {
        let k = choose|k: int|
            0 <= k < comps.len() && k != main && #[trigger] comps[k].contains(t);
        if comps[main].contains(t) {
            components::law_components_disjoint(g, nodes, comps, k, main, t);
        }
        assert(!other_comps[other_main].contains(t));
        assert(components::is_component(g, nodes, comps, k));
        let first = comps[k][0];
        assert(comps[k].contains(first));
        lemma_component_is_class(g, nodes, comps, k, first);
        lemma_same_reachable(g, h, first, t);
        assert(nodes.contains(first));
        assert(others.contains(first));
        components::law_components_cover(h, others, other_comps, first);
        let j = choose|j: int| 0 <= j < other_comps.len() && #[trigger] other_comps[j].contains(first);
        lemma_component_is_class(h, others, other_comps, j, first);
        assert(other_comps[j].contains(t));
        let m = choose|m: int| 0 <= m < other_comps[j].len() && other_comps[j][m] == t;
        suggestion_laws::lemma_clique_listed(h, others, other_keys, other_comps, other_main, j, m);
        let said = suggestions::clique_part(
            others,
            other_keys,
            other_comps[other_main],
            other_comps[j],
        )[m];
        assert(list.contains(said));
    }
}

/// Lists without repetitions and with the same members are equally long.
proof fn lemma_same_len(a: Seq<Name>, b: Seq<Name>)
    requires
        a.no_duplicates(),
        b.no_duplicates(),
        same_members(a, b),
    ensures
        a.len() == b.len(),
{
    a.unique_seq_to_set();
    b.unique_seq_to_set();
    assert forall|n: Name| a.to_set().contains(n) == b.to_set().contains(n) by {
        assert(a.contains(n) <==> b.contains(n));
    }
    assert(a.to_set() =~= b.to_set());
}

/// In a swarm with only one largest component, the targets, reasons and scores of the analysis
/// depend on the nodes and the edges alone, in whatever order they are listed, and not on how the
/// nodes are ranked.
pub proof fn law_analysis_depends_on_links_alone(
    a: Adjacency,
    b: Adjacency,
    a_keys: Seq<u64>,
    b_keys: Seq<u64>,
    a_list: Seq<Suggestion>,
    b_list: Seq<Suggestion>,
)
    requires
        a.wf(),
        b.wf(),
        graph::symmetric(a@),
        same_edges(a@, b@),
        same_members(a.nodes(), b.nodes()),
        has_one_largest(a@, a.nodes()),
        suggestions::is_analysis(a@, a.nodes(), a_keys, a_list),
        suggestions::is_analysis(b@, b.nodes(), b_keys, b_list),
    ensures
        agree(a_list, b_list),
{
    let (nodes, others) = (a.nodes(), b.nodes());
    lemma_same_len(nodes, others);
    if nodes.len() > 0 {
        lemma_agree(a, b, a_keys, b_keys, a_list, b_list);
    } else {
        assert forall|target: Name, reason: Seq<char>, score: IsolationScore|
            !(#[trigger] says(a_list, target, reason, score)) && !says(
                b_list,
                target,
                reason,
                score,
            ) by {
            assert(forall|s: Suggestion| !(#[trigger] a_list.contains(s)));
            assert(forall|s: Suggestion| !(#[trigger] b_list.contains(s)));
        }
    }
}

proof fn lemma_agree(
    a: Adjacency,
    b: Adjacency,
    a_keys: Seq<u64>,
    b_keys: Seq<u64>,
    a_list: Seq<Suggestion>,
    b_list: Seq<Suggestion>,
)
    requires
        a.wf(),
        b.wf(),
        a.nodes().len() == b.nodes().len(),
        a.nodes().len() > 0,
        graph::symmetric(a@),
        same_edges(a@, b@),
        same_members(a.nodes(), b.nodes()),
        has_one_largest(a@, a.nodes()),
        suggestions::is_analysis(a@, a.nodes(), a_keys, a_list),
        suggestions::is_analysis(b@, b.nodes(), b_keys, b_list),
    ensures
        agree(a_list, b_list),
{
    let (g, h) = (a@, b@);
    let (nodes, others) = (a.nodes(), b.nodes());
    let n = choose|n: Name| in_the_largest(g, nodes, n);
    assert(graph::symmetric(h)) by {
        assert forall|u: Name, v: Name| #[trigger] graph::edge(h, u, v) implies graph::edge(
            h,
            v,
            u,
        ) by {
            assert(graph::edge(g, u, v));
            assert(graph::edge(g, v, u));
        }
    }
    assert(nodes.contains(n));
    assert(in_the_largest(h, others, n)) by {
        assert(others.contains(n));
        lemma_same_class(g, h, n);
        assert forall|m: Name| #[trigger]
            others.contains(m) && !graph::reachable(h, Set::empty(), n, m) implies class_of(
            h,
            m,
        ).len() < class_of(h, n).len() by {
            assert(nodes.contains(m));
            lemma_same_class(g, h, m);
            lemma_same_reachable(g, h, n, m);
        }
    }
    let (comps, main) = choose|comps: Seq<Seq<Name>>, main: int|
        {
            &&& #[trigger] components::is_split(g, nodes, comps)
            &&& #[trigger] components::is_largest(comps, main)
            &&& a_list == suggestions::suggestions_for(g, nodes, a_keys, comps, main)
        };
    let (parts, head) = choose|comps: Seq<Seq<Name>>, main: int|
        {
            &&& #[trigger] components::is_split(h, others, comps)
            &&& #[trigger] components::is_largest(comps, main)
            &&& b_list == suggestions::suggestions_for(h, others, b_keys, comps, main)
        };
    lemma_main_holds(g, nodes, comps, main, n);
    lemma_main_holds(h, others, parts, head, n);
    assert forall|target: Name, reason: Seq<char>, score: IsolationScore| #[trigger]
        says(a_list, target, reason, score) <==> says(b_list, target, reason, score) by {
        if says(a_list, target, reason, score) {
            let s = choose|s: Suggestion| #[trigger]
                a_list.contains(s) && s.target == target && s.reason == reason && s.score == score;
            lemma_says_too(
                g,
                h,
                nodes,
                others,
                a_keys,
                b_keys,
                comps,
                parts,
                main,
                head,
                n,
                s,
            );
        }
        if says(b_list, target, reason, score) {
            let s = choose|s: Suggestion| #[trigger]
                b_list.contains(s) && s.target == target && s.reason == reason && s.score == score;
            lemma_says_too(
                h,
                g,
                others,
                nodes,
                b_keys,
                a_keys,
                parts,
                comps,
                head,
                main,
                n,
                s,
            );
        }
    }
}

/// Whether `a` is the graph of the peers, as `build_graph` builds it.
pub open spec fn is_graph_of(a: Adjacency, peers: Seq<PeerStatus>) -> bool {
    &&& a.wf()
    &&& a.nodes() == topology::active_ids(peers)
    &&& forall|u: Name, v: Name| #[trigger]
        graph::edge(a@, u, v) <==> topology::linked(peers, u, v)
}

/// Whether two lists of peers have the same active peers, with the same links between them.
pub open spec fn same_swarm(p: Seq<PeerStatus>, q: Seq<PeerStatus>) -> bool {
    &&& forall|n: Name| #[trigger] topology::active(p, n) <==> topology::active(q, n)
    &&& forall|u: Name, v: Name| #[trigger]
        topology::linked(p, u, v) <==> topology::linked(q, u, v)
}

/// In a swarm with only one largest component, the order of the peers and the side that reports
/// a link change no target, reason or score.
pub proof fn law_order_and_reporting_side_do_not_matter(
    p: Seq<PeerStatus>,
    q: Seq<PeerStatus>,
    a: Adjacency,
    b: Adjacency,
    a_keys: Seq<u64>,
    b_keys: Seq<u64>,
    a_list: Seq<Suggestion>,
    b_list: Seq<Suggestion>,
)
    requires
        same_swarm(p, q),
        is_graph_of(a, p),
        is_graph_of(b, q),
        has_one_largest(a@, a.nodes()),
        suggestions::is_analysis(a@, a.nodes(), a_keys, a_list),
        suggestions::is_analysis(b@, b.nodes(), b_keys, b_list),
    ensures
        agree(a_list, b_list),
{
    topology::lemma_active_ids(p);
    topology::lemma_active_ids(q);
    assert forall|u: Name, v: Name| #[trigger] graph::edge(a@, u, v) <==> graph::edge(
        b@,
        u,
        v,
    ) by {
        assert(topology::linked(p, u, v) <==> topology::linked(q, u, v));
    }
    assert forall|n: Name| #[trigger] a.nodes().contains(n) <==> b.nodes().contains(n) by {
        assert(topology::active(p, n) <==> topology::active(q, n));
    }
    assert forall|u: Name, v: Name| #[trigger] graph::edge(a@, u, v) implies graph::edge(
        a@,
        v,
        u,
    ) by {
        assert(topology::linked(p, u, v));
        let (i, j) = choose|i: int, j: int| topology::link_at(p, i, j, u, v);
        assert(topology::link_at(p, i, j, v, u));
    }
    law_analysis_depends_on_links_alone(a, b, a_keys, b_keys, a_list, b_list);
}

/// Peers in another order are the same swarm.
pub proof fn law_reordered_peers_are_the_same_swarm(p: Seq<PeerStatus>, q: Seq<PeerStatus>)
    requires
        p.to_multiset() == q.to_multiset(),
    ensures
        same_swarm(p, q),
{
    lemma_reordered_active(p, q);
    lemma_reordered_active(q, p);
    lemma_reordered_linked(p, q);
    lemma_reordered_linked(q, p);
}

proof fn lemma_reordered(p: Seq<PeerStatus>, q: Seq<PeerStatus>, i: int) -> (k: int)
    requires
        p.to_multiset() == q.to_multiset(),
        0 <= i < p.len(),
    ensures
        0 <= k < q.len(),
        q[k] == p[i],
{
    p.to_multiset_ensures();
    q.to_multiset_ensures();
    assert(p.contains(p[i]));
    assert(q.to_multiset().count(p[i]) > 0);
    assert(q.contains(p[i]));
    choose|k: int| 0 <= k < q.len() && q[k] == p[i]
}

proof fn lemma_reordered_active(p: Seq<PeerStatus>, q: Seq<PeerStatus>)
    requires
        p.to_multiset() == q.to_multiset(),
    ensures
        forall|n: Name| #[trigger] topology::active(p, n) ==> topology::active(q, n),
{
    assert forall|n: Name| #[trigger] topology::active(p, n) implies topology::active(q, n) by {
        let i = choose|i: int|
            0 <= i < p.len() && !(#[trigger] p[i]).stale && p[i].node_id@ == n;
        let k = lemma_reordered(p, q, i);
        assert(!q[k].stale);
    }
}

proof fn lemma_reordered_linked(p: Seq<PeerStatus>, q: Seq<PeerStatus>)
    requires
        p.to_multiset() == q.to_multiset(),
    ensures
        forall|u: Name, v: Name| #[trigger]
            topology::linked(p, u, v) ==> topology::linked(q, u, v),
{
    lemma_reordered_active(p, q);
    assert forall|u: Name, v: Name| #[trigger] topology::linked(p, u, v) implies topology::linked(
        q,
        u,
        v,
    ) by {
        let (i, j) = choose|i: int, j: int| topology::link_at(p, i, j, u, v);
        let k = lemma_reordered(p, q, i);
        assert(topology::link_at(q, k, j, u, v));
    }
}

/// Whether `q` is `p` without the stale peers and without the links to peers that are unknown or
/// stale.
pub open spec fn is_cleaned(p: Seq<PeerStatus>, q: Seq<PeerStatus>) -> bool {
    let kept = p.filter(|x: PeerStatus| !x.stale);
    &&& q.len() == kept.len()
    &&& forall|i: int|
        0 <= i < q.len() ==> {
            &&& !(#[trigger] q[i]).stale
            &&& q[i].node_id@ == kept[i].node_id@
            &&& graph::texts(q[i].neighbors@) == graph::texts(kept[i].neighbors@).filter(
                |n: Name| topology::active(p, n),
            )
        }
}

/// Where a peer that is not stale stands among the cleaned ones.
proof fn lemma_cleaned_place(p: Seq<PeerStatus>, q: Seq<PeerStatus>, i: int) -> (k: int)
    requires
        is_cleaned(p, q),
        0 <= i < p.len(),
        !p[i].stale,
    ensures
        0 <= k < q.len(),
        p.filter(|x: PeerStatus| !x.stale)[k] == p[i],
{
    let keep = |x: PeerStatus| !x.stale;
    assert(p.contains(p[i]));
    graph::lemma_kept(p, keep, p[i]);
    choose|k: int| 0 <= k < p.filter(keep).len() && p.filter(keep)[k] == p[i]
}

/// Where a cleaned peer stood.
proof fn lemma_cleaned_source(p: Seq<PeerStatus>, q: Seq<PeerStatus>, k: int) -> (i: int)
    requires
        is_cleaned(p, q),
        0 <= k < q.len(),
    ensures
        0 <= i < p.len(),
        !p[i].stale,
        p.filter(|x: PeerStatus| !x.stale)[k] == p[i],
{
    let keep = |x: PeerStatus| !x.stale;
    let kept = p.filter(keep);
    assert(kept.contains(kept[k]));
    graph::lemma_kept(p, keep, kept[k]);
    choose|i: int| 0 <= i < p.len() && p[i] == kept[k]
}

/// Stale peers, and links to peers that are unknown or stale, are no part of the swarm.
pub proof fn law_cleaned_peers_are_the_same_swarm(p: Seq<PeerStatus>, q: Seq<PeerStatus>)
    requires
        is_cleaned(p, q),
    ensures
        same_swarm(p, q),
{
    let kept = p.filter(|x: PeerStatus| !x.stale);
    let known = |n: Name| topology::active(p, n);
    assert forall|n: Name| #[trigger] topology::active(p, n) <==> topology::active(q, n) by {
        if topology::active(p, n) {
            let i = choose|i: int|
                0 <= i < p.len() && !(#[trigger] p[i]).stale && p[i].node_id@ == n;
            let k = lemma_cleaned_place(p, q, i);
            assert(!q[k].stale && q[k].node_id@ == n);
        }
        if topology::active(q, n) {
            let k = choose|k: int|
                0 <= k < q.len() && !(#[trigger] q[k]).stale && q[k].node_id@ == n;
            let i = lemma_cleaned_source(p, q, k);
            assert(p[i].node_id@ == n);
        }
    }
    assert forall|u: Name, v: Name| #[trigger] topology::linked(p, u, v) <==> topology::linked(
        q,
        u,
        v,
    ) by {
        if topology::linked(p, u, v) {
            let (i, j) = choose|i: int, j: int| topology::link_at(p, i, j, u, v);
            let k = lemma_cleaned_place(p, q, i);
            let all = graph::texts(kept[k].neighbors@);
            let some = graph::texts(q[k].neighbors@);
            let b = p[i].neighbors@[j]@;
            assert(all[j] == b);
            assert(all.contains(b));
            graph::lemma_kept(all, known, b);
            assert(some =~= all.filter(known));
            let m = choose|m: int| 0 <= m < some.len() && some[m] == b;
            assert(q[k].neighbors@[m]@ == b);
            assert(topology::active(q, b));
            assert(topology::link_at(q, k, m, u, v));
        }
        if topology::linked(q, u, v) {
            let (k, m) = choose|k: int, m: int| topology::link_at(q, k, m, u, v);
            let i = lemma_cleaned_source(p, q, k);
            let all = graph::texts(kept[k].neighbors@);
            let some = graph::texts(q[k].neighbors@);
            let b = q[k].neighbors@[m]@;
            assert(some[m] == b);
            assert(some.contains(b));
            assert(some =~= all.filter(known));
            graph::lemma_kept(all, known, b);
            let j = choose|j: int| 0 <= j < all.len() && all[j] == b;
            assert(p[i].neighbors@[j]@ == b);
            assert(topology::link_at(p, i, j, u, v));
        }
    }
}

/// In a swarm with only one largest component, stale peers and links to peers that are unknown or
/// stale change no target, reason or score.
pub proof fn law_stale_peers_and_unknown_links_do_not_matter(
    p: Seq<PeerStatus>,
    q: Seq<PeerStatus>,
    a: Adjacency,
    b: Adjacency,
    a_keys: Seq<u64>,
    b_keys: Seq<u64>,
    a_list: Seq<Suggestion>,
    b_list: Seq<Suggestion>,
)
    requires
        is_cleaned(p, q),
        is_graph_of(a, p),
        is_graph_of(b, q),
        has_one_largest(a@, a.nodes()),
        suggestions::is_analysis(a@, a.nodes(), a_keys, a_list),
        suggestions::is_analysis(b@, b.nodes(), b_keys, b_list),
    ensures
        agree(a_list, b_list),
{
    law_cleaned_peers_are_the_same_swarm(p, q);
    law_order_and_reporting_side_do_not_matter(p, q, a, b, a_keys, b_keys, a_list, b_list);
}

} // verus!
