//! Which nodes of a swarm an analysis names, why, with what score, and which peers it suggests to
//! them: all of it over the links themselves.

use crate::components;
use crate::graph;
use crate::graph::{Adjacency, Graph, Name};
use crate::ranking;
use crate::suggestion_laws;
use crate::suggestions;
use crate::suggestions::{PeerSuggestion, Suggestion};
use vstd::prelude::*;

verus! {

/// Whether a link leads from `u` to `v`.
pub open spec fn link(g: Graph, u: Name, v: Name) -> bool {
    g.dom().contains(u) && g[u].contains(v)
}

/// The nodes that links lead to from `n`.
pub open spec fn near(g: Graph, n: Name) -> Seq<Name> {
    if g.dom().contains(n) {
        g[n]
    } else {
        Seq::empty()
    }
}

/// The pairs of positions in a list, the smaller one first, whose nodes are linked.
pub open spec fn linked_positions(g: Graph, list: Seq<Name>) -> Set<(int, int)> {
    Set::new(|p: (int, int)| 0 <= p.0 < p.1 < list.len() && link(g, list[p.0], list[p.1]))
}

/// The nodes other than `n` and its neighbors that a link leads to from a neighbor of `n`.
pub open spec fn beyond(g: Graph, n: Name) -> Set<Name> {
    Set::new(
        |w: Name|
            w != n && !near(g, n).contains(w) && exists|u: Name|
                near(g, n).contains(u) && #[trigger] link(g, u, w),
    )
}

/// The linked pairs whose later position is before `k`, or is `k` with the earlier one before `m`.
spec fn pairs_up_to(g: Graph, list: Seq<Name>, k: int, m: int) -> Set<(int, int)> {
    Set::new(
        |p: (int, int)|
            0 <= p.0 < p.1 && (p.1 < k || p.1 == k && p.0 < m) && link(g, list[p.0], list[p.1]),
    )
}

proof fn lemma_pairs_up_to(g: Graph, list: Seq<Name>, k: int, m: int)
    requires
        0 <= m <= k < list.len(),
    ensures
        pairs_up_to(g, list, k, m).finite(),
        pairs_up_to(g, list, k, m).len() == suggestions::linked_pairs(g, list.take(k))
            + suggestions::links_to(g, list.take(m), list[k]),
    decreases k, m,
{
    let all = pairs_up_to(g, list, k, m);
    if m > 0 {
        let before = pairs_up_to(g, list, k, m - 1);
        lemma_pairs_up_to(g, list, k, m - 1);
        assert(list.take(m).drop_last() =~= list.take(m - 1));
        assert(list.take(m).last() == list[m - 1]);
        assert(link(g, list[m - 1], list[k]) <==> graph::edge(g, list[m - 1], list[k]));
        if link(g, list[m - 1], list[k]) {
            assert(all =~= before.insert((m - 1, k)));
        } else {
            assert(all =~= before);
        }
    } else if k > 0 {
        let before = pairs_up_to(g, list, k - 1, k - 1);
        lemma_pairs_up_to(g, list, k - 1, k - 1);
        assert(all =~= before);
        assert(list.take(k).drop_last() =~= list.take(k - 1));
        assert(list.take(k).last() == list[k - 1]);
        assert(suggestions::links_to(g, list.take(0), list[k]) == 0);
    } else {
        assert(all =~= Set::<(int, int)>::empty());
        assert(list.take(0) =~= Seq::<Name>::empty());
        assert(suggestions::linked_pairs(g, list.take(0)) == 0);
        assert(suggestions::links_to(g, list.take(0), list[k]) == 0);
    }
}

/// The number of linked pairs of a list is the number of pairs of positions whose nodes are linked.
pub proof fn law_linked_pairs_are_counted(g: Graph, list: Seq<Name>)
    ensures
        linked_positions(g, list).finite(),
        linked_positions(g, list).len() == suggestions::linked_pairs(g, list),
{
    let all = linked_positions(g, list);
    if list.len() == 0 {
        assert(all =~= Set::<(int, int)>::empty());
    } else {
        let k = list.len() - 1;
        lemma_pairs_up_to(g, list, k, k);
        assert(all =~= pairs_up_to(g, list, k, k));
        assert(list.take(k) =~= list.drop_last());
    }
}

/// Whether links run both ways.
pub open spec fn both_ways(g: Graph) -> bool {
    forall|u: Name, v: Name| #[trigger] link(g, u, v) ==> link(g, v, u)
}

/// What is known of the components that an analysis goes by.
pub open spec fn is_basis(
    a: Adjacency,
    keys: Seq<u64>,
    comps: Seq<Seq<Name>>,
    main: int,
) -> bool {
    &&& a.wf()
    &&& keys.len() == a.nodes().len()
    &&& keys.len() <= usize::MAX
    &&& components::is_split(a@, a.nodes(), comps)
    &&& components::is_largest(comps, main)
}

/// The neighbors of a node, and the nodes beyond them, are nodes: there are no more of them.
proof fn lemma_counts_fit(a: Adjacency, n: Name)
    requires
        a.wf(),
        both_ways(a@),
    ensures
        near(a@, n).len() <= a.nodes().len(),
        beyond(a@, n).finite(),
        beyond(a@, n).len() <= a.nodes().len(),
{
    let g = a@;
    let all = a.nodes().to_set();
    let close = near(g, n);
    a.nodes().unique_seq_to_set();
    close.unique_seq_to_set();
    assert forall|w: Name| close.to_set().contains(w) implies all.contains(w) by {
        assert(close.contains(w));
        assert(link(g, n, w));
        assert(link(g, w, n));
        assert(g.dom().contains(w) <==> a.nodes().contains(w));
    }
    vstd::set_lib::lemma_len_subset(close.to_set(), all);
    assert forall|w: Name| beyond(g, n).contains(w) implies all.contains(w) by {
        let u = choose|u: Name| close.contains(u) && #[trigger] link(g, u, w);
        assert(link(g, w, u));
        assert(g.dom().contains(w) <==> a.nodes().contains(w));
    }
    vstd::set_lib::lemma_len_subset(beyond(g, n), all);
}

/// The nodes beyond the neighbors of a node are those two hops away.
proof fn lemma_beyond(g: Graph, n: Name)
    ensures
        beyond(g, n) == suggestions::two_hop(g, n),
        near(g, n) == suggestions::neighbors_of(g, n),
{
    let close = near(g, n);
    assert forall|w: Name| beyond(g, n).contains(w) == suggestions::two_hop(g, n).contains(w) by {
        if beyond(g, n).contains(w) {
            let u = choose|u: Name| close.contains(u) && #[trigger] link(g, u, w);
            assert(graph::edge(g, u, w));
        }
        if suggestions::two_hop(g, n).contains(w) {
            let u = choose|u: Name| close.contains(u) && #[trigger] graph::edge(g, u, w);
            assert(link(g, u, w));
        }
    }
    assert(beyond(g, n) =~= suggestions::two_hop(g, n));
}

/// What is suggested to a member of the main component is the verdict on it.
proof fn lemma_main_member(
    a: Adjacency,
    keys: Seq<u64>,
    comps: Seq<Seq<Name>>,
    main: int,
    n: Name,
)
    requires
        is_basis(a, keys, comps, main),
        comps[main].contains(n),
    ensures
        forall|s: Suggestion|
            #![trigger suggestions::suggestions_for(a@, a.nodes(), keys, comps, main).contains(s)]
            suggestions::suggestions_for(a@, a.nodes(), keys, comps, main).contains(s) && s.target
                == n <==> suggestions::verdict(a@, a.nodes(), keys, n) == Some(s),
{
    let g = a@;
    let list = suggestions::suggestions_for(g, a.nodes(), keys, comps, main);
    assert forall|s: Suggestion|
        #![trigger list.contains(s)]
        list.contains(s) && s.target == n <==> suggestions::verdict(g, a.nodes(), keys, n) == Some(
            s,
        ) by {
        if list.contains(s) && s.target == n {
            suggestion_laws::lemma_source(g, a.nodes(), keys, comps, main, s);
            if !suggestions::main_part(
                g,
                a.nodes(),
                keys,
                comps[main],
                comps[main].len() as int,
            ).contains(s) {
                let k = choose|k: int|
                    0 <= k < comps.len() && k != main && #[trigger] comps[k].contains(s.target);
                components::law_components_disjoint(g, a.nodes(), comps, k, main, n);
            }
        }
        if suggestions::verdict(g, a.nodes(), keys, n) == Some(s) {
            let i = choose|i: int| 0 <= i < comps[main].len() && comps[main][i] == n;
            suggestion_laws::lemma_main_listed(g, a.nodes(), keys, comps, main, i);
        }
    }
}

/// A member of the main component gets a suggestion if and only if it has fewer than two neighbors,
/// or more than eight in ten of the pairs of its neighbors are linked and fewer than three in ten of
/// the other nodes lie beyond its neighbors. With fewer than two neighbors the reason is low
/// connectivity, and the score full without any and half with one; else the reason is an isolated
/// clique, and the score tells the counts, which fit in it where links run both ways.
pub proof fn law_who_in_the_main_component_needs_peers(
    a: Adjacency,
    keys: Seq<u64>,
    comps: Seq<Seq<Name>>,
    main: int,
    n: Name,
)
    requires
        is_basis(a, keys, comps, main),
        comps[main].contains(n),
    ensures
        ({
            let list = suggestions::suggestions_for(a@, a.nodes(), keys, comps, main);
            let count = near(a@, n).len() as int;
            let linked = linked_positions(a@, near(a@, n)).len() as int;
            let far = beyond(a@, n).len() as int;
            let others = a.nodes().len() - 1;
            &&& (exists|s: Suggestion| #[trigger] list.contains(s) && s.target == n) <==> count < 2
                || 10 * linked > 8 * (count * (count - 1) / 2) && (others == 0 || 10 * far < 3
                * others)
            &&& forall|s: Suggestion| #[trigger]
                list.contains(s) && s.target == n ==> if count < 2 {
                    &&& s.reason == "low_connectivity"@
                    &&& s.score is Full <==> count == 0
                    &&& s.score is Half <==> count == 1
                } else {
                    &&& s.reason == "isolated_clique"@
                    &&& s.score is Clustered
                    &&& s.score->edges == linked as u128
                    &&& s.score->max_edges == (count * (count - 1) / 2) as u128
                    &&& s.score->two_hop == far as usize
                    &&& s.score->others == others
                    &&& both_ways(a@) ==> s.score->edges == linked && s.score->max_edges == count
                        * (count - 1) / 2 && s.score->two_hop == far
                }
        }),
{
    let g = a@;
    let nodes = a.nodes();
    let list = suggestions::suggestions_for(g, nodes, keys, comps, main);
    let close = near(g, n);
    let count = close.len() as int;
    lemma_beyond(g, n);
    law_linked_pairs_are_counted(g, close);
    if both_ways(g) {
        lemma_counts_fit(a, n);
        suggestions::law_linked_pairs_bounded(g, close);
        suggestions::lemma_pairs_bounded(count);
    }
    lemma_main_member(a, keys, comps, main, n);
    components::law_component_grows_along_links(g, nodes, comps, main);
    assert(nodes.len() > 0);
    let v = suggestions::verdict(g, nodes, keys, n);
    if v is Some {
        assert(list.contains(v->0));
    }
}

/// In a clique whose members have fewer than three in ten of the other nodes beyond them, each
/// member of the main component is named, whatever the size of the clique.
pub proof fn law_isolated_cliques_are_found(
    a: Adjacency,
    keys: Seq<u64>,
    comps: Seq<Seq<Name>>,
    main: int,
    n: Name,
)
    requires
        is_basis(a, keys, comps, main),
        comps[main].contains(n),
        near(a@, n).len() >= 2,
        forall|i: int, j: int|
            0 <= i < j < near(a@, n).len() ==> #[trigger] link(
                a@,
                near(a@, n)[i],
                near(a@, n)[j],
            ),
        10 * beyond(a@, n).len() < 3 * (a.nodes().len() - 1),
    ensures
        exists|s: Suggestion| #[trigger]
            suggestions::suggestions_for(a@, a.nodes(), keys, comps, main).contains(s) && s.target
                == n && s.reason == "isolated_clique"@,
{
    let close = near(a@, n);
    let count = close.len() as int;
    law_who_in_the_main_component_needs_peers(a, keys, comps, main, n);
    law_linked_pairs_are_counted(a@, close);
    lemma_all_pairs(a@, close);
    suggestions::lemma_pairs_step(count - 1);
    assert(count * (count - 1) / 2 >= 1) by {
        assert(suggestions::pairs(count) == suggestions::pairs(count - 1) + (count - 1));
        suggestions::lemma_pairs_step(count - 2);
    }
}

/// Where all nodes of a list are linked, all its pairs are.
proof fn lemma_all_pairs(g: Graph, list: Seq<Name>)
    requires
        forall|i: int, j: int|
            0 <= i < j < list.len() ==> #[trigger] link(g, list[i], list[j]),
    ensures
        suggestions::linked_pairs(g, list) == suggestions::pairs(list.len() as int),
    decreases list.len(),
{
    if list.len() > 0 {
        let front = list.drop_last();
        assert forall|i: int, j: int| 0 <= i < j < front.len() implies #[trigger] link(
            g,
            front[i],
            front[j],
        ) by {
            assert(link(g, list[i], list[j]));
        }
        lemma_all_pairs(g, front);
        assert forall|i: int| 0 <= i < front.len() implies graph::edge(
            g,
            #[trigger] front[i],
            list.last(),
        ) by {
            assert(link(g, list[i], list[list.len() - 1]));
        }
        lemma_all_links(g, front, list.last());
        suggestions::lemma_pairs_step(list.len() - 1);
    }
}

proof fn lemma_all_links(g: Graph, list: Seq<Name>, v: Name)
    requires
        forall|i: int| 0 <= i < list.len() ==> graph::edge(g, #[trigger] list[i], v),
    ensures
        suggestions::links_to(g, list, v) == list.len(),
    decreases list.len(),
{
    if list.len() > 0 {
        let front = list.drop_last();
        assert(forall|i: int| 0 <= i < front.len() ==> #[trigger] front[i] == list[i]);
        lemma_all_links(g, front, v);
        assert(graph::edge(g, list[list.len() - 1], v));
    }
}

/// A member of another component gets a suggestion, for an isolated clique and with the full score,
/// and nothing else; nobody outside the components gets one.
pub proof fn law_who_outside_the_main_component_needs_peers(
    a: Adjacency,
    keys: Seq<u64>,
    comps: Seq<Seq<Name>>,
    main: int,
    n: Name,
)
    requires
        is_basis(a, keys, comps, main),
        !comps[main].contains(n),
    ensures
        ({
            let list = suggestions::suggestions_for(a@, a.nodes(), keys, comps, main);
            &&& (exists|s: Suggestion| #[trigger] list.contains(s) && s.target == n) <==> exists|
                k: int,
            |
                0 <= k < comps.len() && #[trigger] comps[k].contains(n)
            &&& forall|s: Suggestion| #[trigger]
                list.contains(s) && s.target == n ==> s.reason == "isolated_clique"@ && s.score is Full
        }),
{
    let g = a@;
    let list = suggestions::suggestions_for(g, a.nodes(), keys, comps, main);
    assert forall|s: Suggestion| #[trigger] list.contains(s) && s.target == n implies s.reason
        == "isolated_clique"@ && s.score is Full && exists|k: int|
        0 <= k < comps.len() && #[trigger] comps[k].contains(n) by {
        suggestion_laws::lemma_source(g, a.nodes(), keys, comps, main, s);
    }
    if exists|k: int| 0 <= k < comps.len() && #[trigger] comps[k].contains(n) {
        let k = choose|k: int| 0 <= k < comps.len() && #[trigger] comps[k].contains(n);
        let m = choose|m: int| 0 <= m < comps[k].len() && comps[k][m] == n;
        suggestion_laws::lemma_clique_listed(g, a.nodes(), keys, comps, main, k, m);
        let s = suggestions::clique_part(a.nodes(), keys, comps[main], comps[k])[m];
        assert(list.contains(s) && s.target == n);
    }
}

/// Whether a node may be suggested to `n`: to a member of the main component any other node that is
/// not its neighbor, and to a member of another component the members of the main one.
pub open spec fn may_be_suggested(
    a: Adjacency,
    main: Seq<Name>,
    n: Name,
    p: Name,
) -> bool {
    &&& a.nodes().contains(p)
    &&& if main.contains(n) {
        p != n && !near(a@, n).contains(p)
    } else {
        main.contains(p)
    }
}

/// The peers that are suggested are the best of those that may be: at most three, none of them
/// twice, the one with the greater key first and of equal keys the one that is listed first; one
/// that may be suggested is left out only where three better ones are.
pub proof fn law_the_best_peers_are_suggested(
    a: Adjacency,
    keys: Seq<u64>,
    comps: Seq<Seq<Name>>,
    main: int,
    s: Suggestion,
)
    requires
        is_basis(a, keys, comps, main),
        suggestions::suggestions_for(a@, a.nodes(), keys, comps, main).contains(s),
    ensures
        ({
            let nodes = a.nodes();
            &&& s.peers.len() <= 3
            &&& s.peers.no_duplicates()
            &&& forall|p: Name| #[trigger]
                s.peers.contains(p) ==> may_be_suggested(a, comps[main], s.target, p)
            &&& forall|i: int|
                0 <= i < nodes.len() && may_be_suggested(
                    a,
                    comps[main],
                    s.target,
                    #[trigger] nodes[i],
                ) && !s.peers.contains(nodes[i]) ==> s.peers.len() == 3
            &&& forall|i: int, j: int|
                #![trigger nodes[i], nodes[j]]
                0 <= i < nodes.len() && 0 <= j < nodes.len() && may_be_suggested(
                    a,
                    comps[main],
                    s.target,
                    nodes[i],
                ) && !s.peers.contains(nodes[i]) && s.peers.contains(nodes[j]) ==> keys[j] > keys[i]
                    || keys[j] == keys[i] && j < i
            &&& forall|x: int, y: int, i: int, j: int|
                #![trigger s.peers[x], s.peers[y], nodes[i], nodes[j]]
                0 <= x < y < s.peers.len() && 0 <= i < nodes.len() && 0 <= j < nodes.len()
                    && s.peers[x] == nodes[i] && s.peers[y] == nodes[j] ==> keys[i] > keys[j]
                    || keys[i] == keys[j] && i < j
        }),
{
    let g = a@;
    let nodes = a.nodes();
    let t = s.target;
    suggestion_laws::lemma_source(g, nodes, keys, comps, main, s);
    if comps[main].contains(t) {
        lemma_main_member(a, keys, comps, main, t);
        let close = suggestions::neighbors_of(g, t);
        let choice = ranking::eligible(None, close.to_set().insert(t));
        ranking::law_best_are_best(nodes, keys, choice, 3);
        assert forall|p: Name| nodes.contains(p) implies (#[trigger] choice.contains(p)
            <==> may_be_suggested(a, comps[main], t, p)) by {
            assert(close.contains(p) <==> close.to_set().contains(p));
        }
        lemma_carry_over(a, keys, choice, comps[main], s);
    } else {
        let k = suggestion_laws::lemma_clique_of(g, nodes, keys, comps, main, s);
        let choice = ranking::eligible(Some(comps[main].to_set()), comps[k].to_set());
        ranking::law_best_are_best(nodes, keys, choice, 3);
        assert forall|p: Name| nodes.contains(p) implies (#[trigger] choice.contains(p)
            <==> may_be_suggested(a, comps[main], t, p)) by {
            assert(comps[main].contains(p) <==> comps[main].to_set().contains(p));
            assert(comps[k].contains(p) <==> comps[k].to_set().contains(p));
            if comps[main].contains(p) && comps[k].contains(p) {
                components::law_components_disjoint(g, nodes, comps, k, main, p);
            }
        }
        lemma_carry_over(a, keys, choice, comps[main], s);
    }
}

/// What holds of the best of the eligible nodes holds of the suggested ones.
proof fn lemma_carry_over(
    a: Adjacency,
    keys: Seq<u64>,
    choice: Set<Name>,
    main: Seq<Name>,
    s: Suggestion,
)
    requires
        a.wf(),
        keys.len() == a.nodes().len(),
        keys.len() <= usize::MAX,
        s.peers == ranking::best(a.nodes(), keys, choice, 3),
        forall|p: Name|
            a.nodes().contains(p) ==> (#[trigger] choice.contains(p) <==> may_be_suggested(
                a,
                main,
                s.target,
                p,
            )),
    ensures
        ({
            let nodes = a.nodes();
            &&& s.peers.len() <= 3
            &&& s.peers.no_duplicates()
            &&& forall|p: Name| #[trigger]
                s.peers.contains(p) ==> may_be_suggested(a, main, s.target, p)
            &&& forall|i: int|
                0 <= i < nodes.len() && may_be_suggested(a, main, s.target, #[trigger] nodes[i])
                    && !s.peers.contains(nodes[i]) ==> s.peers.len() == 3
            &&& forall|i: int, j: int|
                #![trigger nodes[i], nodes[j]]
                0 <= i < nodes.len() && 0 <= j < nodes.len() && may_be_suggested(
                    a,
                    main,
                    s.target,
                    nodes[i],
                ) && !s.peers.contains(nodes[i]) && s.peers.contains(nodes[j]) ==> keys[j] > keys[i]
                    || keys[j] == keys[i] && j < i
            &&& forall|x: int, y: int, i: int, j: int|
                #![trigger s.peers[x], s.peers[y], nodes[i], nodes[j]]
                0 <= x < y < s.peers.len() && 0 <= i < nodes.len() && 0 <= j < nodes.len()
                    && s.peers[x] == nodes[i] && s.peers[y] == nodes[j] ==> keys[i] > keys[j]
                    || keys[i] == keys[j] && i < j
        }),
{
    let nodes = a.nodes();
    ranking::law_best_are_best(nodes, keys, choice, 3);
    assert forall|i: int|
        0 <= i < nodes.len() && may_be_suggested(
            a,
            main,
            s.target,
            #[trigger] nodes[i],
        ) implies choice.contains(nodes[i]) by {
        assert(nodes.contains(nodes[i]));
    }
}

/// Suggestions for the main component come in the order of its members.
proof fn lemma_main_order(
    g: Graph,
    names: Seq<Name>,
    keys: Seq<u64>,
    members: Seq<Name>,
    k: int,
    x: int,
    y: int,
) -> (at: (int, int))
    requires
        0 <= k <= members.len(),
        0 <= x < y < suggestions::main_part(g, names, keys, members, k).len(),
    ensures
        ({
            let part = suggestions::main_part(g, names, keys, members, k);
            &&& 0 <= at.0 < at.1 < k
            &&& members[at.0] == part[x].target
            &&& members[at.1] == part[y].target
        }),
    decreases k,
{
    let before = suggestions::main_part(g, names, keys, members, k - 1);
    if y < before.len() {
        lemma_main_order(g, names, keys, members, k - 1, x, y)
    } else {
        assert(before.contains(before[x]));
        suggestion_laws::lemma_main_source(g, names, keys, members, k - 1, before[x]);
        let i = choose|i: int|
            0 <= i < k - 1 && suggestions::verdict(g, names, keys, #[trigger] members[i]) == Some(
                before[x],
            );
        (i, k - 1)
    }
}

/// Suggestions for the other components come in the order of the components, and in each of them
/// in the order of its members.
proof fn lemma_cliques_order(
    names: Seq<Name>,
    keys: Seq<u64>,
    comps: Seq<Seq<Name>>,
    main: int,
    k: int,
    x: int,
    y: int,
) -> (at: ((int, int), (int, int)))
    requires
        0 <= k <= comps.len(),
        0 <= x < y < suggestions::cliques_part(names, keys, comps, main, k).len(),
    ensures
        ({
            let part = suggestions::cliques_part(names, keys, comps, main, k);
            let (first, second) = at;
            &&& 0 <= first.0 <= second.0 < k
            &&& first.0 != main && second.0 != main
            &&& 0 <= first.1 < comps[first.0].len()
            &&& 0 <= second.1 < comps[second.0].len()
            &&& comps[first.0][first.1] == part[x].target
            &&& comps[second.0][second.1] == part[y].target
            &&& first.0 == second.0 ==> first.1 < second.1
        }),
    decreases k,
{
    let before = suggestions::cliques_part(names, keys, comps, main, k - 1);
    let size = before.len();
    if y < size {
        lemma_cliques_order(names, keys, comps, main, k - 1, x, y)
    } else if x >= size {
        ((k - 1, x - size), (k - 1, y - size))
    } else {
        assert(before.contains(before[x]));
        suggestion_laws::lemma_cliques_source(names, keys, comps, main, k - 1, before[x]);
        let a = choose|a: int|
            0 <= a < k - 1 && a != main && suggestions::clique_part(
                names,
                keys,
                comps[main],
                #[trigger] comps[a],
            ).contains(before[x]);
        suggestion_laws::lemma_clique_target(names, keys, comps[main], comps[a], before[x]);
        let i = choose|i: int| 0 <= i < comps[a].len() && comps[a][i] == before[x].target;
        ((a, i), (k - 1, y - size))
    }
}

/// Of two suggestions the earlier one is for an earlier component, or for an earlier member of the
/// same one; the main component comes last.
pub proof fn law_suggestions_come_in_order(
    g: Graph,
    nodes: Seq<Name>,
    keys: Seq<u64>,
    comps: Seq<Seq<Name>>,
    main: int,
    x: int,
    y: int,
) -> (at: ((int, int), (int, int)))
    requires
        0 <= main < comps.len(),
        0 <= x < y < suggestions::suggestions_for(g, nodes, keys, comps, main).len(),
    ensures
        ({
            let list = suggestions::suggestions_for(g, nodes, keys, comps, main);
            let (first, second) = at;
            &&& 0 <= first.0 < comps.len() && 0 <= first.1 < comps[first.0].len()
            &&& 0 <= second.0 < comps.len() && 0 <= second.1 < comps[second.0].len()
            &&& comps[first.0][first.1] == list[x].target
            &&& comps[second.0][second.1] == list[y].target
            &&& if first.0 == second.0 {
                first.1 < second.1
            } else {
                first.0 != main && (second.0 == main || first.0 < second.0)
            }
        }),
{
    let count = comps.len() as int;
    let members = comps[main];
    let cliques = suggestions::cliques_part(nodes, keys, comps, main, count);
    let mains = suggestions::main_part(g, nodes, keys, members, members.len() as int);
    let size = cliques.len();
    if y < size {
        lemma_cliques_order(nodes, keys, comps, main, count, x, y)
    } else if x >= size {
        let at = lemma_main_order(
            g,
            nodes,
            keys,
            members,
            members.len() as int,
            x - size,
            y - size,
        );
        ((main, at.0), (main, at.1))
    } else {
        assert(cliques.contains(cliques[x]));
        suggestion_laws::lemma_cliques_source(nodes, keys, comps, main, count, cliques[x]);
        let a = choose|a: int|
            0 <= a < count && a != main && suggestions::clique_part(
                nodes,
                keys,
                members,
                #[trigger] comps[a],
            ).contains(cliques[x]);
        suggestion_laws::lemma_clique_target(nodes, keys, members, comps[a], cliques[x]);
        let i = choose|i: int| 0 <= i < comps[a].len() && comps[a][i] == cliques[x].target;
        let last = mains[y - size];
        assert(mains.contains(last));
        suggestion_laws::lemma_main_source(
            g,
            nodes,
            keys,
            members,
            members.len() as int,
            last,
        );
        let j = choose|j: int|
            0 <= j < members.len() && suggestions::verdict(g, nodes, keys, #[trigger] members[j])
                == Some(last);
        ((a, i), (main, j))
    }
}

/// What a suggestion says is what its fields hold, and what a list of them says is what each of
/// them says, in their order.
pub proof fn law_suggestions_say_their_fields(list: Seq<PeerSuggestion>)
    ensures
        suggestions::contents(list).len() == list.len(),
        forall|i: int|
            #![trigger suggestions::contents(list)[i]]
            0 <= i < list.len() ==> {
                let s = suggestions::contents(list)[i];
                &&& s == list[i]@
                &&& s.target == list[i].target_node_id@
                &&& s.reason == list[i].reason@
                &&& s.score == list[i].isolation_score
                &&& s.peers.len() == list[i].suggested_peers@.len()
                &&& forall|j: int|
                    0 <= j < s.peers.len() ==> #[trigger] s.peers[j]
                        == list[i].suggested_peers@[j]@
            },
{
}

/// The suggestions of an analysis are those that its components call for: it goes by components of
/// the graph, of which it takes the last of the largest ones for the main one. A swarm without nodes
/// gets none.
pub proof fn law_analysis_goes_by_the_components(
    a: Adjacency,
    keys: Seq<u64>,
    list: Seq<Suggestion>,
) -> (basis: (Seq<Seq<Name>>, int))
    requires
        a.wf(),
        keys.len() == a.nodes().len(),
        keys.len() <= usize::MAX,
        suggestions::is_analysis(a@, a.nodes(), keys, list),
    ensures
        a.nodes().len() == 0 ==> list.len() == 0,
        a.nodes().len() > 0 ==> {
            &&& is_basis(a, keys, basis.0, basis.1)
            &&& list == suggestions::suggestions_for(a@, a.nodes(), keys, basis.0, basis.1)
            &&& forall|i: int|
                0 <= i < basis.0.len() ==> (#[trigger] basis.0[i]).len() <= basis.0[basis.1].len()
            &&& forall|i: int|
                basis.1 < i < basis.0.len() ==> (#[trigger] basis.0[i]).len()
                    < basis.0[basis.1].len()
        },
{
    choose|comps: Seq<Seq<Name>>, main: int|
        {
            &&& #[trigger] components::is_split(a@, a.nodes(), comps)
            &&& #[trigger] components::is_largest(comps, main)
            &&& list == suggestions::suggestions_for(a@, a.nodes(), keys, comps, main)
        }
}

} // verus!
