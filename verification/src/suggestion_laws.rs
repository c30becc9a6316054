//! What holds of the suggestions for a swarm.

use crate::components;
use crate::graph;
use crate::graph::{Graph, Name};
use crate::ranking;
use crate::suggestions;
use crate::suggestions::{IsolationScore, Suggestion};
use vstd::prelude::*;

verus! {

/// A suggestion for the main component comes from the verdict on a member.
pub proof fn lemma_main_source(
    g: Graph,
    names: Seq<Name>,
    keys: Seq<u64>,
    members: Seq<Name>,
    k: int,
    s: Suggestion,
)
    requires
        0 <= k <= members.len(),
    ensures
        suggestions::main_part(g, names, keys, members, k).contains(s) <==> exists|i: int|
            0 <= i < k && suggestions::verdict(g, names, keys, #[trigger] members[i]) == Some(s),
    decreases k,
{
    let part = suggestions::main_part(g, names, keys, members, k);
    if k > 0 {
        let before = suggestions::main_part(g, names, keys, members, k - 1);
        lemma_main_source(g, names, keys, members, k - 1, s);
        if let Some(last) = suggestions::verdict(g, names, keys, members[k - 1]) {
            graph::lemma_push_contains(before, last, s);
        }
        if exists|i: int|
            0 <= i < k && suggestions::verdict(g, names, keys, #[trigger] members[i]) == Some(s) {
            let i = choose|i: int|
                0 <= i < k && suggestions::verdict(g, names, keys, #[trigger] members[i]) == Some(
                    s,
                );
            if i < k - 1 {
                assert(suggestions::verdict(g, names, keys, members[i]) == Some(s));
            }
        }
    }
}

proof fn lemma_concat_contains(a: Seq<Suggestion>, b: Seq<Suggestion>, s: Suggestion)
    ensures
        (a + b).contains(s) <==> a.contains(s) || b.contains(s),
{
    if a.contains(s) {
        let i = choose|i: int| 0 <= i < a.len() && a[i] == s;
        assert((a + b)[i] == s);
    }
    if b.contains(s) {
        let i = choose|i: int| 0 <= i < b.len() && b[i] == s;
        assert((a + b)[a.len() + i] == s);
    }
    if (a + b).contains(s) {
        let i = choose|i: int| 0 <= i < (a + b).len() && (a + b)[i] == s;
        if i < a.len() {
            assert(a[i] == s);
        } else {
            assert(b[i - a.len()] == s);
        }
    }
}

/// A suggestion for another component than the main one is one for its members.
pub proof fn lemma_cliques_source(
    names: Seq<Name>,
    keys: Seq<u64>,
    comps: Seq<Seq<Name>>,
    main: int,
    k: int,
    s: Suggestion,
)
    requires
        0 <= k <= comps.len(),
    ensures
        suggestions::cliques_part(names, keys, comps, main, k).contains(s) <==> exists|i: int|
            0 <= i < k && i != main && suggestions::clique_part(
                names,
                keys,
                comps[main],
                #[trigger] comps[i],
            ).contains(s),
    decreases k,
{
    if k > 0 {
        let before = suggestions::cliques_part(names, keys, comps, main, k - 1);
        let part = suggestions::clique_part(names, keys, comps[main], comps[k - 1]);
        lemma_cliques_source(names, keys, comps, main, k - 1, s);
        lemma_concat_contains(before, part, s);
        if exists|i: int|
            0 <= i < k && i != main && suggestions::clique_part(
                names,
                keys,
                comps[main],
                #[trigger] comps[i],
            ).contains(s) {
            let i = choose|i: int|
                0 <= i < k && i != main && suggestions::clique_part(
                    names,
                    keys,
                    comps[main],
                    #[trigger] comps[i],
                ).contains(s);
            if i < k - 1 {
                assert(suggestions::clique_part(names, keys, comps[main], comps[i]).contains(s));
            }
        }
        if before.contains(s) {
            let i = choose|i: int|
                0 <= i < k - 1 && i != main && suggestions::clique_part(
                    names,
                    keys,
                    comps[main],
                    #[trigger] comps[i],
                ).contains(s);
            assert(suggestions::clique_part(names, keys, comps[main], comps[i]).contains(s));
        }
    }
}

/// Whether the peers of a suggestion can be made neighbors of its target: they are nodes, none
/// of them twice, none of them the target or a neighbor of it, and no more than may be
/// suggested.
pub open spec fn proposes_new_links(g: Graph, nodes: Seq<Name>, s: Suggestion) -> bool {
    &&& s.peers.len() <= suggestions::SUGGESTED_PEERS
    &&& s.peers.no_duplicates()
    &&& forall|p: Name| #[trigger]
        s.peers.contains(p) ==> nodes.contains(p) && p != s.target && !graph::edge(g, s.target, p)
}

/// Every suggestion proposes new links only.
pub proof fn law_suggestions_propose_new_links(
    g: Graph,
    nodes: Seq<Name>,
    keys: Seq<u64>,
    comps: Seq<Seq<Name>>,
    main: int,
    s: Suggestion,
)
    requires
        graph::symmetric(g),
        nodes.no_duplicates(),
        nodes.len() == keys.len(),
        keys.len() <= usize::MAX,
        components::is_split(g, nodes, comps),
        components::is_largest(comps, main),
        suggestions::suggestions_for(g, nodes, keys, comps, main).contains(s),
    ensures
        proposes_new_links(g, nodes, s),
{
    let cliques = suggestions::cliques_part(nodes, keys, comps, main, comps.len() as int);
    let mains = suggestions::main_part(g, nodes, keys, comps[main], comps[main].len() as int);
    lemma_concat_contains(cliques, mains, s);
    lemma_cliques_source(nodes, keys, comps, main, comps.len() as int, s);
    lemma_main_source(g, nodes, keys, comps[main], comps[main].len() as int, s);
    let most = suggestions::SUGGESTED_PEERS as nat;
    if mains.contains(s) {
        let i = choose|i: int|
            0 <= i < comps[main].len() && suggestions::verdict(
                g,
                nodes,
                keys,
                #[trigger] comps[main][i],
            ) == Some(s);
        let n = comps[main][i];
        let near = suggestions::neighbors_of(g, n);
        let choice = ranking::eligible(None, near.to_set().insert(n));
        ranking::law_best_are_best(nodes, keys, choice, most);
        assert forall|p: Name| #[trigger] s.peers.contains(p) implies nodes.contains(p) && p
            != s.target && !graph::edge(g, s.target, p) by {
            assert(choice.contains(p));
            assert(near.contains(p) <==> near.to_set().contains(p));
        }
    } else {
        let i = choose|i: int|
            0 <= i < comps.len() && i != main && suggestions::clique_part(
                nodes,
                keys,
                comps[main],
                #[trigger] comps[i],
            ).contains(s);
        let members = comps[i];
        let choice = ranking::eligible(Some(comps[main].to_set()), members.to_set());
        ranking::law_best_are_best(nodes, keys, choice, most);
        let part = suggestions::clique_part(nodes, keys, comps[main], members);
        let m = choose|m: int| 0 <= m < part.len() && part[m] == s;
        assert(s.target == members[m]);
        assert forall|p: Name| #[trigger] s.peers.contains(p) implies nodes.contains(p) && p
            != s.target && !graph::edge(g, s.target, p) by {
            assert(choice.contains(p));
            assert(comps[main].contains(p));
            if p == s.target {
                assert(members.to_set().contains(p));
            }
            if graph::edge(g, s.target, p) {
                assert(graph::within(g, Set::empty(), s.target, s.target, 0));
                assert(graph::within(g, Set::empty(), s.target, p, 1));
                assert(graph::reachable(g, Set::empty(), s.target, p));
                components::law_component_is_connected_class(g, nodes, comps, i, s.target, p);
                components::law_components_disjoint(g, nodes, comps, i, main, p);
            }
        }
    }
}

/// Every node outside the main component is told to connect to the best nodes of the main
/// component, with the full score.
pub proof fn law_outsiders_are_led_to_the_main_component(
    g: Graph,
    nodes: Seq<Name>,
    keys: Seq<u64>,
    comps: Seq<Seq<Name>>,
    main: int,
    n: Name,
)
    requires
        components::is_split(g, nodes, comps),
        components::is_largest(comps, main),
        nodes.contains(n),
        !comps[main].contains(n),
    ensures
        exists|s: Suggestion|
            {
                &&& #[trigger] suggestions::suggestions_for(g, nodes, keys, comps, main).contains(s)
                &&& s.target == n
                &&& s.reason == "isolated_clique"@
                &&& s.score == IsolationScore::Full
                &&& forall|p: Name| #[trigger] s.peers.contains(p) ==> comps[main].contains(p)
            },
{
    components::law_components_cover(g, nodes, comps, n);
    let k = choose|k: int| 0 <= k < comps.len() && #[trigger] comps[k].contains(n);
    let m = choose|m: int| 0 <= m < comps[k].len() && comps[k][m] == n;
    let part = suggestions::clique_part(nodes, keys, comps[main], comps[k]);
    let s = part[m];
    assert(part.contains(s));
    lemma_cliques_source(nodes, keys, comps, main, comps.len() as int, s);
    lemma_concat_contains(
        suggestions::cliques_part(nodes, keys, comps, main, comps.len() as int),
        suggestions::main_part(g, nodes, keys, comps[main], comps[main].len() as int),
        s,
    );
    let choice = ranking::eligible(Some(comps[main].to_set()), comps[k].to_set());
    assert forall|p: Name| #[trigger] s.peers.contains(p) implies comps[main].contains(p) by {
        let all = ranking::ranked(nodes, keys);
        let kept = all.filter(|n: Name| choice.contains(n));
        let i = choose|i: int| 0 <= i < s.peers.len() && s.peers[i] == p;
        assert(kept[i] == p);
        all.lemma_filter_pred(|n: Name| choice.contains(n), i);
        assert(comps[main].to_set().contains(p));
    }
    assert(suggestions::suggestions_for(g, nodes, keys, comps, main).contains(s));
}

/// Every node of the main component with fewer than two neighbors is told to connect to others,
/// with the full score where it has none and half of it where it has one.
pub proof fn law_loose_nodes_get_suggestions(
    g: Graph,
    nodes: Seq<Name>,
    keys: Seq<u64>,
    comps: Seq<Seq<Name>>,
    main: int,
    n: Name,
)
    requires
        components::is_largest(comps, main),
        comps[main].contains(n),
        suggestions::neighbors_of(g, n).len() < 2,
    ensures
        exists|s: Suggestion|
            {
                &&& #[trigger] suggestions::suggestions_for(g, nodes, keys, comps, main).contains(s)
                &&& s.target == n
                &&& s.reason == "low_connectivity"@
                &&& s.score == if suggestions::neighbors_of(g, n).len() == 0 {
                    IsolationScore::Full
                } else {
                    IsolationScore::Half
                }
            },
{
    let i = choose|i: int| 0 <= i < comps[main].len() && comps[main][i] == n;
    let s = suggestions::verdict(g, nodes, keys, comps[main][i])->0;
    lemma_main_source(g, nodes, keys, comps[main], comps[main].len() as int, s);
    lemma_concat_contains(
        suggestions::cliques_part(nodes, keys, comps, main, comps.len() as int),
        suggestions::main_part(g, nodes, keys, comps[main], comps[main].len() as int),
        s,
    );
    assert(suggestions::suggestions_for(g, nodes, keys, comps, main).contains(s));
}

/// A suggestion comes from the verdict on a member of the main component, or it is one for a
/// member of another component, with the full score.
pub proof fn lemma_source(
    g: Graph,
    nodes: Seq<Name>,
    keys: Seq<u64>,
    comps: Seq<Seq<Name>>,
    main: int,
    s: Suggestion,
)
    requires
        components::is_largest(comps, main),
        suggestions::suggestions_for(g, nodes, keys, comps, main).contains(s),
    ensures
        ({
            let mains = suggestions::main_part(
                g,
                nodes,
                keys,
                comps[main],
                comps[main].len() as int,
            );
            if mains.contains(s) {
                comps[main].contains(s.target) && suggestions::verdict(g, nodes, keys, s.target)
                    == Some(s)
            } else {
                &&& exists|k: int|
                    0 <= k < comps.len() && k != main && #[trigger] comps[k].contains(s.target)
                &&& s.reason == "isolated_clique"@
                &&& s.score == IsolationScore::Full
            }
        }),
{
    let cliques = suggestions::cliques_part(nodes, keys, comps, main, comps.len() as int);
    let mains = suggestions::main_part(g, nodes, keys, comps[main], comps[main].len() as int);
    lemma_concat_contains(cliques, mains, s);
    if mains.contains(s) {
        lemma_main_source(g, nodes, keys, comps[main], comps[main].len() as int, s);
        let i = choose|i: int|
            0 <= i < comps[main].len() && suggestions::verdict(
                g,
                nodes,
                keys,
                #[trigger] comps[main][i],
            ) == Some(s);
        assert(comps[main][i] == s.target);
    } else {
        lemma_cliques_source(nodes, keys, comps, main, comps.len() as int, s);
        let k = choose|k: int|
            0 <= k < comps.len() && k != main && suggestions::clique_part(
                nodes,
                keys,
                comps[main],
                #[trigger] comps[k],
            ).contains(s);
        lemma_clique_target(nodes, keys, comps[main], comps[k], s);
    }
}

/// The component of a suggestion whose target is not in the main one, and its peers.
pub proof fn lemma_clique_of(
    g: Graph,
    nodes: Seq<Name>,
    keys: Seq<u64>,
    comps: Seq<Seq<Name>>,
    main: int,
    s: Suggestion,
) -> (k: int)
    requires
        components::is_largest(comps, main),
        suggestions::suggestions_for(g, nodes, keys, comps, main).contains(s),
        !comps[main].contains(s.target),
    ensures
        0 <= k < comps.len(),
        k != main,
        comps[k].contains(s.target),
        s.peers == ranking::best(
            nodes,
            keys,
            ranking::eligible(Some(comps[main].to_set()), comps[k].to_set()),
            suggestions::SUGGESTED_PEERS as nat,
        ),
{
    let cliques = suggestions::cliques_part(nodes, keys, comps, main, comps.len() as int);
    let mains = suggestions::main_part(g, nodes, keys, comps[main], comps[main].len() as int);
    lemma_source(g, nodes, keys, comps, main, s);
    lemma_concat_contains(cliques, mains, s);
    lemma_cliques_source(nodes, keys, comps, main, comps.len() as int, s);
    let k = choose|k: int|
        0 <= k < comps.len() && k != main && suggestions::clique_part(
            nodes,
            keys,
            comps[main],
            #[trigger] comps[k],
        ).contains(s);
    lemma_clique_target(nodes, keys, comps[main], comps[k], s);
    k
}

/// The suggestion for a member of the main component, where it needs one, is listed.
pub proof fn lemma_main_listed(
    g: Graph,
    nodes: Seq<Name>,
    keys: Seq<u64>,
    comps: Seq<Seq<Name>>,
    main: int,
    i: int,
)
    requires
        components::is_largest(comps, main),
        0 <= i < comps[main].len(),
        suggestions::verdict(g, nodes, keys, comps[main][i]) is Some,
    ensures
        suggestions::suggestions_for(g, nodes, keys, comps, main).contains(
            suggestions::verdict(g, nodes, keys, comps[main][i])->0,
        ),
{
    let s = suggestions::verdict(g, nodes, keys, comps[main][i])->0;
    lemma_main_source(g, nodes, keys, comps[main], comps[main].len() as int, s);
    lemma_concat_contains(
        suggestions::cliques_part(nodes, keys, comps, main, comps.len() as int),
        suggestions::main_part(g, nodes, keys, comps[main], comps[main].len() as int),
        s,
    );
}

/// The suggestion for a member of another component is listed.
pub proof fn lemma_clique_listed(
    g: Graph,
    nodes: Seq<Name>,
    keys: Seq<u64>,
    comps: Seq<Seq<Name>>,
    main: int,
    k: int,
    m: int,
)
    requires
        components::is_largest(comps, main),
        0 <= k < comps.len(),
        k != main,
        0 <= m < comps[k].len(),
    ensures
        suggestions::suggestions_for(g, nodes, keys, comps, main).contains(
            suggestions::clique_part(nodes, keys, comps[main], comps[k])[m],
        ),
{
    let part = suggestions::clique_part(nodes, keys, comps[main], comps[k]);
    assert(part.contains(part[m]));
    lemma_cliques_source(nodes, keys, comps, main, comps.len() as int, part[m]);
    lemma_concat_contains(
        suggestions::cliques_part(nodes, keys, comps, main, comps.len() as int),
        suggestions::main_part(g, nodes, keys, comps[main], comps[main].len() as int),
        part[m],
    );
}

/// Whether no two suggestions of a list have the same target.
pub open spec fn distinct_targets(list: Seq<Suggestion>) -> bool {
    forall|i: int, j: int|
        0 <= i < j < list.len() ==> (#[trigger] list[i]).target != (#[trigger] list[j]).target
}

/// Lists with distinct targets, none of them in both, make one.
proof fn lemma_distinct_concat(a: Seq<Suggestion>, b: Seq<Suggestion>)
    requires
        distinct_targets(a),
        distinct_targets(b),
        forall|s: Suggestion, t: Suggestion| #[trigger]
            a.contains(s) && #[trigger] b.contains(t) ==> s.target != t.target,
    ensures
        distinct_targets(a + b),
{
    let both = a + b;
    assert forall|i: int, j: int| 0 <= i < j < both.len() implies (#[trigger] both[i]).target != (
    #[trigger] both[j]).target by {
        if j < a.len() {
            assert(a[i].target != a[j].target);
        } else if i >= a.len() {
            assert(b[i - a.len()].target != b[j - a.len()].target);
        } else {
            assert(a.contains(a[i]));
            assert(b.contains(b[j - a.len()]));
        }
    }
}

/// The target of a suggestion for a component is a member of it.
pub proof fn lemma_clique_target(
    names: Seq<Name>,
    keys: Seq<u64>,
    main: Seq<Name>,
    members: Seq<Name>,
    s: Suggestion,
)
    requires
        suggestions::clique_part(names, keys, main, members).contains(s),
    ensures
        members.contains(s.target),
{
    let part = suggestions::clique_part(names, keys, main, members);
    let m = choose|m: int| 0 <= m < part.len() && part[m] == s;
    assert(members[m] == s.target);
}

proof fn lemma_cliques_distinct(
    g: Graph,
    nodes: Seq<Name>,
    keys: Seq<u64>,
    comps: Seq<Seq<Name>>,
    main: int,
    k: int,
)
    requires
        components::is_split(g, nodes, comps),
        0 <= k <= comps.len(),
    ensures
        distinct_targets(suggestions::cliques_part(nodes, keys, comps, main, k)),
    decreases k,
{
    if k > 0 {
        lemma_cliques_distinct(g, nodes, keys, comps, main, k - 1);
        if k - 1 != main {
            let before = suggestions::cliques_part(nodes, keys, comps, main, k - 1);
            let members = comps[k - 1];
            let part = suggestions::clique_part(nodes, keys, comps[main], members);
            assert(components::is_component(g, nodes, comps, k - 1));
            assert(distinct_targets(part)) by {
                assert forall|i: int, j: int| 0 <= i < j < part.len() implies (
                #[trigger] part[i]).target != (#[trigger] part[j]).target by {
                    assert(members[i] != members[j]);
                }
            }
            assert forall|s: Suggestion, t: Suggestion| #[trigger]
                before.contains(s) && #[trigger] part.contains(t) implies s.target != t.target by {
                lemma_cliques_source(nodes, keys, comps, main, k - 1, s);
                let i = choose|i: int|
                    0 <= i < k - 1 && i != main && suggestions::clique_part(
                        nodes,
                        keys,
                        comps[main],
                        #[trigger] comps[i],
                    ).contains(s);
                lemma_clique_target(nodes, keys, comps[main], comps[i], s);
                lemma_clique_target(nodes, keys, comps[main], members, t);
                if s.target == t.target {
                    components::law_components_disjoint(g, nodes, comps, i, k - 1, s.target);
                }
            }
            lemma_distinct_concat(before, part);
        }
    }
}

proof fn lemma_main_distinct(
    g: Graph,
    names: Seq<Name>,
    keys: Seq<u64>,
    members: Seq<Name>,
    k: int,
)
    requires
        members.no_duplicates(),
        0 <= k <= members.len(),
    ensures
        distinct_targets(suggestions::main_part(g, names, keys, members, k)),
    decreases k,
{
    if k > 0 {
        let before = suggestions::main_part(g, names, keys, members, k - 1);
        lemma_main_distinct(g, names, keys, members, k - 1);
        if let Some(last) = suggestions::verdict(g, names, keys, members[k - 1]) {
            let now = before.push(last);
            assert forall|i: int, j: int| 0 <= i < j < now.len() implies (
            #[trigger] now[i]).target != (#[trigger] now[j]).target by {
                if j < before.len() {
                    assert(before[i].target != before[j].target);
                } else {
                    assert(before.contains(before[i]));
                    lemma_main_source(g, names, keys, members, k - 1, before[i]);
                    let m = choose|m: int|
                        0 <= m < k - 1 && suggestions::verdict(
                            g,
                            names,
                            keys,
                            #[trigger] members[m],
                        ) == Some(before[i]);
                    assert(members[m] != members[k - 1]);
                }
            }
        }
    }
}

/// No node gets more than one suggestion.
pub proof fn law_one_suggestion_for_a_node(
    g: Graph,
    nodes: Seq<Name>,
    keys: Seq<u64>,
    comps: Seq<Seq<Name>>,
    main: int,
)
    requires
        components::is_split(g, nodes, comps),
        components::is_largest(comps, main),
    ensures
        distinct_targets(suggestions::suggestions_for(g, nodes, keys, comps, main)),
{
    let members = comps[main];
    let cliques = suggestions::cliques_part(nodes, keys, comps, main, comps.len() as int);
    let mains = suggestions::main_part(g, nodes, keys, members, members.len() as int);
    assert(components::is_component(g, nodes, comps, main));
    lemma_cliques_distinct(g, nodes, keys, comps, main, comps.len() as int);
    lemma_main_distinct(g, nodes, keys, members, members.len() as int);
    assert forall|s: Suggestion, t: Suggestion| #[trigger]
        cliques.contains(s) && #[trigger] mains.contains(t) implies s.target != t.target by {
        lemma_cliques_source(nodes, keys, comps, main, comps.len() as int, s);
        let i = choose|i: int|
            0 <= i < comps.len() && i != main && suggestions::clique_part(
                nodes,
                keys,
                comps[main],
                #[trigger] comps[i],
            ).contains(s);
        lemma_clique_target(nodes, keys, comps[main], comps[i], s);
        lemma_main_source(g, nodes, keys, members, members.len() as int, t);
        let m = choose|m: int|
            0 <= m < members.len() && suggestions::verdict(
                g,
                nodes,
                keys,
                #[trigger] members[m],
            ) == Some(t);
        assert(members.contains(t.target));
        if s.target == t.target {
            components::law_components_disjoint(g, nodes, comps, i, main, s.target);
        }
    }
    lemma_distinct_concat(cliques, mains);
}

/// The suggestions of an analysis propose new links only, and no node gets more than one.
pub proof fn law_analysis_is_sound(
    g: Graph,
    nodes: Seq<Name>,
    keys: Seq<u64>,
    list: Seq<Suggestion>,
)
    requires
        graph::symmetric(g),
        nodes.no_duplicates(),
        nodes.len() == keys.len(),
        keys.len() <= usize::MAX,
        suggestions::is_analysis(g, nodes, keys, list),
    ensures
        distinct_targets(list),
        forall|s: Suggestion| #[trigger] list.contains(s) ==> proposes_new_links(g, nodes, s),
{
    if nodes.len() > 0 {
        let (comps, main) = choose|comps: Seq<Seq<Name>>, main: int|
            {
                &&& #[trigger] components::is_split(g, nodes, comps)
                &&& #[trigger] components::is_largest(comps, main)
                &&& list == suggestions::suggestions_for(g, nodes, keys, comps, main)
            };
        law_one_suggestion_for_a_node(g, nodes, keys, comps, main);
        assert forall|s: Suggestion| #[trigger] list.contains(s) implies proposes_new_links(
            g,
            nodes,
            s,
        ) by {
            law_suggestions_propose_new_links(g, nodes, keys, comps, main, s);
        }
    }
}

} // verus!
