//! The file of known peers, and the peers to join at the start.

use crate::graph;
use crate::hexadecimal;
use crate::identity;
use crate::identity::NodeId;
use crate::text;
use crate::text::{entries, lines, str_eq};
use vstd::prelude::*;

verus! {

/// How many peers the file of known peers holds at most.
pub const MAX_KNOWN_PEERS: usize = 15;

/// The ids of nodes.
pub open spec fn ids(nodes: Seq<NodeId>) -> Seq<Seq<u8>> {
    nodes.map_values(|n: NodeId| n@)
}

/// The ids of nodes are those of each of them, in their order.
pub proof fn law_ids_are_those_of_the_nodes(nodes: Seq<NodeId>)
    ensures
        ids(nodes).len() == nodes.len(),
        forall|i: int| 0 <= i < nodes.len() ==> #[trigger] ids(nodes)[i] == nodes[i]@,
{
}

/// The ids that texts give, in their order, without the texts that give none.
pub open spec fn parsed_ids(texts: Seq<Seq<char>>) -> Seq<Seq<u8>>
    decreases texts.len(),
{
    if texts.len() == 0 {
        Seq::empty()
    } else {
        match identity::endpoint_id_parsed(texts.last()) {
            Some(id) => parsed_ids(texts.drop_last()).push(id),
            None => parsed_ids(texts.drop_last()),
        }
    }
}

/// Reads node ids, leaving out the texts that are none.
fn parse_ids(texts: &Vec<String>) -> (r: Vec<NodeId>)
    ensures
        ids(r@) == parsed_ids(graph::texts(texts@)),
{
    let mut r: Vec<NodeId> = Vec::new();
    let ghost all = graph::texts(texts@);
    let mut i: usize = 0;
    assert(all.take(0) =~= Seq::<Seq<char>>::empty());
    assert(ids(r@) =~= Seq::<Seq<u8>>::empty());
    while i < texts.len()
        invariant
            i <= texts@.len(),
            all == graph::texts(texts@),
            ids(r@) == parsed_ids(all.take(i as int)),
        decreases texts@.len() - i,
    {
        proof {
            assert(all.take(i + 1).drop_last() =~= all.take(i as int));
            assert(all.take(i + 1).last() == texts@[i as int]@);
        }
        if let Some(id) = NodeId::parse(texts[i].as_str()) {
            let ghost before = ids(r@);
            r.push(id);
            assert(ids(r@) =~= before.push(id@));
        }
        i += 1;
    }
    assert(all.take(i as int) =~= all);
    r
}

/// Every text that gives an id gives it at its place, and nothing else is read: the ids are those
/// of the texts at increasing positions, which are all positions with an id.
pub proof fn law_every_id_is_read(texts: Seq<Seq<char>>) -> (at: Seq<int>)
    ensures
        at.len() == parsed_ids(texts).len(),
        forall|i: int, j: int| 0 <= i < j < at.len() ==> at[i] < at[j],
        forall|i: int|
            0 <= i < at.len() ==> 0 <= #[trigger] at[i] < texts.len()
                && identity::endpoint_id_parsed(texts[at[i]]) == Some(parsed_ids(texts)[i]),
        forall|k: int|
            0 <= k < texts.len() && identity::endpoint_id_parsed(#[trigger] texts[k]) is Some
                ==> at.contains(k),
    decreases texts.len(),
{
    if texts.len() == 0 {
        Seq::empty()
    } else {
        let front = texts.drop_last();
        let n = front.len() as int;
        let before = law_every_id_is_read(front);
        assert(texts[n] == texts.last());
        assert(forall|k: int| 0 <= k < n ==> #[trigger] front[k] == texts[k]);
        if identity::endpoint_id_parsed(texts.last()) is Some {
            let at = before.push(n);
            assert forall|k: int|
                0 <= k < texts.len() && identity::endpoint_id_parsed(
                    #[trigger] texts[k],
                ) is Some implies at.contains(k) by {
                graph::lemma_push_contains(before, n, k);
                if k < n {
                    assert(front[k] == texts[k]);
                }
            }
            assert forall|i: int| 0 <= i < at.len() implies 0 <= #[trigger] at[i] < texts.len()
                && identity::endpoint_id_parsed(texts[at[i]]) == Some(parsed_ids(texts)[i]) by {
                if i < before.len() {
                    assert(at[i] == before[i]);
                    assert(front[before[i]] == texts[before[i]]);
                }
            }
            at
        } else {
            assert forall|k: int|
                0 <= k < texts.len() && identity::endpoint_id_parsed(
                    #[trigger] texts[k],
                ) is Some implies before.contains(k) by {
                assert(front[k] == texts[k]);
            }
            before
        }
    }
}

/// Where all texts are ids, they are read one for one.
pub proof fn law_ids_are_read_one_for_one(texts: Seq<Seq<char>>)
    requires
        forall|k: int|
            0 <= k < texts.len() ==> identity::endpoint_id_parsed(#[trigger] texts[k]) is Some,
    ensures
        parsed_ids(texts).len() == texts.len(),
        forall|k: int|
            0 <= k < texts.len() ==> identity::endpoint_id_parsed(#[trigger] texts[k]) == Some(
                parsed_ids(texts)[k],
            ),
    decreases texts.len(),
{
    if texts.len() > 0 {
        let front = texts.drop_last();
        assert(forall|k: int| 0 <= k < front.len() ==> #[trigger] front[k] == texts[k]);
        law_ids_are_read_one_for_one(front);
        assert(texts[texts.len() - 1] == texts.last());
        assert forall|k: int| 0 <= k < texts.len() implies identity::endpoint_id_parsed(
            #[trigger] texts[k],
        ) == Some(parsed_ids(texts)[k]) by {
            if k < front.len() {
                assert(front[k] == texts[k]);
            }
        }
    }
}

/// The nodes read are those of the entries.
proof fn lemma_loaded(found: Seq<Seq<char>>, nodes: Seq<NodeId>)
    requires
        ids(nodes) == parsed_ids(found),
    ensures
        exists|at: Seq<int>|
            {
                &&& #[trigger] at.len() == nodes.len()
                &&& forall|i: int, j: int| 0 <= i < j < at.len() ==> at[i] < at[j]
                &&& forall|i: int|
                    0 <= i < at.len() ==> 0 <= #[trigger] at[i] < found.len()
                        && identity::endpoint_id_parsed(found[at[i]]) == Some(nodes[i]@)
                &&& forall|k: int|
                    0 <= k < found.len() && identity::endpoint_id_parsed(#[trigger] found[k]) is Some
                        ==> at.contains(k)
            },
{
    let at = law_every_id_is_read(found);
    assert(at.len() == nodes.len());
    assert forall|i: int| 0 <= i < at.len() implies 0 <= #[trigger] at[i] < found.len()
        && identity::endpoint_id_parsed(found[at[i]]) == Some(nodes[i]@) by {
        assert(ids(nodes)[i] == nodes[i]@);
    }
}

/// The peers that the file of known peers lists, one id in each line. Lines that hold no id
/// are passed over. A file that cannot be read counts as empty.
pub fn load_known_peers(contents: &str) -> (r: Vec<NodeId>)
    ensures
        ids(r@) == parsed_ids(text::entries_of(contents@, '\n')),
        exists|at: Seq<int>|
            {
                let found = text::entries_of(contents@, '\n');
                &&& #[trigger] at.len() == r@.len()
                &&& forall|i: int, j: int| 0 <= i < j < at.len() ==> at[i] < at[j]
                &&& forall|i: int|
                    0 <= i < at.len() ==> 0 <= #[trigger] at[i] < found.len()
                        && identity::endpoint_id_parsed(found[at[i]]) == Some(r@[i]@)
                &&& forall|k: int|
                    0 <= k < found.len() && identity::endpoint_id_parsed(#[trigger] found[k]) is Some
                        ==> at.contains(k)
            },
{
    let r = parse_ids(&entries(contents, '\n'));
    proof {
        lemma_loaded(text::entries_of(contents@, '\n'), r@);
    }
    r
}

/// The peers of a list of ids with commas between them. What is no id is passed over.
pub fn bootstrap_peers(setting: &str) -> (r: Vec<NodeId>)
    ensures
        ids(r@) == parsed_ids(text::entries_of(setting@, ',')),
        exists|at: Seq<int>|
            {
                let found = text::entries_of(setting@, ',');
                &&& #[trigger] at.len() == r@.len()
                &&& forall|i: int, j: int| 0 <= i < j < at.len() ==> at[i] < at[j]
                &&& forall|i: int|
                    0 <= i < at.len() ==> 0 <= #[trigger] at[i] < found.len()
                        && identity::endpoint_id_parsed(found[at[i]]) == Some(r@[i]@)
                &&& forall|k: int|
                    0 <= k < found.len() && identity::endpoint_id_parsed(#[trigger] found[k]) is Some
                        ==> at.contains(k)
            },
{
    let r = parse_ids(&entries(setting, ','));
    proof {
        lemma_loaded(text::entries_of(setting@, ','), r@);
    }
    r
}

/// The ids with those of another list behind them that are not among them yet.
pub open spec fn merged(first: Seq<Seq<u8>>, more: Seq<Seq<u8>>) -> Seq<Seq<u8>>
    decreases more.len(),
{
    if more.len() == 0 {
        first
    } else {
        let before = merged(first, more.drop_last());
        if before.contains(more.last()) {
            before
        } else {
            before.push(more.last())
        }
    }
}

/// Whether a node is among others.
fn contains_node(nodes: &Vec<NodeId>, id: &NodeId) -> (r: bool)
    ensures
        r == ids(nodes@).contains(id@),
{
    let mut i: usize = 0;
    while i < nodes.len()
        invariant
            i <= nodes@.len(),
            forall|k: int| 0 <= k < i ==> ids(nodes@)[k] != id@,
        decreases nodes@.len() - i,
    {
        if nodes[i].same(id) {
            assert(ids(nodes@)[i as int] == id@);
            return true;
        }
        i += 1;
    }
    false
}

/// Adds the nodes that are not among the first ones yet.
pub fn merge_peers(first: Vec<NodeId>, more: &Vec<NodeId>) -> (r: Vec<NodeId>)
    ensures
        ids(r@) == merged(ids(first@), ids(more@)),
        r@.len() >= first@.len(),
        r@.take(first@.len() as int) == first@,
{
    let mut r = first;
    let mut i: usize = 0;
    assert(ids(more@).take(0) =~= Seq::<Seq<u8>>::empty());
    while i < more.len()
        invariant
            i <= more@.len(),
            ids(r@) == merged(ids(first@), ids(more@).take(i as int)),
            r@.len() >= first@.len(),
            r@.take(first@.len() as int) == first@,
        decreases more@.len() - i,
    {
        proof {
            assert(ids(more@).take(i + 1).drop_last() =~= ids(more@).take(i as int));
            assert(ids(more@).take(i + 1).last() == more@[i as int]@);
        }
        let id = more[i];
        if !contains_node(&r, &id) {
            let ghost before = ids(r@);
            let ghost start = r@;
            r.push(id);
            assert(ids(r@) =~= before.push(id@));
            assert(r@.take(first@.len() as int) =~= start.take(first@.len() as int));
        }
        i += 1;
    }
    assert(ids(more@).take(i as int) =~= ids(more@));
    r
}

/// Merging keeps the first ids in their places, holds an id if and only if one of the lists
/// does, and lists no id twice that the first list does not list twice.
pub proof fn law_merged_holds_both(first: Seq<Seq<u8>>, more: Seq<Seq<u8>>)
    ensures
        merged(first, more).len() >= first.len(),
        merged(first, more).take(first.len() as int) == first,
        forall|id: Seq<u8>| #[trigger]
            merged(first, more).contains(id) <==> first.contains(id) || more.contains(id),
        first.no_duplicates() ==> merged(first, more).no_duplicates(),
    decreases more.len(),
{
    if more.len() == 0 {
        assert(first.take(first.len() as int) =~= first);
    } else {
        let front = more.drop_last();
        let before = merged(first, front);
        let after = merged(first, more);
        law_merged_holds_both(first, front);
        assert(after.take(first.len() as int) =~= before.take(first.len() as int));
        assert forall|id: Seq<u8>| #[trigger] after.contains(id) <==> first.contains(id)
            || more.contains(id) by {
            assert(more.contains(id) <==> front.contains(id) || id == more.last()) by {
                if front.contains(id) {
                    let k = choose|k: int| 0 <= k < front.len() && front[k] == id;
                    assert(more[k] == id);
                }
                if more.contains(id) {
                    let k = choose|k: int| 0 <= k < more.len() && more[k] == id;
                    if k < front.len() {
                        assert(front[k] == id);
                    }
                }
                assert(more[more.len() - 1] == more.last());
            }
            if !before.contains(more.last()) {
                assert(after.contains(id) <==> before.contains(id) || id == more.last()) by {
                    if before.contains(id) {
                        let k = choose|k: int| 0 <= k < before.len() && before[k] == id;
                        assert(after[k] == id);
                    }
                    assert(after[before.len() as int] == more.last());
                }
            }
        }
    }
}

/// Whether a list names `x` before it names `y`.
pub open spec fn names_before(list: Seq<Seq<u8>>, x: Seq<u8>, y: Seq<u8>) -> bool {
    exists|a: int|
        {
            &&& 0 <= a < list.len()
            &&& #[trigger] list[a] == x
            &&& !list.take(a + 1).contains(y)
        }
}

/// What merging adds is new where it stands, and stands in the order in which the second list
/// first names it.
pub proof fn law_merged_adds_in_order(first: Seq<Seq<u8>>, more: Seq<Seq<u8>>)
    ensures
        forall|i: int, j: int|
            first.len() <= i < merged(first, more).len() && 0 <= j < i ==> merged(first, more)[i]
                != merged(first, more)[j],
        forall|i: int, j: int|
            first.len() <= i < j < merged(first, more).len() ==> #[trigger] names_before(
                more,
                merged(first, more)[i],
                merged(first, more)[j],
            ),
    decreases more.len(),
{
    if more.len() > 0 {
        let front = more.drop_last();
        let before = merged(first, front);
        let after = merged(first, more);
        law_merged_adds_in_order(first, front);
        law_merged_holds_both(first, front);
        assert forall|i: int, j: int| first.len() <= i < j < after.len() implies #[trigger]
            names_before(more, after[i], after[j]) by {
            if j < before.len() {
                assert(names_before(front, before[i], before[j]));
                let a = choose|a: int|
                    {
                        &&& 0 <= a < front.len()
                        &&& #[trigger] front[a] == before[i]
                        &&& !front.take(a + 1).contains(before[j])
                    };
                assert(more[a] == after[i]);
                assert(more.take(a + 1) =~= front.take(a + 1));
            } else {
                assert(before.contains(before[i]));
                assert(first.contains(before[i]) || front.contains(before[i]));
                if first.contains(before[i]) {
                    let k = choose|k: int| 0 <= k < first.len() && first[k] == before[i];
                    assert(before.take(first.len() as int)[k] == before[k]);
                }
                let a = choose|a: int| 0 <= a < front.len() && front[a] == before[i];
                assert(more[a] == after[i]);
                let named = more.take(a + 1);
                if named.contains(after[j]) {
                    let b = choose|b: int| 0 <= b < named.len() && named[b] == after[j];
                    assert(front[b] == after[j]);
                    assert(front.contains(after[j]));
                    assert(before.contains(after[j]));
                }
            }
        }
        assert forall|i: int, j: int|
            first.len() <= i < after.len() && 0 <= j < i implies after[i] != after[j] by {
            if i < before.len() {
                assert(before[i] != before[j]);
            } else {
                assert(before.contains(before[j]));
            }
        }
    }
}

/// The last ones of a list, as many as there may be.
pub open spec fn latest(peers: Seq<Seq<char>>, count: nat) -> Seq<Seq<char>> {
    if peers.len() <= count {
        peers
    } else {
        peers.skip(peers.len() - count)
    }
}

/// The peers that the file of known peers lists after one more was added.
pub open spec fn extended(known: Seq<Seq<char>>, peer: Seq<char>) -> Seq<Seq<char>> {
    latest(known.push(peer), MAX_KNOWN_PEERS as nat)
}

/// The new contents of the file of known peers, where a peer has to be added: it is another
/// node than this one, and the file does not list it yet.
pub open spec fn saved(contents: Seq<char>, peer: Seq<char>, own: Seq<char>) -> Option<Seq<char>> {
    let known = text::entries_of(contents, '\n');
    if peer == own || known.contains(peer) {
        None
    } else {
        Some(text::lines_text(extended(known, peer)))
    }
}

/// Whether a text is among others.
fn contains_text(texts: &Vec<String>, s: &str) -> (r: bool)
    ensures
        r == graph::texts(texts@).contains(s@),
{
    let mut i: usize = 0;
    while i < texts.len()
        invariant
            i <= texts@.len(),
            forall|k: int| 0 <= k < i ==> graph::texts(texts@)[k] != s@,
        decreases texts@.len() - i,
    {
        if str_eq(texts[i].as_str(), s) {
            assert(graph::texts(texts@)[i as int] == s@);
            return true;
        }
        i += 1;
    }
    false
}

/// The new contents of the file of known peers, where the peer is not this node and not listed
/// yet. The file lists at most `MAX_KNOWN_PEERS`; the oldest ones, which come first, are
/// dropped.
pub fn save_peer_if_new(contents: &str, node_id: &str, my_node_id: &str) -> (r: Option<String>)
    ensures
        text::option_text(r) == saved(contents@, node_id@, my_node_id@),
        r is None <==> node_id@ == my_node_id@ || text::entries_of(contents@, '\n').contains(
            node_id@,
        ),
        r matches Some(s) ==> {
            let known = text::entries_of(contents@, '\n');
            let kept = if known.len() <= 14 {
                known
            } else {
                known.skip(known.len() - 14)
            };
            s@ == text::lines_text(kept) + node_id@ + "\n"@
        },
{
    proof {
        law_saved_contents(contents@, node_id@, my_node_id@);
    }
    if str_eq(node_id, my_node_id) {
        return None;
    }
    let mut peers = entries(contents, '\n');
    if contains_text(&peers, node_id) {
        return None;
    }
    let ghost known = graph::texts(peers@);
    let ghost all = known.push(node_id@);
    peers.push(node_id.to_owned());
    assert(graph::texts(peers@) =~= all);
    while peers.len() > MAX_KNOWN_PEERS
        invariant
            latest(graph::texts(peers@), MAX_KNOWN_PEERS as nat) == latest(
                all,
                MAX_KNOWN_PEERS as nat,
            ),
        decreases peers@.len(),
    {
        let ghost before = graph::texts(peers@);
        peers.remove(0);
        proof {
            assert(graph::texts(peers@) =~= before.skip(1));
            assert(latest(graph::texts(peers@), MAX_KNOWN_PEERS as nat) =~= latest(
                before,
                MAX_KNOWN_PEERS as nat,
            ));
        }
    }
    Some(lines(&peers))
}

/// The new contents of the file of known peers, where the node is not this one and not listed
/// yet. The node is among the peers that are loaded from those contents.
pub fn save_node_if_new(contents: &str, node_id: &NodeId, my_node_id: &NodeId) -> (r: Option<
    String,
>)
    ensures
        text::option_text(r) == saved(
            contents@,
            hexadecimal::hex_text(node_id@),
            hexadecimal::hex_text(my_node_id@),
        ),
        r is None <==> node_id@ == my_node_id@ || text::entries_of(contents@, '\n').contains(
            hexadecimal::hex_text(node_id@),
        ),
        r matches Some(s) ==> parsed_ids(text::entries_of(s@, '\n')).contains(node_id@),
{
    if node_id.same(my_node_id) {
        return None;
    }
    let peer = node_id.to_text();
    let own = my_node_id.to_text();
    let r = save_peer_if_new(contents, peer.as_str(), own.as_str());
    proof {
        hexadecimal::law_hex_text_injective(node_id@, my_node_id@);
        identity::lemma_hex_text_is_entry(node_id@);
        if r is Some {
            law_saved_lists_peer(contents@, peer@, own@);
            let listed = text::entries_of(saved(contents@, peer@, own@)->0, '\n');
            lemma_parsed_last(listed, node_id@);
        }
    }
    r
}

/// The id that the last text gives is the last one.
proof fn lemma_parsed_last(texts: Seq<Seq<char>>, id: Seq<u8>)
    requires
        texts.len() > 0,
        identity::endpoint_id_parsed(texts.last()) == Some(id),
    ensures
        parsed_ids(texts).contains(id),
{
    let n = parsed_ids(texts).len();
    assert(parsed_ids(texts)[n - 1] == id);
}

/// What is written for a new peer lists the known peers in their order with the new one last,
/// without the oldest ones where there are more than `MAX_KNOWN_PEERS`.
pub proof fn law_saved_lists_peer(contents: Seq<char>, peer: Seq<char>, own: Seq<char>)
    requires
        saved(contents, peer, own) is Some,
        text::is_entry(peer, '\n'),
    ensures
        ({
            let known = text::entries_of(contents, '\n');
            let listed = text::entries_of(saved(contents, peer, own)->0, '\n');
            &&& listed == extended(known, peer)
            &&& 0 < listed.len() <= MAX_KNOWN_PEERS
            &&& listed.len() == if known.len() < 15 {
                known.len() + 1
            } else {
                15
            }
            &&& listed.last() == peer
            &&& forall|i: int| #![trigger listed[listed.len() - 1 - i]]
                0 < i < listed.len() ==> listed[listed.len() - 1 - i] == known[known.len() - i]
        }),
{
    let known = text::entries_of(contents, '\n');
    let listed = extended(known, peer);
    text::law_entries_are_entries(contents, '\n');
    assert forall|i: int| 0 <= i < listed.len() implies text::is_entry(
        #[trigger] listed[i],
        '\n',
    ) by {
        let k = i + (known.len() + 1 - listed.len());
        assert(listed[i] == known.push(peer)[k]);
        if k < known.len() {
            assert(text::is_entry(known[k], '\n'));
        }
    }
    text::law_lines_round_trip(listed);
}

/// A peer is saved unless it is this node or the file lists it, and what is written are the lines
/// of the latest known peers, as many as the limit leaves beside the new one, and then its line.
pub proof fn law_saved_contents(contents: Seq<char>, peer: Seq<char>, own: Seq<char>)
    ensures
        saved(contents, peer, own) is None <==> peer == own || text::entries_of(
            contents,
            '\n',
        ).contains(peer),
        saved(contents, peer, own) matches Some(written) ==> ({
            let known = text::entries_of(contents, '\n');
            let kept = if known.len() <= 14 {
                known
            } else {
                known.skip(known.len() - 14)
            };
            written == text::lines_text(kept) + peer + "\n"@
        }),
{
    let known = text::entries_of(contents, '\n');
    let listed = extended(known, peer);
    let kept = if known.len() <= 14 {
        known
    } else {
        known.skip(known.len() - 14)
    };
    assert(listed.drop_last() =~= kept);
    assert(listed.last() == peer);
}

/// A peer that was just saved is not saved again.
pub proof fn law_saving_is_idempotent(contents: Seq<char>, peer: Seq<char>, own: Seq<char>)
    requires
        saved(contents, peer, own) is Some,
        text::is_entry(peer, '\n'),
    ensures
        saved(saved(contents, peer, own)->0, peer, own) is None,
{
    law_saved_lists_peer(contents, peer, own);
    let listed = text::entries_of(saved(contents, peer, own)->0, '\n');
    assert(listed[listed.len() - 1] == peer);
}

/// A file that lists no peer twice does not do so after a peer was saved.
pub proof fn law_saving_keeps_peers_distinct(contents: Seq<char>, peer: Seq<char>, own: Seq<char>)
    requires
        saved(contents, peer, own) is Some,
        text::is_entry(peer, '\n'),
        text::entries_of(contents, '\n').no_duplicates(),
    ensures
        text::entries_of(saved(contents, peer, own)->0, '\n').no_duplicates(),
{
    law_saved_lists_peer(contents, peer, own);
    let known = text::entries_of(contents, '\n');
    let all = known.push(peer);
    let listed = extended(known, peer);
    assert(all.no_duplicates());
    let dropped = all.len() - listed.len();
    assert(forall|i: int| 0 <= i < listed.len() ==> #[trigger] listed[i] == all[i + dropped]);
}

} // verus!
