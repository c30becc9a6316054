//! What is sent to the gossip network: the choice of peers to join, and how sending ends.

use crate::identity::NodeId;
use rand::seq::SliceRandom;
use vstd::prelude::*;

verus! {

/// How many seconds sending may take.
pub const SEND_TIMEOUT_SECS: u64 = 10;

/// Calls `SliceRandom::shuffle` of `rand` with its random generator: the nodes come out in
/// another order. Which order is random, and nothing more is claimed of it.
#[verifier::external_body]
fn shuffle_nodes(nodes: &mut Vec<NodeId>)
    ensures
        final(nodes)@.to_multiset() == old(nodes)@.to_multiset(),
{
    nodes.shuffle(&mut rand::rng());
}

/// How many peers are left of `len` under a limit.
pub open spec fn limited(len: nat, max: usize) -> nat {
    if len <= max {
        len
    } else {
        max as nat
    }
}

/// The first peers of a list, as many as the limit lets through.
pub fn first_peers(peers: Vec<NodeId>, max_peers: usize) -> (r: Vec<NodeId>)
    ensures
        r@ == peers@.take(limited(peers@.len(), max_peers) as int),
        peers@.len() <= max_peers ==> r@ == peers@,
        peers@.len() > max_peers ==> r@ == peers@.take(max_peers as int),
{
    let mut r = peers;
    if r.len() > max_peers {
        r.truncate(max_peers);
    }
    assert(r@ =~= peers@.take(limited(peers@.len(), max_peers) as int));
    r
}

/// The peers to join: all of them where there is no limit, and else the first ones of a random
/// order of them.
pub fn peers_to_join(peers: Vec<NodeId>, max_peers: Option<usize>) -> (r: Vec<NodeId>)
    ensures
        match max_peers {
            None => r@ == peers@,
            Some(max) => exists|order: Seq<NodeId>|
                order.to_multiset() == peers@.to_multiset() && r@ == #[trigger] order.take(
                    limited(peers@.len(), max) as int,
                ),
        },
{
    match max_peers {
        None => peers,
        Some(max) => {
            let mut shuffled = peers;
            shuffle_nodes(&mut shuffled);
            proof {
                peers@.to_multiset_ensures();
                shuffled@.to_multiset_ensures();
                assert(shuffled@.len() == peers@.len());
            }
            first_peers(shuffled, max)
        },
    }
}

/// The peers to join are among the given ones, no one of them more often than it was given,
/// and as many as the limit lets through.
pub proof fn law_joined_peers_were_given(
    peers: Seq<NodeId>,
    order: Seq<NodeId>,
    max: usize,
    joined: Seq<NodeId>,
)
    requires
        order.to_multiset() == peers.to_multiset(),
        joined == order.take(limited(peers.len(), max) as int),
    ensures
        joined.len() == limited(peers.len(), max),
        joined.len() == if peers.len() <= max {
            peers.len()
        } else {
            max as nat
        },
        joined.to_multiset().subset_of(peers.to_multiset()),
{
    let n = limited(peers.len(), max) as int;
    peers.to_multiset_ensures();
    order.to_multiset_ensures();
    assert(order =~= order.take(n) + order.skip(n));
    vstd::seq_lib::lemma_multiset_commutative(order.take(n), order.skip(n));
}

/// What is done with the gossip network.
#[derive(Debug, Clone, Copy, PartialEq, Eq)]
pub enum Operation {
    /// A message goes to all peers.
    Broadcast,
    /// A message goes to the direct neighbors.
    BroadcastNeighbors,
    /// Peers are joined.
    JoinPeers,
}

/// How an operation ended.
#[derive(Debug)]
pub enum Ending {
    /// It was done.
    Done,
    /// It failed, with this message.
    Failed(String),
    /// It took longer than it may take.
    TimedOut,
}

/// The message for an operation that took too long.
pub open spec fn timeout_message(operation: Operation) -> Seq<char> {
    match operation {
        Operation::Broadcast => "broadcast timed out"@,
        Operation::BroadcastNeighbors => "broadcast_neighbors timed out"@,
        Operation::JoinPeers => "join_peers timed out"@,
    }
}

/// The result of an operation that ended.
pub fn operation_result(operation: Operation, ending: Ending) -> (r: Result<(), String>)
    ensures
        match ending {
            Ending::Done => r is Ok,
            Ending::Failed(message) => r == Err::<(), String>(message),
            Ending::TimedOut => r is Err && r->Err_0@ == timeout_message(operation),
        },
        ending is TimedOut ==> match operation {
            Operation::Broadcast => r->Err_0@ == "broadcast timed out"@,
            Operation::BroadcastNeighbors => r->Err_0@ == "broadcast_neighbors timed out"@,
            Operation::JoinPeers => r->Err_0@ == "join_peers timed out"@,
        },
{
    match ending {
        Ending::Done => Ok(()),
        Ending::Failed(message) => Err(message),
        Ending::TimedOut => Err(
            match operation {
                Operation::Broadcast => "broadcast timed out",
                Operation::BroadcastNeighbors => "broadcast_neighbors timed out",
                Operation::JoinPeers => "join_peers timed out",
            }.to_owned(),
        ),
    }
}

} // verus!
