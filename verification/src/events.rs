//! What a node does with the events of the gossip network.

use crate::announce;
use crate::announce::PeerAnnounce;
use crate::identity;
use crate::identity::NodeId;
use crate::notification;
use crate::notification::{GossipNotification, MAX_MESSAGE_SIZE};
use vstd::prelude::*;

verus! {

/// What a received message is.
#[derive(Debug)]
pub enum Message {
    /// It has the fields of an announcement.
    Announce(PeerAnnounce),
    /// It is a notification.
    Notification(GossipNotification),
    /// It is neither.
    Unreadable,
    /// It is larger than a message may be.
    Oversized,
}

/// What a received message is, given its size in bytes and what it reads as. One that is larger
/// than a message may be is that, whatever it reads as. One that reads as both is an
/// announcement.
pub fn read_message(
    size: usize,
    announce: Option<PeerAnnounce>,
    notification: Option<GossipNotification>,
) -> (r: Message)
    ensures
        size > MAX_MESSAGE_SIZE ==> r == Message::Oversized,
        size <= MAX_MESSAGE_SIZE ==> match (announce, notification) {
            (Some(a), _) => r == Message::Announce(a),
            (None, Some(n)) => r == Message::Notification(n),
            (None, None) => r == Message::Unreadable,
        },
        r is Oversized <==> size > 8192,
{
    if size > MAX_MESSAGE_SIZE {
        return Message::Oversized;
    }
    match announce {
        Some(a) => Message::Announce(a),
        None => match notification {
            Some(n) => Message::Notification(n),
            None => Message::Unreadable,
        },
    }
}

/// An event of the gossip network.
#[derive(Debug)]
pub enum GossipEvent {
    /// A message was received.
    Received(Message),
    /// The topic was joined, with this number of peers.
    Joined(usize),
    /// A node became a neighbor.
    NeighborUp(NodeId),
    /// A node is a neighbor no longer.
    NeighborDown(NodeId),
    /// Messages were missed.
    Lagged,
}

/// What is reported of an event.
#[derive(Debug)]
pub enum Report {
    /// Nothing.
    Silent,
    /// A peer announced itself.
    Announced(PeerAnnounce),
    /// A notification came in whose signature the sender's key accepts.
    Notified(GossipNotification),
    /// A message could not be read.
    Unreadable,
    /// The topic was joined, with this number of peers.
    Joined(usize),
    /// A node became a neighbor.
    NeighborUp(NodeId),
    /// A node is a neighbor no longer.
    NeighborDown(NodeId),
    /// Messages were missed.
    Lagged,
}

/// What a listening node does on an event: what it reports, and the peer that it saves to the
/// file of known peers unless the file lists it.
#[derive(Debug)]
pub struct Reaction {
    pub report: Report,
    pub peer: Option<NodeId>,
}

/// Whether an announcement is one by its type.
pub open spec fn is_announcement(a: PeerAnnounce) -> bool {
    a@.msg_type == announce::PEER_ANNOUNCE@
}

/// What is reported of an event. A notification is dropped unless it is signed and its signature
/// passes the verification. A message with the fields of an announcement and another type is
/// passed over, even where it could be read as a notification, and so is one that is too large.
pub open spec fn report_of(event: GossipEvent) -> Report {
    match event {
        GossipEvent::Received(Message::Announce(a)) => if is_announcement(a) {
            Report::Announced(a)
        } else {
            Report::Silent
        },
        GossipEvent::Received(Message::Notification(n)) => if n@.signature is Some
            && notification::verification(n@, Ok(true)) {
            Report::Notified(n)
        } else {
            Report::Silent
        },
        GossipEvent::Received(Message::Unreadable) => Report::Unreadable,
        GossipEvent::Received(Message::Oversized) => Report::Silent,
        GossipEvent::Joined(count) => Report::Joined(count),
        GossipEvent::NeighborUp(id) => Report::NeighborUp(id),
        GossipEvent::NeighborDown(id) => Report::NeighborDown(id),
        GossipEvent::Lagged => Report::Lagged,
    }
}

/// The id of the peer that an event lets a listening node know of: a new neighbor, or a peer
/// that announced itself under a node id.
pub open spec fn peer_of(event: GossipEvent) -> Option<Seq<u8>> {
    match event {
        GossipEvent::Received(Message::Announce(a)) => if is_announcement(a) {
            identity::endpoint_id_parsed(a@.node_id)
        } else {
            None
        },
        GossipEvent::NeighborUp(id) => Some(id@),
        _ => None,
    }
}

/// What is reported of a notification, given the outcome of its verification: nothing, unless
/// the sender's key accepts its signature.
pub fn notification_report(n: GossipNotification, outcome: Result<bool, String>) -> (r: Report)
    ensures
        r == match outcome {
            Ok(true) => Report::Notified(n),
            _ => Report::Silent,
        },
{
    match outcome {
        Ok(true) => Report::Notified(n),
        _ => Report::Silent,
    }
}

/// What a listening node does on an event.
pub fn handle_event(event: GossipEvent) -> (r: Reaction)
    ensures
        r.report == report_of(event),
        identity::option_id(r.peer) == peer_of(event),
        match event {
            GossipEvent::Received(Message::Announce(a)) => if a.msg_type@ == "peer_announce"@ {
                &&& r.report == Report::Announced(a)
                &&& match r.peer {
                    Some(id) => identity::endpoint_id_parsed(a.node_id@) == Some(id@),
                    None => identity::endpoint_id_parsed(a.node_id@) is None,
                }
            } else {
                r.report is Silent && r.peer is None
            },
            GossipEvent::Received(Message::Notification(n)) => {
                &&& notification::verification(n@, Ok(true)) ==> r.report == Report::Notified(n)
                &&& !notification::verification(n@, Ok(true)) ==> r.report is Silent
                &&& r.report matches Report::Notified(m) ==> m@ == n@
                    && notification::verification(m@, Ok(true))
                &&& r.peer is None
            },
            GossipEvent::Received(Message::Unreadable) => r.report is Unreadable && r.peer is None,
            GossipEvent::Received(Message::Oversized) => r.report is Silent && r.peer is None,
            GossipEvent::Joined(count) => r.report == Report::Joined(count) && r.peer is None,
            GossipEvent::NeighborUp(id) => r.report == Report::NeighborUp(id) && r.peer == Some(id),
            GossipEvent::NeighborDown(id) => r.report == Report::NeighborDown(id) && r.peer is None,
            GossipEvent::Lagged => r.report is Lagged && r.peer is None,
        },
{
    match event {
        GossipEvent::Received(Message::Announce(a)) => {
            if a.is_peer_announce() {
                let peer = NodeId::parse(a.node_id.as_str());
                Reaction { report: Report::Announced(a), peer }
            } else {
                Reaction { report: Report::Silent, peer: None }
            }
        },
        GossipEvent::Received(Message::Notification(n)) => {
            let outcome = n.verify_signature();
            proof {
                if notification::verification(n@, Ok(true)) {
                    notification::law_verification_unique(
                        n@,
                        notification::outcome(outcome),
                        Ok(true),
                    );
                }
            }
            Reaction { report: notification_report(n, outcome), peer: None }
        },
        GossipEvent::Received(Message::Oversized) => Reaction {
            report: Report::Silent,
            peer: None,
        },
        GossipEvent::Received(Message::Unreadable) => Reaction {
            report: Report::Unreadable,
            peer: None,
        },
        GossipEvent::Joined(count) => Reaction { report: Report::Joined(count), peer: None },
        GossipEvent::NeighborUp(id) => Reaction { report: Report::NeighborUp(id), peer: Some(id) },
        GossipEvent::NeighborDown(id) => Reaction {
            report: Report::NeighborDown(id),
            peer: None,
        },
        GossipEvent::Lagged => Reaction { report: Report::Lagged, peer: None },
    }
}

/// What the monitoring node does on an event.
#[derive(Debug)]
pub enum MonitorAction {
    /// It records the announcement and saves the announced node id to the file of known peers,
    /// unless the file lists it.
    Record(PeerAnnounce),
    /// It reports the event.
    Show(Report),
    /// It does nothing.
    Nothing,
}

/// What the monitoring node does on an event. Of the messages it heeds announcements only.
pub open spec fn monitor_action_of(event: GossipEvent) -> MonitorAction {
    match event {
        GossipEvent::Received(Message::Announce(a)) => if is_announcement(a) {
            MonitorAction::Record(a)
        } else {
            MonitorAction::Nothing
        },
        GossipEvent::Received(_) => MonitorAction::Nothing,
        _ => MonitorAction::Show(report_of(event)),
    }
}

/// What the monitoring node does on an event.
pub fn monitor_event(event: GossipEvent) -> (r: MonitorAction)
    ensures
        r == monitor_action_of(event),
        match event {
            GossipEvent::Received(Message::Announce(a)) => {
                &&& a.msg_type@ == "peer_announce"@ ==> r == MonitorAction::Record(a)
                &&& a.msg_type@ != "peer_announce"@ ==> r is Nothing
                &&& r matches MonitorAction::Record(b) ==> b@ == a@
            },
            GossipEvent::Received(_) => r is Nothing,
            GossipEvent::Joined(count) => r == MonitorAction::Show(Report::Joined(count)),
            GossipEvent::NeighborUp(id) => r == MonitorAction::Show(Report::NeighborUp(id)),
            GossipEvent::NeighborDown(id) => r == MonitorAction::Show(Report::NeighborDown(id)),
            GossipEvent::Lagged => r == MonitorAction::Show(Report::Lagged),
        },
{
    match event {
        GossipEvent::Received(Message::Announce(a)) => {
            if a.is_peer_announce() {
                MonitorAction::Record(a)
            } else {
                MonitorAction::Nothing
            }
        },
        GossipEvent::Received(_) => MonitorAction::Nothing,
        GossipEvent::Joined(count) => MonitorAction::Show(Report::Joined(count)),
        GossipEvent::NeighborUp(id) => MonitorAction::Show(Report::NeighborUp(id)),
        GossipEvent::NeighborDown(id) => MonitorAction::Show(Report::NeighborDown(id)),
        GossipEvent::Lagged => MonitorAction::Show(Report::Lagged),
    }
}

/// What a node is there for.
#[derive(Debug, Clone, Copy, PartialEq, Eq)]
pub enum Role {
    /// It turns podpings into notifications.
    Writer,
    /// It shows notifications.
    Listener,
    /// It watches the peers.
    Monitor,
}

/// What comes next out of the stream of events, where it is no event.
#[derive(Debug, Clone, Copy, PartialEq, Eq)]
pub enum Interruption {
    /// An error.
    Failed,
    /// The end of the stream.
    Ended,
    /// A request to shut down.
    Shutdown,
}

/// Whether a node goes on receiving after an interruption. An error stops the writer alone; it
/// is reported by the others, which go on.
pub fn goes_on(role: Role, interruption: Interruption) -> (r: bool)
    ensures
        r == (interruption is Failed && !(role is Writer)),
{
    match interruption {
        Interruption::Failed => match role {
            Role::Writer => false,
            Role::Listener => true,
            Role::Monitor => true,
        },
        Interruption::Ended => false,
        Interruption::Shutdown => false,
    }
}

/// What is reported of a notification is that notification, and it is reported if and only if its
/// signature passes the verification.
pub proof fn law_a_notification_is_reported_as_received(n: GossipNotification)
    ensures
        ({
            let report = report_of(GossipEvent::Received(Message::Notification(n)));
            &&& report is Notified <==> notification::verification(n@, Ok(true))
            &&& report matches Report::Notified(m) ==> m == n
            &&& !(report is Notified) ==> report is Silent
        }),
{
}

/// The announcement that is reported, or recorded by the monitoring node, is the one received, and
/// that is so if and only if its type is that of an announcement. The peer that is saved on its
/// account is the one whose node id it gives.
pub proof fn law_an_announcement_is_taken_as_received(a: PeerAnnounce)
    ensures
        ({
            let event = GossipEvent::Received(Message::Announce(a));
            let announced = a.msg_type@ == "peer_announce"@;
            &&& report_of(event) is Announced <==> announced
            &&& report_of(event) matches Report::Announced(b) ==> b == a
            &&& !announced ==> report_of(event) is Silent && peer_of(event) is None
            &&& announced ==> peer_of(event) == identity::endpoint_id_parsed(a.node_id@)
            &&& monitor_action_of(event) is Record <==> announced
            &&& monitor_action_of(event) matches MonitorAction::Record(b) ==> b == a
            &&& !announced ==> monitor_action_of(event) is Nothing
        }),
{
}

/// A notification that is not signed, or whose signature does not pass the verification, is
/// dropped: nothing is reported of it, and no peer is saved on its account.
pub proof fn law_unverified_notifications_are_dropped(
    n: GossipNotification,
    outcome: Result<bool, Seq<char>>,
)
    requires
        notification::verification(n@, outcome),
        outcome != Ok::<bool, Seq<char>>(true),
    ensures
        report_of(GossipEvent::Received(Message::Notification(n))) == Report::Silent,
        peer_of(GossipEvent::Received(Message::Notification(n))) is None,
{
    if notification::verification(n@, Ok(true)) {
        notification::law_verification_unique(n@, outcome, Ok(true));
    }
}

} // verus!
