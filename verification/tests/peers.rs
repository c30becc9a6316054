use gossipping::announce::PeerAnnounce;
use gossipping::events::{
    goes_on, handle_event, monitor_event, notification_report, read_message, GossipEvent,
    Interruption, Message, MonitorAction, Report, Role,
};
use gossipping::identity::{
    load_or_create_node_key, load_or_create_text_key, node_key_of, KeyTextError, NodeId, NodeKey,
    NodeKeySource,
};
use gossipping::notification::{GossipNotification, MAX_MESSAGE_SIZE};
use gossipping::peers::{
    bootstrap_peers, load_known_peers, merge_peers, save_node_if_new, save_peer_if_new,
    MAX_KNOWN_PEERS,
};
use gossipping::sender::{first_peers, operation_result, peers_to_join, Ending, Operation};
use gossipping::signing::{pubkey_hex, SigningKey};

fn node(seed: u8) -> NodeId {
    NodeId::from_bytes(&SigningKey::from_bytes(&[seed; 32]).verifying_key()).unwrap()
}

fn id_bytes(nodes: &[NodeId]) -> Vec<[u8; 32]> {
    nodes.iter().map(|n| n.to_bytes()).collect()
}

fn base32(bytes: &[u8; 32]) -> String {
    let alphabet = b"abcdefghijklmnopqrstuvwxyz234567";
    let mut out = String::new();
    let mut buffer: u32 = 0;
    let mut bits = 0;
    for b in bytes {
        buffer = (buffer << 8) | u32::from(*b);
        bits += 8;
        while bits >= 5 {
            bits -= 5;
            out.push(alphabet[((buffer >> bits) & 31) as usize] as char);
        }
    }
    if bits > 0 {
        out.push(alphabet[((buffer << (5 - bits)) & 31) as usize] as char);
    }
    out
}

#[test]
fn a_node_id_is_parsed_from_its_text() {
    let id = node(1);
    let text = id.to_text();
    assert_eq!(text, hex::encode(id.to_bytes()));
    assert!(NodeId::parse(&text).unwrap().same(&id));
    assert!(NodeId::parse(&base32(&id.to_bytes())).unwrap().same(&id));
    assert!(!node(2).same(&id));
}

#[test]
fn other_texts_are_no_node_ids() {
    assert!(NodeId::parse("").is_none());
    assert!(NodeId::parse("node").is_none());
    assert!(NodeId::parse(&node(1).to_text().to_uppercase()).is_none());
    assert!(NodeId::parse(&format!(" {}", node(1).to_text())).is_none());
    assert!(NodeId::parse(&("02".to_string() + &"00".repeat(31))).is_none());
}

#[test]
fn bytes_off_the_curve_are_no_node_id() {
    let mut bytes = [0; 32];
    bytes[0] = 2;
    assert!(NodeId::from_bytes(&bytes).is_none());
}

fn loaded(r: Result<NodeKeySource, String>) -> [u8; 32] {
    match r {
        Ok(NodeKeySource::Loaded(k)) => k.to_bytes(),
        _ => panic!("not loaded"),
    }
}

#[test]
fn a_raw_node_key_is_loaded() {
    assert_eq!(loaded(load_or_create_node_key("p", Some(&vec![7; 32]))), [7; 32]);
    // all of it text
    assert_eq!(loaded(load_or_create_node_key("p", Some(&vec![b'a'; 32]))), [b'a'; 32]);
    assert_eq!(loaded(load_or_create_node_key("p", Some(&vec![0xff; 32]))), [0xff; 32]);
}

#[test]
fn a_node_key_is_loaded_from_text() {
    let key = NodeKey::from_bytes(&[9; 32]);
    let text = format!("  {}\n", key.to_text());
    assert_eq!(loaded(load_or_create_node_key("p", Some(&text.into_bytes()))), [9; 32]);
    let text = base32(&[9; 32]);
    assert_eq!(loaded(load_or_create_node_key("p", Some(&text.into_bytes()))), [9; 32]);
}

#[test]
fn a_file_without_node_key_is_refused() {
    for contents in [vec![], vec![1; 31], vec![1; 33], b"hello".to_vec(), vec![0xff; 64]] {
        match load_or_create_node_key("/k", Some(&contents)) {
            Err(message) => assert_eq!(message, "key file /k has invalid length"),
            Ok(_) => panic!("accepted"),
        }
    }
}

#[test]
fn a_missing_node_key_is_created() {
    let Ok(NodeKeySource::Generated(a)) = load_or_create_node_key("p", None) else {
        panic!("not generated");
    };
    let Ok(NodeKeySource::Generated(b)) = load_or_create_text_key(None) else {
        panic!("not generated");
    };
    assert_ne!(a.to_bytes(), b.to_bytes());
    assert_eq!(loaded(load_or_create_node_key("p", Some(&a.to_bytes().to_vec()))), a.to_bytes());
    match load_or_create_text_key(Some(&b.to_text())) {
        Ok(NodeKeySource::Loaded(k)) => assert_eq!(k.to_bytes(), b.to_bytes()),
        _ => panic!("not loaded"),
    }
}

#[test]
fn a_text_without_node_key_is_refused() {
    for (text, expected) in [
        ("g".repeat(64), KeyTextError::Hex),
        ("A".repeat(64), KeyTextError::Hex),
        ("1".repeat(52), KeyTextError::Base32),
        ("a".repeat(32), KeyTextError::Length),
        ("".to_string(), KeyTextError::Length),
    ] {
        match load_or_create_text_key(Some(&text)) {
            Err(e) => assert_eq!(e, expected, "{text}"),
            Ok(_) => panic!("accepted {text}"),
        }
    }
}

#[test]
fn the_parsed_key_goes_before_the_raw_bytes() {
    assert_eq!(node_key_of(Some([1; 32]), &vec![2; 32], "p").unwrap().to_bytes(), [1; 32]);
    assert_eq!(node_key_of(None, &vec![2; 32], "p").unwrap().to_bytes(), [2; 32]);
    assert!(node_key_of(None, &vec![2; 30], "p").is_err());
}

#[test]
fn known_peers_are_loaded_line_by_line() {
    let contents = format!("\n{}\r\nnobody\n  {}  \n", node(1).to_text(), node(2).to_text());
    let expected = vec![node(1).to_bytes(), node(2).to_bytes()];
    assert_eq!(id_bytes(&load_known_peers(&contents)), expected);
    assert!(load_known_peers("").is_empty());
}

#[test]
fn bootstrap_peers_are_separated_by_commas() {
    let setting = format!("{}, ,x,{}", node(3).to_text(), node(3).to_text());
    let expected = vec![node(3).to_bytes(), node(3).to_bytes()];
    assert_eq!(id_bytes(&bootstrap_peers(&setting)), expected);
}

#[test]
fn merging_adds_new_peers_only() {
    let merged = merge_peers(vec![node(1), node(2)], &vec![node(3), node(2), node(3)]);
    assert_eq!(
        id_bytes(&merged),
        vec![node(1).to_bytes(), node(2).to_bytes(), node(3).to_bytes()]
    );
}

#[test]
fn a_new_peer_is_saved_last() {
    assert_eq!(save_peer_if_new("a\n b \n\n", "c", "me"), Some("a\nb\nc\n".to_string()));
    assert_eq!(save_peer_if_new("", "c", "me"), Some("c\n".to_string()));
}

#[test]
fn own_and_known_peers_are_not_saved() {
    assert_eq!(save_peer_if_new("a\n", "me", "me"), None);
    assert_eq!(save_peer_if_new(" a ", "a", "me"), None);
    let once = save_peer_if_new("a\n", "b", "me").unwrap();
    assert_eq!(save_peer_if_new(&once, "b", "me"), None);
}

#[test]
fn the_oldest_peers_are_dropped() {
    assert_eq!(MAX_KNOWN_PEERS, 15);
    let mut contents = String::new();
    for i in 0..18 {
        contents = save_peer_if_new(&contents, &format!("p{i}"), "me").unwrap();
    }
    let expected: String = (3..18).map(|i| format!("p{i}\n")).collect();
    assert_eq!(contents, expected);
    let many: String = (0..20).map(|i| format!("q{i}\n")).collect();
    let cut = save_peer_if_new(&many, "new", "me").unwrap();
    let expected: String = (6..20).map(|i| format!("q{i}\n")).collect();
    assert_eq!(cut, expected + "new\n");
}

#[test]
fn a_saved_node_is_loaded_again() {
    let contents = save_node_if_new("junk\n", &node(4), &node(5)).unwrap();
    assert_eq!(contents, format!("junk\n{}\n", node(4).to_text()));
    assert_eq!(id_bytes(&load_known_peers(&contents)), vec![node(4).to_bytes()]);
    assert_eq!(save_node_if_new(&contents, &node(4), &node(5)), None);
    assert_eq!(save_node_if_new("", &node(5), &node(5)), None);
}

#[test]
fn without_limit_all_peers_are_joined_in_order() {
    let peers = vec![node(1), node(2), node(3)];
    assert_eq!(id_bytes(&peers_to_join(peers.clone(), None)), id_bytes(&peers));
}

#[test]
fn a_limit_takes_random_peers() {
    let peers: Vec<NodeId> = (1..=40).map(node).collect();
    let all = id_bytes(&peers);
    let some = id_bytes(&peers_to_join(peers.clone(), Some(5)));
    assert_eq!(some.len(), 5);
    assert!(some.iter().all(|p| all.contains(p)));
    let mut everyone = id_bytes(&peers_to_join(peers.clone(), Some(100)));
    assert_ne!(everyone, all);
    everyone.sort();
    let mut sorted = all.clone();
    sorted.sort();
    assert_eq!(everyone, sorted);
    assert!(peers_to_join(peers, Some(0)).is_empty());
}

#[test]
fn first_peers_are_the_front_of_the_list() {
    let peers = vec![node(1), node(2), node(3)];
    assert_eq!(id_bytes(&first_peers(peers.clone(), 2)), id_bytes(&peers[..2]));
    assert_eq!(id_bytes(&first_peers(peers.clone(), 7)), id_bytes(&peers));
}

#[test]
fn operations_end_with_their_messages() {
    assert_eq!(operation_result(Operation::Broadcast, Ending::Done), Ok(()));
    assert_eq!(
        operation_result(Operation::Broadcast, Ending::Failed("why".to_string())),
        Err("why".to_string())
    );
    for (operation, message) in [
        (Operation::Broadcast, "broadcast timed out"),
        (Operation::BroadcastNeighbors, "broadcast_neighbors timed out"),
        (Operation::JoinPeers, "join_peers timed out"),
    ] {
        assert_eq!(operation_result(operation, Ending::TimedOut), Err(message.to_string()));
    }
}

fn announce(kind: &str, node_id: &str) -> PeerAnnounce {
    PeerAnnounce { msg_type: kind.to_string(), ..PeerAnnounce::at(1, node_id, "v") }
}

fn notification() -> GossipNotification {
    GossipNotification::at(1, "s", "m", "r", vec![])
}

fn signed() -> GossipNotification {
    let key = SigningKey::from_bytes(&[3; 32]);
    let mut n = GossipNotification::at(1, &pubkey_hex(&key), "m", "r", vec![]);
    n.sign(&key);
    n
}

#[test]
fn announcements_are_read_first() {
    let both = read_message(10, Some(announce("x", "n")), Some(notification()));
    assert!(matches!(both, Message::Announce(_)));
    assert!(matches!(read_message(10, None, Some(notification())), Message::Notification(_)));
    assert!(matches!(read_message(0, None, None), Message::Unreadable));
}

#[test]
fn messages_above_the_limit_are_passed_over() {
    assert_eq!(MAX_MESSAGE_SIZE, 8192);
    let fits = read_message(8192, Some(announce("x", "n")), None);
    assert!(matches!(fits, Message::Announce(_)));
    for (a, n) in [
        (Some(announce("peer_announce", &node(6).to_text())), None),
        (None, Some(signed())),
        (None, None),
    ] {
        let large = read_message(8193, a, n);
        assert!(matches!(large, Message::Oversized));
        let r = handle_event(GossipEvent::Received(large));
        assert!(matches!(r.report, Report::Silent) && r.peer.is_none());
    }
    assert!(matches!(
        monitor_event(GossipEvent::Received(Message::Oversized)),
        MonitorAction::Nothing
    ));
}

#[test]
fn an_unsigned_notification_is_dropped() {
    let r = handle_event(GossipEvent::Received(Message::Notification(notification())));
    assert!(matches!(r.report, Report::Silent) && r.peer.is_none());
}

#[test]
fn a_notification_with_a_wrong_signature_is_dropped() {
    let mut n = signed();
    n.reason = "live".to_string();
    let r = handle_event(GossipEvent::Received(Message::Notification(n)));
    assert!(matches!(r.report, Report::Silent) && r.peer.is_none());
    let mut n = signed();
    n.signature = Some("no digits".to_string());
    let r = handle_event(GossipEvent::Received(Message::Notification(n)));
    assert!(matches!(r.report, Report::Silent) && r.peer.is_none());
}

#[test]
fn the_outcome_of_the_verification_decides_the_report() {
    assert!(matches!(notification_report(notification(), Ok(true)), Report::Notified(_)));
    assert!(matches!(notification_report(signed(), Ok(false)), Report::Silent));
    assert!(matches!(notification_report(signed(), Err("why".to_string())), Report::Silent));
}

#[test]
fn an_announced_node_is_saved() {
    let a = announce("peer_announce", &node(6).to_text());
    let r = handle_event(GossipEvent::Received(Message::Announce(a)));
    assert!(matches!(r.report, Report::Announced(_)));
    assert!(r.peer.unwrap().same(&node(6)));
}

#[test]
fn an_announcement_without_node_id_saves_nobody() {
    let a = announce("peer_announce", "nobody");
    let r = handle_event(GossipEvent::Received(Message::Announce(a)));
    assert!(matches!(r.report, Report::Announced(_)));
    assert!(r.peer.is_none());
}

#[test]
fn a_message_of_another_type_is_passed_over() {
    let a = announce("other", &node(6).to_text());
    let r = handle_event(GossipEvent::Received(Message::Announce(a)));
    assert!(matches!(r.report, Report::Silent));
    assert!(r.peer.is_none());
}

#[test]
fn other_events_are_reported() {
    let r = handle_event(GossipEvent::NeighborUp(node(7)));
    assert!(matches!(r.report, Report::NeighborUp(_)));
    assert!(r.peer.unwrap().same(&node(7)));
    let r = handle_event(GossipEvent::NeighborDown(node(7)));
    assert!(matches!(r.report, Report::NeighborDown(_)) && r.peer.is_none());
    let r = handle_event(GossipEvent::Received(Message::Notification(signed())));
    assert!(matches!(r.report, Report::Notified(_)) && r.peer.is_none());
    let r = handle_event(GossipEvent::Received(Message::Unreadable));
    assert!(matches!(r.report, Report::Unreadable) && r.peer.is_none());
    assert!(matches!(handle_event(GossipEvent::Joined(3)).report, Report::Joined(3)));
    assert!(matches!(handle_event(GossipEvent::Lagged).report, Report::Lagged));
}

#[test]
fn the_monitor_records_announcements_only() {
    let a = announce("peer_announce", "any text");
    assert!(matches!(
        monitor_event(GossipEvent::Received(Message::Announce(a))),
        MonitorAction::Record(_)
    ));
    let a = announce("other", "any text");
    assert!(matches!(
        monitor_event(GossipEvent::Received(Message::Announce(a))),
        MonitorAction::Nothing
    ));
    assert!(matches!(
        monitor_event(GossipEvent::Received(Message::Notification(notification()))),
        MonitorAction::Nothing
    ));
    assert!(matches!(
        monitor_event(GossipEvent::Received(Message::Unreadable)),
        MonitorAction::Nothing
    ));
    assert!(matches!(
        monitor_event(GossipEvent::NeighborUp(node(1))),
        MonitorAction::Show(Report::NeighborUp(_))
    ));
    assert!(matches!(
        monitor_event(GossipEvent::Lagged),
        MonitorAction::Show(Report::Lagged)
    ));
}

#[test]
fn an_error_stops_the_writer_alone() {
    assert!(!goes_on(Role::Writer, Interruption::Failed));
    assert!(goes_on(Role::Listener, Interruption::Failed));
    assert!(goes_on(Role::Monitor, Interruption::Failed));
    for role in [Role::Writer, Role::Listener, Role::Monitor] {
        assert!(!goes_on(role, Interruption::Ended));
        assert!(!goes_on(role, Interruption::Shutdown));
    }
}
