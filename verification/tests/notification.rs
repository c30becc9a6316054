use gossipping::clock::{seconds_of, ClockError, MAX_NANOSECONDS};
use gossipping::announce::{topic_id, PeerAnnounce, TOPIC_STRING};
use gossipping::hexadecimal::HexError;
use gossipping::notification::{
    medium_to_string, reason_to_string, signature_status, signature_verdict, GossipNotification,
};
use gossipping::podping::{
    is_podping_write, outgoing, outgoing_at, outgoing_stamped, reply_at, reply_if_queued,
    reply_stamped, PodpingWrite, HIVE_TRANSACTION_TYPE, PODPING_WRITE_TYPE,
};
use gossipping::signing::{load_or_generate_key, pubkey_hex, KeySource, SigningKey};

const SECRET: [u8; 32] = [
    0x9d, 0x61, 0xb1, 0x9d, 0xef, 0xfd, 0x5a, 0x60, 0xba, 0x84, 0x4a, 0xf4, 0x92, 0xec, 0x2c, 0xc4,
    0x44, 0x49, 0xc5, 0x69, 0x7b, 0x32, 0x69, 0x19, 0x70, 0x3b, 0xac, 0x03, 0x1c, 0xae, 0x7f, 0x60,
];
const PUBLIC: &str = "d75a980182b10ab7d54bfed3c964073a0ee172f3daa62325af021a68f707511a";

fn key() -> SigningKey {
    SigningKey::from_bytes(&SECRET)
}

fn sample() -> GossipNotification {
    GossipNotification::at(
        1700000000,
        PUBLIC,
        "podcast",
        "update",
        vec!["https://example.com/feed.xml".to_string(), "a\"b\\\n\u{1}é".to_string()],
    )
}

fn text(bytes: Vec<u8>) -> String {
    String::from_utf8(bytes).unwrap()
}

#[test]
fn the_public_key_is_that_of_the_secret() {
    assert_eq!(pubkey_hex(&key()), PUBLIC);
    assert_eq!(hex::encode(key().verifying_key()), PUBLIC);
    assert_eq!(key().to_bytes(), SECRET);
}

#[test]
fn a_signature_is_that_of_ed25519() {
    assert_eq!(
        hex::encode(key().sign(b"")),
        "e5564300c360ac729086e2cc806e828a84877f1eb8e5d974d873e065224901555fb8821590a33bacc61e39701cf9b46bd25bf5f0595bbe24655141438e7a100b"
    );
}

#[test]
fn the_topic_id_is_the_digest_of_the_topic() {
    assert_eq!(TOPIC_STRING, "gossipping/v1/all");
    assert_eq!(
        hex::encode(topic_id()),
        "6c07b373c09f982984c9075a38af084863f8bb37faba9f29f5c092a98ae4a2cb"
    );
}

#[test]
fn a_new_notification_is_unsigned() {
    let n = GossipNotification::new(PUBLIC, "music", "live", vec!["x".to_string()]).unwrap();
    assert_eq!(n.version, "1.0");
    assert_eq!(n.sender, PUBLIC);
    assert_eq!(n.medium, "music");
    assert_eq!(n.reason, "live");
    assert_eq!(n.iris, vec!["x".to_string()]);
    assert_eq!(n.signature, None);
    assert!(n.timestamp > 1_600_000_000);
    assert_eq!(n.verify_signature(), Ok(false));
}

#[test]
fn the_canonical_form_has_sorted_keys() {
    assert_eq!(
        text(sample().canonical_bytes()),
        format!(
            "{{\"iris\":[\"https://example.com/feed.xml\",\"a\\\"b\\\\\\n\\u0001é\"],\"medium\":\"podcast\",\"reason\":\"update\",\"sender\":\"{PUBLIC}\",\"timestamp\":1700000000,\"version\":\"1.0\"}}"
        )
    );
}

#[test]
fn the_canonical_form_agrees_with_serde_json() {
    let mut n = sample();
    n.iris.push((0..0x100_u32).filter_map(char::from_u32).collect());
    n.medium = "\u{7f}\u{2028}\u{10ffff}".to_string();
    n.timestamp = u64::MAX;
    let mut map = std::collections::BTreeMap::new();
    map.insert("iris", serde_json::to_value(&n.iris).unwrap());
    map.insert("medium", serde_json::to_value(&n.medium).unwrap());
    map.insert("reason", serde_json::to_value(&n.reason).unwrap());
    map.insert("sender", serde_json::to_value(&n.sender).unwrap());
    map.insert("timestamp", serde_json::to_value(n.timestamp).unwrap());
    map.insert("version", serde_json::to_value(&n.version).unwrap());
    assert_eq!(n.canonical_bytes(), serde_json::to_vec(&map).unwrap());
}

#[test]
fn the_payload_has_the_signature_last() {
    let mut n = GossipNotification::at(5, "ab", "m", "r", vec![]);
    assert_eq!(
        text(n.to_json()),
        "{\"version\":\"1.0\",\"sender\":\"ab\",\"timestamp\":5,\"medium\":\"m\",\"reason\":\"r\",\"iris\":[]}"
    );
    n.signature = Some("cd".to_string());
    assert_eq!(
        text(n.to_json()),
        "{\"version\":\"1.0\",\"sender\":\"ab\",\"timestamp\":5,\"medium\":\"m\",\"reason\":\"r\",\"iris\":[],\"signature\":\"cd\"}"
    );
}

#[test]
fn a_signed_notification_verifies() {
    let mut n = sample();
    let payload = n.sign(&key());
    assert_eq!(payload, n.to_json());
    assert_eq!(n.signature.as_ref().unwrap(), &hex::encode(key().sign(&n.canonical_bytes())));
    assert_eq!(n.verify_signature(), Ok(true));
    let read: serde_json::Value = serde_json::from_slice(&payload).unwrap();
    assert_eq!(read["sender"], PUBLIC);
    assert_eq!(read["iris"][1], "a\"b\\\n\u{1}é");
}

#[test]
fn signing_twice_changes_nothing() {
    let mut n = sample();
    let first = n.sign(&key());
    assert_eq!(n.sign(&key()), first);
}

#[test]
fn a_changed_notification_does_not_verify() {
    let mut n = sample();
    n.sign(&key());
    n.reason = "live".to_string();
    assert_eq!(
        n.verify_signature(),
        Err("signature verification failed: signature error".to_string())
    );
}

#[test]
fn a_wrong_sender_is_told() {
    let mut n = sample();
    n.sign(&key());
    n.sender = "xyz".to_string();
    assert_eq!(n.verify_signature(), Err("bad sender hex: Odd number of digits".to_string()));
    n.sender = "0g".to_string();
    assert_eq!(
        n.verify_signature(),
        Err("bad sender hex: Invalid character 'g' at position 1".to_string())
    );
    n.sender = "00".to_string();
    assert_eq!(n.verify_signature(), Err("sender is not 32 bytes".to_string()));
    n.sender = "02".to_string() + &"00".repeat(31);
    assert_eq!(n.verify_signature(), Err("bad pubkey: signature error".to_string()));
}

#[test]
fn a_wrong_signature_is_told() {
    let mut n = sample();
    n.signature = Some("a".to_string());
    assert_eq!(n.verify_signature(), Err("bad signature hex: Odd number of digits".to_string()));
    n.signature = Some("é".to_string());
    assert_eq!(
        n.verify_signature(),
        Err("bad signature hex: Invalid character 'Ã' at position 0".to_string())
    );
    n.signature = Some("00\n0".to_string());
    assert_eq!(
        n.verify_signature(),
        Err("bad signature hex: Invalid character '\\n' at position 2".to_string())
    );
    n.signature = Some("00".repeat(63));
    assert_eq!(n.verify_signature(), Err("signature is not 64 bytes".to_string()));
    n.signature = Some("00".repeat(64));
    assert_eq!(
        n.verify_signature(),
        Err("signature verification failed: signature error".to_string())
    );
}

#[test]
fn uppercase_digits_are_read() {
    let mut n = GossipNotification::at(1, &PUBLIC.to_uppercase(), "m", "r", vec![]);
    n.sign(&key());
    n.signature = n.signature.map(|s| s.to_uppercase());
    assert_eq!(n.verify_signature(), Ok(true));
}

#[test]
fn hex_errors_have_messages() {
    assert_eq!(HexError::OddLength.message(), "Odd number of digits");
    assert_eq!(HexError::InvalidStringLength.message(), "Invalid string length");
    assert_eq!(
        HexError::InvalidHexCharacter { c: '\'', index: 12 }.message(),
        "Invalid character '\\'' at position 12"
    );
}

#[test]
fn verdicts_follow_the_key_and_the_signature() {
    assert_eq!(signature_verdict(true, true), Ok(true));
    assert_eq!(signature_verdict(false, true), Err("bad pubkey: signature error".to_string()));
    assert_eq!(
        signature_verdict(true, false),
        Err("signature verification failed: signature error".to_string())
    );
}

#[test]
fn the_status_of_a_signature() {
    assert_eq!(signature_status(Ok(true)), "VALID");
    assert_eq!(signature_status(Ok(false)), "UNSIGNED");
    assert_eq!(signature_status(Err("why".to_string())), "INVALID (why)");
}

#[test]
fn reasons_have_names() {
    assert_eq!(reason_to_string(0), "update");
    assert_eq!(reason_to_string(1), "live");
    assert_eq!(reason_to_string(2), "liveEnd");
    assert_eq!(reason_to_string(3), "update");
    assert_eq!(reason_to_string(u16::MAX), "update");
}

#[test]
fn media_have_names() {
    let expected = [
        "podcast", "podcastL", "music", "musicL", "video", "videoL", "film", "filmL", "audiobook",
        "audiobookL", "newsletter", "newsletterL", "blog", "blogL", "publisher", "publisherL",
        "course", "courseL", "podcast",
    ];
    for (i, name) in expected.iter().enumerate() {
        assert_eq!(medium_to_string(i as u16), *name);
    }
    for i in 0..9 {
        let list_form = medium_to_string(2 * i).to_string() + "L";
        assert_eq!(medium_to_string(2 * i + 1), list_form);
    }
}

#[test]
fn a_key_file_is_loaded() {
    match load_or_generate_key("k", Some(&SECRET.to_vec())) {
        Ok(KeySource::Loaded(k)) => assert_eq!(k.to_bytes(), SECRET),
        _ => panic!("not loaded"),
    }
}

#[test]
fn a_key_file_of_another_length_is_refused() {
    match load_or_generate_key("/data/k", Some(&vec![1; 31])) {
        Err(message) => assert_eq!(message, "Key file /data/k has 31 bytes, expected 32"),
        Ok(_) => panic!("accepted"),
    }
}

#[test]
fn a_missing_key_file_gives_a_new_key() {
    let mut keys = Vec::new();
    for _ in 0..2 {
        match load_or_generate_key("k", None) {
            Ok(KeySource::Generated(k)) => keys.push(k.to_bytes()),
            _ => panic!("not generated"),
        }
    }
    assert_ne!(keys[0], keys[1]);
    match load_or_generate_key("k", Some(&keys[0].to_vec())) {
        Ok(KeySource::Loaded(k)) => assert_eq!(k.to_bytes(), keys[0]),
        _ => panic!("not loaded"),
    }
}

#[test]
fn an_announcement_on_the_wire() {
    let a = PeerAnnounce::at(9, "node\"1", "0.1.0");
    assert!(a.is_peer_announce());
    assert_eq!(
        text(a.to_json()),
        "{\"type\":\"peer_announce\",\"node_id\":\"node\\\"1\",\"version\":\"0.1.0\",\"timestamp\":9}"
    );
    let now = PeerAnnounce::new("n", "v").unwrap();
    assert!(now.timestamp > 1_600_000_000);
    assert_eq!(now.msg_type, "peer_announce");
    let other = PeerAnnounce { msg_type: "peer".to_string(), ..now };
    assert!(!other.is_peer_announce());
}

fn podping() -> PodpingWrite {
    PodpingWrite { iri: "https://example.com/".to_string(), reason: 1, medium: 2 }
}

#[test]
fn only_podpings_are_taken() {
    assert!(is_podping_write(PODPING_WRITE_TYPE));
    assert!(is_podping_write("org.podcastindex.podping.hivewriter.PodpingWrite.capnp"));
    assert!(!is_podping_write(HIVE_TRANSACTION_TYPE));
    assert!(!is_podping_write(""));
}

#[test]
fn a_podping_becomes_a_signed_notification() {
    let o = outgoing_at(77, &podping(), &key(), PUBLIC).unwrap();
    let mut n = GossipNotification::at(
        77,
        PUBLIC,
        "music",
        "live",
        vec!["https://example.com/".to_string()],
    );
    assert_eq!(o.payload, n.sign(&key()));
    assert_eq!(o.sender, PUBLIC);
    assert_eq!(o.medium, "music");
    assert_eq!(o.reason, "live");
    assert_eq!(o.timestamp, 77);
    assert_eq!(o.iri_count, 1);
    let now = outgoing(&podping(), &key(), PUBLIC).unwrap().unwrap();
    let then = outgoing_at(now.timestamp, &podping(), &key(), PUBLIC).unwrap();
    assert_eq!(now.payload, then.payload);
}

#[test]
fn a_queued_podping_is_confirmed() {
    let h = reply_at(5, u128::from(u64::MAX) + 4, &podping());
    assert_eq!(h.hive_tx_id, "gossip");
    assert_eq!(h.hive_block_num, 5);
    assert_eq!(h.medium, 2);
    assert_eq!(h.reason, 1);
    assert_eq!(h.timestamp_ns, 3);
    assert_eq!(h.session_id, 0);
    assert_eq!(h.iri, "https://example.com/");
    assert!(reply_if_queued(false, &podping()).unwrap().is_none());
    let now = reply_if_queued(true, &podping()).unwrap().unwrap();
    assert!(now.hive_block_num > 1_600_000_000);
    assert!(now.timestamp_ns / 1_000_000_000 >= now.hive_block_num);
}

#[test]
fn seconds_are_whole() {
    assert_eq!(seconds_of(Ok(0)), Ok(0));
    assert_eq!(seconds_of(Ok(999_999_999)), Ok(0));
    assert_eq!(seconds_of(Ok(1_700_000_000_123_456_789)), Ok(1_700_000_000));
    assert_eq!(seconds_of(Ok(MAX_NANOSECONDS)), Ok(u64::MAX));
    assert_eq!(std::time::Duration::MAX.as_nanos(), MAX_NANOSECONDS);
    assert_eq!(seconds_of(Err(ClockError::BeforeEpoch)), Err(ClockError::BeforeEpoch));
}

#[test]
fn the_clock_gives_the_seconds_of_now() {
    let before = std::time::SystemTime::now();
    let n = GossipNotification::new(PUBLIC, "m", "r", vec![]).unwrap();
    let after = std::time::SystemTime::now();
    let seconds = |t: std::time::SystemTime| {
        t.duration_since(std::time::UNIX_EPOCH).unwrap().as_secs()
    };
    assert!(seconds(before) <= n.timestamp && n.timestamp <= seconds(after));
}

#[test]
fn a_failed_reading_of_the_clock_is_handed_on() {
    let failed = Err(ClockError::BeforeEpoch);
    assert_eq!(
        GossipNotification::stamped(failed, PUBLIC, "m", "r", vec![]).err(),
        Some(ClockError::BeforeEpoch)
    );
    assert_eq!(PeerAnnounce::stamped(failed, "n", "v").err(), Some(ClockError::BeforeEpoch));
    assert_eq!(
        outgoing_stamped(failed, &podping(), &key(), PUBLIC).err(),
        Some(ClockError::BeforeEpoch)
    );
}

#[test]
fn a_reading_of_the_clock_gives_the_timestamp() {
    let n = GossipNotification::stamped(Ok(8), PUBLIC, "m", "r", vec![]).unwrap();
    assert_eq!(n.to_json(), GossipNotification::at(8, PUBLIC, "m", "r", vec![]).to_json());
    let a = PeerAnnounce::stamped(Ok(8), "n", "v").unwrap();
    assert_eq!(a.to_json(), PeerAnnounce::at(8, "n", "v").to_json());
    let o = outgoing_stamped(Ok(8), &podping(), &key(), PUBLIC).unwrap().unwrap();
    assert_eq!(o.payload, outgoing_at(8, &podping(), &key(), PUBLIC).unwrap().payload);
}

#[test]
fn a_podping_that_makes_too_large_a_message_is_not_sent() {
    let base = outgoing_at(8, &podping(), &key(), PUBLIC).unwrap().payload.len();
    let room = 8192 - base;
    let mut p = podping();
    p.iri.push_str(&"x".repeat(room));
    assert_eq!(outgoing_at(8, &p, &key(), PUBLIC).unwrap().payload.len(), 8192);
    p.iri.push('x');
    assert!(outgoing_at(8, &p, &key(), PUBLIC).is_none());
    assert!(outgoing_stamped(Ok(8), &p, &key(), PUBLIC).unwrap().is_none());
    p.iri.push_str(&"y".repeat(8192));
    assert!(outgoing(&p, &key(), PUBLIC).unwrap().is_none());
}

#[test]
fn both_readings_of_the_clock_are_needed_for_a_reply() {
    let failed = ClockError::BeforeEpoch;
    let h = reply_stamped(true, Ok(4), Ok(9), &podping()).unwrap().unwrap();
    assert_eq!((h.hive_block_num, h.timestamp_ns), (4, 9));
    assert_eq!(reply_stamped(true, Err(failed), Ok(9), &podping()).err(), Some(failed));
    assert_eq!(reply_stamped(true, Ok(4), Err(failed), &podping()).err(), Some(failed));
    assert!(reply_stamped(false, Err(failed), Err(failed), &podping()).unwrap().is_none());
}
