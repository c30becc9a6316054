//! Announcements of a peer's node id, and the topic that they are sent on.

use crate::clock::{unix_seconds, ClockError};
use crate::json;
use crate::json::{json_number, json_string};
use crate::json_reader;
use crate::json_reader::JsonValue;
use crate::text;
use crate::text::str_eq;
use sha2::Digest;
use vstd::prelude::*;

verus! {

/// The name of the topic that all notifications and announcements are sent on.
pub const TOPIC_STRING: &'static str = "gossipping/v1/all";

/// The message type of an announcement.
pub const PEER_ANNOUNCE: &'static str = "peer_announce";

/// The SHA-256 digest of bytes.
pub uninterp spec fn sha256(bytes: Seq<u8>) -> Seq<u8>;

/// Calls `Sha256` of `sha2` on the bytes: the digest is a function of them.
#[verifier::external_body]
fn sha256_digest(bytes: &[u8]) -> (r: [u8; 32])
    ensures
        r@ == sha256(bytes@),
{
    let mut hasher = sha2::Sha256::new();
    hasher.update(bytes);
    hasher.finalize().into()
}

/// The id of the topic: the digest of its name.
pub fn topic_id() -> (r: [u8; 32])
    ensures
        r@ == sha256(vstd::utf8::encode_utf8(TOPIC_STRING@)),
        r@ == sha256(vstd::utf8::encode_utf8("gossipping/v1/all"@)),
{
    sha256_digest(TOPIC_STRING.as_bytes())
}

/// What an announcement says.
#[verifier::ext_equal]
pub struct Announcement {
    pub msg_type: Seq<char>,
    pub node_id: Seq<char>,
    pub version: Seq<char>,
    pub timestamp: nat,
}

/// A periodic announcement of a node id.
#[derive(Debug, Clone)]
pub struct PeerAnnounce {
    pub msg_type: String,
    pub node_id: String,
    pub version: String,
    pub timestamp: u64,
}

impl View for PeerAnnounce {
    type V = Announcement;

    open spec fn view(&self) -> Announcement {
        Announcement {
            msg_type: self.msg_type@,
            node_id: self.node_id@,
            version: self.version@,
            timestamp: self.timestamp as nat,
        }
    }
}

/// The announcement of a node id.
pub open spec fn announcement(timestamp: nat, node_id: Seq<char>, version: Seq<char>) ->
    Announcement {
    Announcement { msg_type: PEER_ANNOUNCE@, node_id, version, timestamp }
}

/// An announcement on the wire.
pub open spec fn announcement_text(a: Announcement) -> Seq<char> {
    "{\"type\":"@ + json::json_text(a.msg_type) + ",\"node_id\":"@ + json::json_text(a.node_id)
        + ",\"version\":"@ + json::json_text(a.version) + ",\"timestamp\":"@ + text::decimal_text(
        a.timestamp,
    ) + "}"@
}

impl PeerAnnounce {
    /// The announcement that is made at `timestamp`, in seconds since the Unix epoch.
    pub fn at(timestamp: u64, node_id: &str, version: &str) -> (r: PeerAnnounce)
        ensures
            r@ == announcement(timestamp as nat, node_id@, version@),
            r.msg_type@ == "peer_announce"@,
            r.node_id@ == node_id@,
            r.version@ == version@,
            r.timestamp == timestamp,
    {
        PeerAnnounce {
            msg_type: PEER_ANNOUNCE.to_owned(),
            node_id: node_id.to_owned(),
            version: version.to_owned(),
            timestamp,
        }
    }

    /// The announcement that is made at the time that a reading of the clock gives, in seconds
    /// since the Unix epoch. There is one if and only if the reading did not fail.
    pub fn stamped(now: Result<u64, ClockError>, node_id: &str, version: &str) -> (r: Result<
        PeerAnnounce,
        ClockError,
    >)
        ensures
            match now {
                Ok(timestamp) => r matches Ok(a) && a@ == announcement(
                    timestamp as nat,
                    node_id@,
                    version@,
                ),
                Err(e) => r == Err::<PeerAnnounce, ClockError>(e),
            },
            r matches Ok(a) ==> {
                &&& now == Ok::<u64, ClockError>(a.timestamp)
                &&& a.msg_type@ == "peer_announce"@
                &&& a.node_id@ == node_id@
                &&& a.version@ == version@
            },
    {
        match now {
            Ok(timestamp) => Ok(PeerAnnounce::at(timestamp, node_id, version)),
            Err(e) => Err(e),
        }
    }

    /// The announcement that is made now; an error where the system clock stands before the
    /// Unix epoch. The clock decides which, and it gives the timestamp.
    pub fn new(node_id: &str, version: &str) -> (r: Result<PeerAnnounce, ClockError>)
        ensures
            r matches Ok(a) ==> a@ == announcement(a@.timestamp, node_id@, version@),
            r matches Err(e) ==> e == ClockError::BeforeEpoch,
            r matches Ok(a) ==> {
                &&& a.msg_type@ == "peer_announce"@
                &&& a.node_id@ == node_id@
                &&& a.version@ == version@
            },
    {
        PeerAnnounce::stamped(unix_seconds(), node_id, version)
    }

    /// Whether the message is an announcement by its type.
    pub fn is_peer_announce(&self) -> (r: bool)
        ensures
            r == (self@.msg_type == PEER_ANNOUNCE@),
            r == (self.msg_type@ == "peer_announce"@),
    {
        str_eq(self.msg_type.as_str(), PEER_ANNOUNCE)
    }

    /// The announcement as compact JSON.
    pub fn to_json(&self) -> (r: Vec<u8>)
        ensures
            r@ == vstd::utf8::encode_utf8(announcement_text(self@)),
            json_reader::read_object(vstd::utf8::decode_utf8(r@)) == Some(
                seq![
                    ("type"@, JsonValue::Text(self.msg_type@)),
                    ("node_id"@, JsonValue::Text(self.node_id@)),
                    ("version"@, JsonValue::Text(self.version@)),
                    ("timestamp"@, JsonValue::Number(self.timestamp as nat)),
                ],
            ),
    {
        proof {
            law_announcement_says_each_field(self@);
            vstd::utf8::encode_utf8_decode_utf8(announcement_text(self@));
        }
        let mut out = "{\"type\":".to_owned();
        out.append(json_string(self.msg_type.as_str()).as_str());
        out.append(",\"node_id\":");
        out.append(json_string(self.node_id.as_str()).as_str());
        out.append(",\"version\":");
        out.append(json_string(self.version.as_str()).as_str());
        out.append(",\"timestamp\":");
        out.append(json_number(self.timestamp).as_str());
        out.append("}");
        out.as_str().as_bytes_vec()
    }
}

/// How many seconds lie between announcements where nothing else is set.
pub const DEFAULT_ANNOUNCE_INTERVAL: u64 = 300;

/// The number of seconds between announcements, from the setting: the number that it stands
/// for, and the default where there is none.
pub fn announce_interval(setting: Option<&str>) -> (r: u64)
    ensures
        r == match setting {
            Some(s) => match text::parsed_number(s@) {
                Some(n) => n,
                None => DEFAULT_ANNOUNCE_INTERVAL,
            },
            None => DEFAULT_ANNOUNCE_INTERVAL,
        },
        setting is None ==> r == 300,
        setting matches Some(s) ==> r == match text::parsed_number(s@) {
            Some(n) => n,
            None => 300,
        },
{
    match setting {
        Some(s) => match text::parse_number(s) {
            Some(n) => n,
            None => DEFAULT_ANNOUNCE_INTERVAL,
        },
        None => DEFAULT_ANNOUNCE_INTERVAL,
    }
}

/// What follows the message type on the wire.
spec fn announcement_rest(a: Announcement) -> Seq<char> {
    json::field(
        ",\"node_id\":"@,
        json::json_text(a.node_id),
        json::field(
            ",\"version\":"@,
            json::json_text(a.version),
            json::field(",\"timestamp\":"@, text::decimal_text(a.timestamp), "}"@),
        ),
    )
}

/// An announcement on the wire, field by field.
proof fn lemma_announcement_fields(a: Announcement)
    ensures
        announcement_text(a) == json::field(
            "{\"type\":"@,
            json::json_text(a.msg_type),
            announcement_rest(a),
        ),
{
    assert(announcement_text(a) =~= json::field(
        "{\"type\":"@,
        json::json_text(a.msg_type),
        announcement_rest(a),
    ));
}

proof fn lemma_key_type()
    ensures
        json_reader::is_key("{\"type\":"@, '{', "type"@),
{
    reveal(json_reader::is_key);
    reveal_strlit("{\"type\":");
    reveal_strlit("type");
    assert("{\"type\":"@ =~= seq!['{'] + (seq!['"'] + "type"@ + seq!['"', ':']));
}

proof fn lemma_key_node_id()
    ensures
        json_reader::is_key(",\"node_id\":"@, ',', "node_id"@),
{
    reveal(json_reader::is_key);
    reveal_strlit(",\"node_id\":");
    reveal_strlit("node_id");
    assert(",\"node_id\":"@ =~= seq![','] + (seq!['"'] + "node_id"@ + seq!['"', ':']));
}

proof fn lemma_key_version()
    ensures
        json_reader::is_key(",\"version\":"@, ',', "version"@),
{
    reveal(json_reader::is_key);
    reveal_strlit(",\"version\":");
    reveal_strlit("version");
    assert(",\"version\":"@ =~= seq![','] + (seq!['"'] + "version"@ + seq!['"', ':']));
}

proof fn lemma_key_timestamp()
    ensures
        json_reader::is_key(",\"timestamp\":"@, ',', "timestamp"@),
{
    reveal(json_reader::is_key);
    reveal_strlit(",\"timestamp\":");
    reveal_strlit("timestamp");
    assert(",\"timestamp\":"@ =~= seq![','] + (seq!['"'] + "timestamp"@ + seq!['"', ':']));
}

/// Read as JSON, an announcement on the wire is an object with these members, in this order: each
/// field under its own name, the message type under `type`.
pub proof fn law_announcement_says_each_field(a: Announcement)
    ensures
        json_reader::read_object(announcement_text(a)) == Some(
            seq![
                ("type"@, JsonValue::Text(a.msg_type)),
                ("node_id"@, JsonValue::Text(a.node_id)),
                ("version"@, JsonValue::Text(a.version)),
                ("timestamp"@, JsonValue::Number(a.timestamp)),
            ],
        ),
{
    let m4 = seq![("timestamp"@, JsonValue::Number(a.timestamp))];
    let m3 = seq![("version"@, JsonValue::Text(a.version))] + m4;
    let m2 = seq![("node_id"@, JsonValue::Text(a.node_id))] + m3;
    let m1 = seq![("type"@, JsonValue::Text(a.msg_type))] + m2;
    let x3 = json::field(",\"timestamp\":"@, text::decimal_text(a.timestamp), "}"@);
    let x2 = json::field(",\"version\":"@, json::json_text(a.version), x3);
    let x1 = announcement_rest(a);
    lemma_key_timestamp();
    assert(json_reader::read_value(text::decimal_text(a.timestamp) + "}"@) == Some(
        (JsonValue::Number(a.timestamp), "}"@),
    )) by {
        reveal_strlit("}");
        json_reader::law_number_is_read_back(a.timestamp, "}"@);
    }
    json_reader::lemma_reads_last_field(
        ",\"timestamp\":"@,
        "timestamp"@,
        text::decimal_text(a.timestamp),
        JsonValue::Number(a.timestamp),
    );
    lemma_key_version();
    json_reader::lemma_reads_text(",\"version\":"@, ',', "version"@, a.version, x3, m4);
    lemma_key_node_id();
    json_reader::lemma_reads_text(",\"node_id\":"@, ',', "node_id"@, a.node_id, x2, m3);
    lemma_key_type();
    json_reader::lemma_reads_text("{\"type\":"@, '{', "type"@, a.msg_type, x1, m2);
    assert(announcement_text(a) == json::field("{\"type\":"@, json::json_text(a.msg_type), x1))
        by {
        lemma_announcement_fields(a);
    }
    json_reader::lemma_reads_object(announcement_text(a), m1);
    assert(m1 =~= seq![
        ("type"@, JsonValue::Text(a.msg_type)),
        ("node_id"@, JsonValue::Text(a.node_id)),
        ("version"@, JsonValue::Text(a.version)),
        ("timestamp"@, JsonValue::Number(a.timestamp)),
    ]);
}

/// What is on the wire tells the whole announcement.
pub proof fn law_announcement_decodes(a: Announcement, b: Announcement)
    requires
        vstd::utf8::encode_utf8(announcement_text(a)) == vstd::utf8::encode_utf8(
            announcement_text(b),
        ),
    ensures
        a == b,
{
    json::lemma_same_encoding(announcement_text(a), announcement_text(b));
    lemma_announcement_fields(a);
    lemma_announcement_fields(b);
    let (x2, y2) = (
        json::field(",\"timestamp\":"@, text::decimal_text(a.timestamp), "}"@),
        json::field(",\"timestamp\":"@, text::decimal_text(b.timestamp), "}"@),
    );
    let (x1, y1) = (
        json::field(",\"version\":"@, json::json_text(a.version), x2),
        json::field(",\"version\":"@, json::json_text(b.version), y2),
    );
    json::lemma_text_field(
        "{\"type\":"@,
        a.msg_type,
        b.msg_type,
        announcement_rest(a),
        announcement_rest(b),
    );
    json::lemma_text_field(",\"node_id\":"@, a.node_id, b.node_id, x1, y1);
    json::lemma_text_field(",\"version\":"@, a.version, b.version, x2, y2);
    reveal_strlit("}");
    json::lemma_number_field(",\"timestamp\":"@, a.timestamp, b.timestamp, "}"@, "}"@);
}

} // verus!
