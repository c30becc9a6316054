//! From a podping to the notification that is broadcast, and to the reply that confirms it.

use crate::clock::{unix_nanoseconds, unix_seconds, ClockError};
use crate::hexadecimal;
use crate::json_reader;
use crate::json_reader::JsonValue;
use crate::notification;
use crate::notification::{
    medium_to_string, reason_to_string, GossipNotification, MAX_MESSAGE_SIZE,
};
use crate::signing;
use crate::signing::SigningKey;
use crate::text::str_eq;
use vstd::prelude::*;

verus! {

/// The type name of the messages that are turned into notifications.
pub const PODPING_WRITE_TYPE: &'static str = "org.podcastindex.podping.hivewriter.PodpingWrite.capnp";

/// The type name of the replies.
pub const HIVE_TRANSACTION_TYPE: &'static str =
    "org.podcastindex.podping.hivewriter.PodpingHiveTransaction.capnp";

/// The transaction id of every reply.
pub const HIVE_TX_ID: &'static str = "gossip";

/// A podping that was received: the feed that has news, and the numbers of its reason and its
/// medium.
#[derive(Debug, Clone)]
pub struct PodpingWrite {
    pub iri: String,
    pub reason: u16,
    pub medium: u16,
}

/// A signed notification on its way out, with what the archive stores of it.
#[derive(Debug)]
pub struct Outgoing {
    pub payload: Vec<u8>,
    pub sender: String,
    pub medium: &'static str,
    pub reason: &'static str,
    pub timestamp: u64,
    pub iri_count: usize,
}

/// The reply that lets the sender of a podping take it out of its queue.
#[derive(Debug)]
pub struct HiveReply {
    pub hive_tx_id: &'static str,
    pub hive_block_num: u64,
    pub medium: u16,
    pub reason: u16,
    pub timestamp_ns: u64,
    pub session_id: u64,
    pub iri: String,
}

/// Whether a message holds a podping, by its type name.
pub fn is_podping_write(payload_type: &str) -> (r: bool)
    ensures
        r == (payload_type@ == PODPING_WRITE_TYPE@),
        r == (payload_type@ == "org.podcastindex.podping.hivewriter.PodpingWrite.capnp"@),
{
    str_eq(payload_type, PODPING_WRITE_TYPE)
}

/// The unsigned notification of a podping.
pub open spec fn podping_notification(p: PodpingWrite, sender: Seq<char>, timestamp: nat) ->
    notification::Notification {
    notification::Notification {
        version: "1.0"@,
        sender,
        timestamp,
        medium: notification::name_or_first(notification::medium_names(), p.medium as int),
        reason: notification::name_or_first(notification::reason_names(), p.reason as int),
        iris: seq![p.iri@],
        signature: None,
    }
}

/// Whether `o` is the signed notification of a podping, made at `timestamp`.
pub open spec fn is_outgoing(
    p: PodpingWrite,
    secret: Seq<u8>,
    sender: Seq<char>,
    timestamp: u64,
    o: Outgoing,
) -> bool {
    let n = podping_notification(p, sender, timestamp as nat);
    &&& o.payload@ == notification::payload(notification::signed(n, secret))
    &&& o.sender@ == sender
    &&& o.medium@ == n.medium
    &&& o.reason@ == n.reason
    &&& o.timestamp == timestamp
    &&& o.iri_count == 1
}

/// Whether the signed notification of a podping, made at `timestamp`, passes the verification
/// where the sender is the public key of the secret key.
pub open spec fn is_verifiable(
    p: PodpingWrite,
    secret: Seq<u8>,
    sender: Seq<char>,
    timestamp: u64,
) -> bool {
    sender == hexadecimal::hex_text(signing::ed25519_public_key(secret))
        ==> notification::verification(
        notification::signed(podping_notification(p, sender, timestamp as nat), secret),
        Ok(true),
    )
}

/// Whether `r` is the signed notification of a podping, made at `timestamp`, or nothing where
/// that notification would be larger than a message may be.
pub open spec fn is_outgoing_if_fitting(
    p: PodpingWrite,
    secret: Seq<u8>,
    sender: Seq<char>,
    timestamp: u64,
    r: Option<Outgoing>,
) -> bool {
    let n = podping_notification(p, sender, timestamp as nat);
    match r {
        Some(o) => is_outgoing(p, secret, sender, timestamp, o) && o.payload@.len()
            <= MAX_MESSAGE_SIZE,
        None => notification::payload(notification::signed(n, secret)).len() > MAX_MESSAGE_SIZE,
    }
}

/// The signed notification of a podping, made at `timestamp`, in seconds since the Unix epoch,
/// unless it would be larger than a message may be. It passes the verification where the sender
/// is the public key of the signing key.
pub fn outgoing_at(
    timestamp: u64,
    podping: &PodpingWrite,
    signing_key: &SigningKey,
    pubkey_hex: &str,
) -> (r: Option<Outgoing>)
    ensures
        is_outgoing_if_fitting(*podping, signing_key@, pubkey_hex@, timestamp, r),
        is_verifiable(*podping, signing_key@, pubkey_hex@, timestamp),
        r matches Some(o) ==> {
            &&& o.payload@.len() <= 8192
            &&& o.sender@ == pubkey_hex@
            &&& o.timestamp == timestamp
            &&& o.iri_count == 1
        },
{
    let mut iris: Vec<String> = Vec::new();
    iris.push(podping.iri.clone());
    let medium = medium_to_string(podping.medium);
    let reason = reason_to_string(podping.reason);
    let mut n = GossipNotification::at(timestamp, pubkey_hex, medium, reason, iris);
    assert(n@ == podping_notification(*podping, pubkey_hex@, timestamp as nat));
    let payload = n.sign(signing_key);
    if payload.len() > MAX_MESSAGE_SIZE {
        return None;
    }
    Some(
        Outgoing {
            payload,
            sender: pubkey_hex.to_owned(),
            medium,
            reason,
            timestamp: n.timestamp,
            iri_count: n.iris.len(),
        },
    )
}

/// The signed notification of a podping, made at the time that a reading of the clock gives, in
/// seconds since the Unix epoch, unless it would be larger than a message may be. A reading that
/// failed is handed on.
pub fn outgoing_stamped(
    now: Result<u64, ClockError>,
    podping: &PodpingWrite,
    signing_key: &SigningKey,
    pubkey_hex: &str,
) -> (r: Result<Option<Outgoing>, ClockError>)
    ensures
        match now {
            Ok(timestamp) => {
                &&& r matches Ok(o)
                &&& is_outgoing_if_fitting(*podping, signing_key@, pubkey_hex@, timestamp, o)
                &&& is_verifiable(*podping, signing_key@, pubkey_hex@, timestamp)
            },
            Err(e) => r == Err::<Option<Outgoing>, ClockError>(e),
        },
{
    match now {
        Ok(timestamp) => Ok(outgoing_at(timestamp, podping, signing_key, pubkey_hex)),
        Err(e) => Err(e),
    }
}

/// The signed notification of a podping, made now, unless it would be larger than a message may
/// be; an error where the system clock stands before the Unix epoch. The clock decides whether
/// there is an error, and it gives the timestamp.
pub fn outgoing(podping: &PodpingWrite, signing_key: &SigningKey, pubkey_hex: &str) -> (r: Result<
    Option<Outgoing>,
    ClockError,
>)
    ensures
        r matches Ok(o) ==> exists|timestamp: u64|
            {
                &&& #[trigger] is_outgoing_if_fitting(
                    *podping,
                    signing_key@,
                    pubkey_hex@,
                    timestamp,
                    o,
                )
                &&& is_verifiable(*podping, signing_key@, pubkey_hex@, timestamp)
            },
        r matches Err(e) ==> e == ClockError::BeforeEpoch,
{
    let now = unix_seconds();
    let r = outgoing_stamped(now, podping, signing_key, pubkey_hex);
    proof {
        if let Ok(timestamp) = now {
            assert(is_outgoing_if_fitting(
                *podping,
                signing_key@,
                pubkey_hex@,
                timestamp,
                r->Ok_0,
            ));
        }
    }
    r
}

/// What goes out for a podping, read as JSON: the sender, the time, the names of the medium and of
/// the reason, the feed alone, and the signature of all that by the secret key. The archive is
/// told the same. It passes the verification where the sender is the public key of that key.
pub proof fn law_outgoing_says_the_podping(
    p: PodpingWrite,
    secret: Seq<u8>,
    sender: Seq<char>,
    timestamp: u64,
    o: Outgoing,
)
    requires
        is_outgoing(p, secret, sender, timestamp, o),
    ensures
        ({
            let medium = notification::name_or_first(notification::medium_names(), p.medium as int);
            let reason = notification::name_or_first(notification::reason_names(), p.reason as int);
            let n = notification::Notification {
                version: "1.0"@,
                sender,
                timestamp: timestamp as nat,
                medium,
                reason,
                iris: seq![p.iri@],
                signature: None,
            };
            &&& json_reader::read_object(vstd::utf8::decode_utf8(o.payload@)) == Some(
                seq![
                    ("version"@, JsonValue::Text("1.0"@)),
                    ("sender"@, JsonValue::Text(sender)),
                    ("timestamp"@, JsonValue::Number(timestamp as nat)),
                    ("medium"@, JsonValue::Text(medium)),
                    ("reason"@, JsonValue::Text(reason)),
                    ("iris"@, JsonValue::List(seq![p.iri@])),
                    (
                        "signature"@,
                        JsonValue::Text(
                            hexadecimal::hex_text(
                                signing::ed25519_signature(secret, notification::canonical(n)),
                            ),
                        ),
                    ),
                ],
            )
            &&& o.sender@ == sender
            &&& o.medium@ == medium
            &&& o.reason@ == reason
            &&& o.timestamp == timestamp
            &&& o.iri_count == 1
        }),
{
    let n = podping_notification(p, sender, timestamp as nat);
    let s = notification::signed(n, secret);
    notification::law_payload_says_each_field(s);
    assert(seq![
        ("version"@, JsonValue::Text(s.version)),
        ("sender"@, JsonValue::Text(s.sender)),
        ("timestamp"@, JsonValue::Number(s.timestamp)),
        ("medium"@, JsonValue::Text(s.medium)),
        ("reason"@, JsonValue::Text(s.reason)),
        ("iris"@, JsonValue::List(s.iris)),
    ] + seq![("signature"@, JsonValue::Text(s.signature->0))] =~= seq![
        ("version"@, JsonValue::Text("1.0"@)),
        ("sender"@, JsonValue::Text(sender)),
        ("timestamp"@, JsonValue::Number(timestamp as nat)),
        ("medium"@, JsonValue::Text(s.medium)),
        ("reason"@, JsonValue::Text(s.reason)),
        ("iris"@, JsonValue::List(seq![p.iri@])),
        ("signature"@, JsonValue::Text(s.signature->0)),
    ]);
}

/// Something goes out for a podping if and only if the message would not be larger than a message
/// may be.
pub proof fn law_only_fitting_messages_go_out(
    p: PodpingWrite,
    secret: Seq<u8>,
    sender: Seq<char>,
    timestamp: u64,
    r: Option<Outgoing>,
)
    requires
        is_outgoing_if_fitting(p, secret, sender, timestamp, r),
    ensures
        r is Some <==> notification::payload(
            notification::signed(podping_notification(p, sender, timestamp as nat), secret),
        ).len() <= 8192,
        r matches Some(o) ==> is_outgoing(p, secret, sender, timestamp, o) && o.payload@.len()
            <= 8192,
{
}

/// Whether `h` is the reply to a podping, made at `seconds` and `nanoseconds` since the Unix
/// epoch. Of the nanoseconds it holds the lowest 64 bits.
pub open spec fn is_reply(p: PodpingWrite, seconds: u64, nanoseconds: u128, h: HiveReply) -> bool {
    &&& h.hive_tx_id@ == HIVE_TX_ID@
    &&& h.hive_block_num == seconds
    &&& h.medium == p.medium
    &&& h.reason == p.reason
    &&& h.timestamp_ns == nanoseconds as int % 0x1_0000_0000_0000_0000
    &&& h.session_id == 0
    &&& h.iri@ == p.iri@
}

/// The reply to a podping, made at `seconds` and `nanoseconds` since the Unix epoch.
pub fn reply_at(seconds: u64, nanoseconds: u128, podping: &PodpingWrite) -> (r: HiveReply)
    ensures
        is_reply(*podping, seconds, nanoseconds, r),
        r.hive_tx_id@ == "gossip"@,
        r.hive_block_num == seconds,
        r.medium == podping.medium,
        r.reason == podping.reason,
        r.timestamp_ns == nanoseconds as int % 0x1_0000_0000_0000_0000,
        r.session_id == 0,
        r.iri@ == podping.iri@,
{
    assert(nanoseconds as u64 == nanoseconds % 0x1_0000_0000_0000_0000) by (bit_vector);
    HiveReply {
        hive_tx_id: HIVE_TX_ID,
        hive_block_num: seconds,
        medium: podping.medium,
        reason: podping.reason,
        timestamp_ns: nanoseconds as u64,
        session_id: 0,
        iri: podping.iri.clone(),
    }
}

/// A reply names the podping that it confirms: its feed, its medium and its reason, with the two
/// readings of the clock.
pub proof fn law_reply_names_the_podping(
    p: PodpingWrite,
    seconds: u64,
    nanoseconds: u128,
    h: HiveReply,
)
    requires
        is_reply(p, seconds, nanoseconds, h),
    ensures
        h.hive_tx_id@ == "gossip"@,
        h.hive_block_num == seconds,
        h.medium == p.medium,
        h.reason == p.reason,
        h.iri@ == p.iri@,
        h.session_id == 0,
        nanoseconds <= u64::MAX ==> h.timestamp_ns == nanoseconds,
        exists|k: int| #[trigger] (k * 0x1_0000_0000_0000_0000) + h.timestamp_ns == nanoseconds,
{
    let k = nanoseconds as int / 0x1_0000_0000_0000_0000;
    assert(k * 0x1_0000_0000_0000_0000 + h.timestamp_ns == nanoseconds);
}

/// The reply to a podping once its notification was handed to the broadcast queue, given two
/// readings of the clock: none where the queue did not take it, and else the error of the first
/// reading that failed.
pub fn reply_stamped(
    queued: bool,
    seconds: Result<u64, ClockError>,
    nanoseconds: Result<u128, ClockError>,
    podping: &PodpingWrite,
) -> (r: Result<Option<HiveReply>, ClockError>)
    ensures
        !queued ==> r == Ok::<Option<HiveReply>, ClockError>(None),
        queued ==> match (seconds, nanoseconds) {
            (Ok(s), Ok(n)) => r is Ok && r->Ok_0 is Some && is_reply(*podping, s, n, r->Ok_0->0),
            (Err(e), _) => r == Err::<Option<HiveReply>, ClockError>(e),
            (Ok(_), Err(e)) => r == Err::<Option<HiveReply>, ClockError>(e),
        },
{
    if !queued {
        return Ok(None);
    }
    match seconds {
        Ok(s) => match nanoseconds {
            Ok(n) => Ok(Some(reply_at(s, n, podping))),
            Err(e) => Err(e),
        },
        Err(e) => Err(e),
    }
}

/// The reply to a podping once its notification was handed to the broadcast queue: none where
/// the queue did not take it, and an error where the system clock stands before the Unix epoch.
pub fn reply_if_queued(queued: bool, podping: &PodpingWrite) -> (r: Result<
    Option<HiveReply>,
    ClockError,
>)
    ensures
        !queued ==> r == Ok::<Option<HiveReply>, ClockError>(None),
        queued && r is Ok ==> r->Ok_0 is Some && exists|nanoseconds: u128| #[trigger]
            is_reply(*podping, r->Ok_0->0.hive_block_num, nanoseconds, r->Ok_0->0),
        r matches Err(e) ==> queued && e == ClockError::BeforeEpoch,
{
    if !queued {
        return Ok(None);
    }
    let seconds = unix_seconds();
    let nanoseconds = unix_nanoseconds();
    let r = reply_stamped(true, seconds, nanoseconds, podping);
    proof {
        if let (Ok(s), Ok(n)) = (seconds, nanoseconds) {
            assert(is_reply(*podping, r->Ok_0->0.hive_block_num, n, r->Ok_0->0));
        }
    }
    r
}

} // verus!
