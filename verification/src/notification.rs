//! Signed notifications of feed updates.

use crate::clock::{unix_seconds, ClockError};
use crate::graph;
use crate::hexadecimal;
use crate::hexadecimal::{hex_decode, hex_encode};
use crate::json;
use crate::json::{append_json_list, json_number, json_string};
use crate::json_reader;
use crate::json_reader::JsonValue;
use crate::signing;
use crate::signing::{array_32, array_64, check_public_key, verify_message, SigningKey};
use crate::text;
use vstd::prelude::*;

verus! {

/// How many bytes a message on the wire has at most.
pub const MAX_MESSAGE_SIZE: usize = 8192;

/// What a notification says.
#[verifier::ext_equal]
pub struct Notification {
    pub version: Seq<char>,
    pub sender: Seq<char>,
    pub timestamp: nat,
    pub medium: Seq<char>,
    pub reason: Seq<char>,
    pub iris: Seq<Seq<char>>,
    pub signature: Option<Seq<char>>,
}

/// A notification that the feeds at `iris` have news, in format version 1.0.
///
/// The signature is an Ed25519 signature, in hexadecimal notation, of the canonical form: the
/// compact JSON object of all other fields, with its keys in alphabetical order. The sender is
/// the public key that the signature is verified with, in hexadecimal notation.
#[derive(Debug, Clone)]
pub struct GossipNotification {
    pub version: String,
    pub sender: String,
    pub timestamp: u64,
    pub medium: String,
    pub reason: String,
    pub iris: Vec<String>,
    pub signature: Option<String>,
}

impl View for GossipNotification {
    type V = Notification;

    open spec fn view(&self) -> Notification {
        Notification {
            version: self.version@,
            sender: self.sender@,
            timestamp: self.timestamp as nat,
            medium: self.medium@,
            reason: self.reason@,
            iris: graph::texts(self.iris@),
            signature: text::option_text(self.signature),
        }
    }
}

/// A notification in format version 1.0 that is not signed.
pub open spec fn unsigned(
    timestamp: nat,
    sender: Seq<char>,
    medium: Seq<char>,
    reason: Seq<char>,
    iris: Seq<Seq<char>>,
) -> Notification {
    Notification { version: "1.0"@, sender, timestamp, medium, reason, iris, signature: None }
}

/// The canonical form of a notification, which is signed.
pub open spec fn canonical_text(n: Notification) -> Seq<char> {
    "{\"iris\":"@ + json::json_list(n.iris) + ",\"medium\":"@ + json::json_text(n.medium)
        + ",\"reason\":"@ + json::json_text(n.reason) + ",\"sender\":"@ + json::json_text(n.sender)
        + ",\"timestamp\":"@ + text::decimal_text(n.timestamp) + ",\"version\":"@ + json::json_text(
        n.version,
    ) + "}"@
}

/// The bytes of the canonical form.
pub open spec fn canonical(n: Notification) -> Seq<u8> {
    vstd::utf8::encode_utf8(canonical_text(n))
}

/// The end of a notification on the wire: its signature, where it has one.
pub open spec fn signature_text(signature: Option<Seq<char>>) -> Seq<char> {
    match signature {
        Some(s) => ",\"signature\":"@ + json::json_text(s) + "}"@,
        None => "}"@,
    }
}

/// A notification on the wire.
pub open spec fn payload_text(n: Notification) -> Seq<char> {
    "{\"version\":"@ + json::json_text(n.version) + ",\"sender\":"@ + json::json_text(n.sender)
        + ",\"timestamp\":"@ + text::decimal_text(n.timestamp) + ",\"medium\":"@ + json::json_text(
        n.medium,
    ) + ",\"reason\":"@ + json::json_text(n.reason) + ",\"iris\":"@ + json::json_list(n.iris)
        + signature_text(n.signature)
}

/// The bytes of a notification on the wire.
pub open spec fn payload(n: Notification) -> Seq<u8> {
    vstd::utf8::encode_utf8(payload_text(n))
}

/// The notification with the signature that a secret key gives it.
pub open spec fn signed(n: Notification, secret: Seq<u8>) -> Notification {
    Notification {
        signature: Some(
            hexadecimal::hex_text(signing::ed25519_signature(secret, canonical(n))),
        ),
        ..n
    }
}

/// The outcome of the verification with a public key of the right length.
pub open spec fn verdict(key_valid: bool, accepted: bool) -> Result<bool, Seq<char>> {
    if !key_valid {
        Err("bad pubkey: signature error"@)
    } else if !accepted {
        Err("signature verification failed: signature error"@)
    } else {
        Ok(true)
    }
}

/// The outcome of the verification of a signature, given what the sender's public key decodes
/// to.
pub open spec fn signature_check(
    n: Notification,
    signature: Seq<char>,
    key: Seq<u8>,
    r: Result<bool, Seq<char>>,
) -> bool {
    exists|decoded: Result<Seq<u8>, hexadecimal::HexError>| #[trigger]
        hexadecimal::hex_decoding(signature, decoded) && match decoded {
            Err(e) => r == Err::<bool, Seq<char>>(
                "bad signature hex: "@ + hexadecimal::hex_error_text(e),
            ),
            Ok(s) => if s.len() != signing::SIGNATURE_LENGTH {
                r == Err::<bool, Seq<char>>("signature is not 64 bytes"@)
            } else {
                r == verdict(
                    signing::ed25519_key_valid(key),
                    signing::ed25519_accepts(key, canonical(n), s),
                )
            },
        }
}

/// The outcome of the verification of a notification: `false` for one without a signature,
/// `true` for one that the sender's key accepts, and a message for every other.
pub open spec fn verification(n: Notification, r: Result<bool, Seq<char>>) -> bool {
    match n.signature {
        None => r == Ok::<bool, Seq<char>>(false),
        Some(signature) => exists|decoded: Result<Seq<u8>, hexadecimal::HexError>| #[trigger]
            hexadecimal::hex_decoding(n.sender, decoded) && match decoded {
                Err(e) => r == Err::<bool, Seq<char>>(
                    "bad sender hex: "@ + hexadecimal::hex_error_text(e),
                ),
                Ok(key) => if key.len() != signing::PUBLIC_KEY_LENGTH {
                    r == Err::<bool, Seq<char>>("sender is not 32 bytes"@)
                } else {
                    signature_check(n, signature, key, r)
                },
            },
    }
}

/// The outcome with the text of its message.
pub open spec fn outcome(r: Result<bool, String>) -> Result<bool, Seq<char>> {
    match r {
        Ok(b) => Ok(b),
        Err(message) => Err(message@),
    }
}

/// The outcome of the verification, given whether the sender is a public key and whether that
/// key accepts the signature.
pub fn signature_verdict(key_valid: bool, accepted: bool) -> (r: Result<bool, String>)
    ensures
        outcome(r) == verdict(key_valid, accepted),
        r matches Ok(b) ==> b && key_valid && accepted,
        r matches Err(message) ==> if key_valid {
            !accepted && message@ == "signature verification failed: signature error"@
        } else {
            message@ == "bad pubkey: signature error"@
        },
{
    if !key_valid {
        Err("bad pubkey: signature error".to_owned())
    } else if !accepted {
        Err("signature verification failed: signature error".to_owned())
    } else {
        Ok(true)
    }
}

/// A message with a text behind it.
fn joined(front: &str, back: &str) -> (r: String)
    ensures
        r@ == front@ + back@,
{
    let mut r = front.to_owned();
    r.append(back);
    r
}

impl GossipNotification {
    /// An unsigned notification that is made at `timestamp`, in seconds since the Unix epoch.
    pub fn at(
        timestamp: u64,
        sender_pubkey_hex: &str,
        medium: &str,
        reason: &str,
        iris: Vec<String>,
    ) -> (r: GossipNotification)
        ensures
            r@ == unsigned(
                timestamp as nat,
                sender_pubkey_hex@,
                medium@,
                reason@,
                graph::texts(iris@),
            ),
            r.version@ == "1.0"@,
            r.sender@ == sender_pubkey_hex@,
            r.timestamp == timestamp,
            r.medium@ == medium@,
            r.reason@ == reason@,
            r.iris == iris,
            r.signature is None,
    {
        GossipNotification {
            version: "1.0".to_owned(),
            sender: sender_pubkey_hex.to_owned(),
            timestamp,
            medium: medium.to_owned(),
            reason: reason.to_owned(),
            iris,
            signature: None,
        }
    }

    /// An unsigned notification that is made at the time that a reading of the clock gives, in
    /// seconds since the Unix epoch. There is one if and only if the reading did not fail.
    pub fn stamped(
        now: Result<u64, ClockError>,
        sender_pubkey_hex: &str,
        medium: &str,
        reason: &str,
        iris: Vec<String>,
    ) -> (r: Result<GossipNotification, ClockError>)
        ensures
            match now {
                Ok(timestamp) => r matches Ok(n) && n@ == unsigned(
                    timestamp as nat,
                    sender_pubkey_hex@,
                    medium@,
                    reason@,
                    graph::texts(iris@),
                ),
                Err(e) => r == Err::<GossipNotification, ClockError>(e),
            },
            r matches Ok(n) ==> now == Ok::<u64, ClockError>(n.timestamp),
            r matches Ok(n) ==> {
                &&& n.version@ == "1.0"@
                &&& n.sender@ == sender_pubkey_hex@
                &&& n.medium@ == medium@
                &&& n.reason@ == reason@
                &&& n.iris == iris
                &&& n.signature is None
            },
    {
        match now {
            Ok(timestamp) => Ok(
                GossipNotification::at(timestamp, sender_pubkey_hex, medium, reason, iris),
            ),
            Err(e) => Err(e),
        }
    }

    /// An unsigned notification that is made now; an error where the system clock stands
    /// before the Unix epoch. The clock decides which, and it gives the timestamp.
    pub fn new(sender_pubkey_hex: &str, medium: &str, reason: &str, iris: Vec<String>) -> (r:
        Result<GossipNotification, ClockError>)
        ensures
            r matches Ok(n) ==> n@ == unsigned(
                n@.timestamp,
                sender_pubkey_hex@,
                medium@,
                reason@,
                graph::texts(iris@),
            ),
            r matches Err(e) ==> e == ClockError::BeforeEpoch,
            r matches Ok(n) ==> {
                &&& n.version@ == "1.0"@
                &&& n.sender@ == sender_pubkey_hex@
                &&& n.medium@ == medium@
                &&& n.reason@ == reason@
                &&& n.iris == iris
                &&& n.signature is None
            },
    {
        GossipNotification::stamped(unix_seconds(), sender_pubkey_hex, medium, reason, iris)
    }

    /// The bytes that are signed: the canonical form, without the signature.
    pub fn canonical_bytes(&self) -> (r: Vec<u8>)
        ensures
            r@ == canonical(self@),
            json_reader::read_object(vstd::utf8::decode_utf8(r@)) == Some(
                seq![
                    ("iris"@, JsonValue::List(graph::texts(self.iris@))),
                    ("medium"@, JsonValue::Text(self.medium@)),
                    ("reason"@, JsonValue::Text(self.reason@)),
                    ("sender"@, JsonValue::Text(self.sender@)),
                    ("timestamp"@, JsonValue::Number(self.timestamp as nat)),
                    ("version"@, JsonValue::Text(self.version@)),
                ],
            ),
    {
        proof {
            law_canonical_form_says_each_field(self@);
        }
        let mut out = "{\"iris\":".to_owned();
        append_json_list(&mut out, &self.iris);
        out.append(",\"medium\":");
        out.append(json_string(self.medium.as_str()).as_str());
        out.append(",\"reason\":");
        out.append(json_string(self.reason.as_str()).as_str());
        out.append(",\"sender\":");
        out.append(json_string(self.sender.as_str()).as_str());
        out.append(",\"timestamp\":");
        out.append(json_number(self.timestamp).as_str());
        out.append(",\"version\":");
        out.append(json_string(self.version.as_str()).as_str());
        out.append("}");
        out.as_str().as_bytes_vec()
    }

    /// The notification as compact JSON, with the signature where there is one.
    pub fn to_json(&self) -> (r: Vec<u8>)
        ensures
            r@ == payload(self@),
            json_reader::read_object(vstd::utf8::decode_utf8(r@)) == Some(
                seq![
                    ("version"@, JsonValue::Text(self.version@)),
                    ("sender"@, JsonValue::Text(self.sender@)),
                    ("timestamp"@, JsonValue::Number(self.timestamp as nat)),
                    ("medium"@, JsonValue::Text(self.medium@)),
                    ("reason"@, JsonValue::Text(self.reason@)),
                    ("iris"@, JsonValue::List(graph::texts(self.iris@))),
                ] + match self.signature {
                    Some(signature) => seq![("signature"@, JsonValue::Text(signature@))],
                    None => seq![],
                },
            ),
    {
        proof {
            law_payload_says_each_field(self@);
        }
        let mut out = "{\"version\":".to_owned();
        out.append(json_string(self.version.as_str()).as_str());
        out.append(",\"sender\":");
        out.append(json_string(self.sender.as_str()).as_str());
        out.append(",\"timestamp\":");
        out.append(json_number(self.timestamp).as_str());
        out.append(",\"medium\":");
        out.append(json_string(self.medium.as_str()).as_str());
        out.append(",\"reason\":");
        out.append(json_string(self.reason.as_str()).as_str());
        out.append(",\"iris\":");
        append_json_list(&mut out, &self.iris);
        let mut end = "}".to_owned();
        if let Some(signature) = &self.signature {
            end = ",\"signature\":".to_owned();
            end.append(json_string(signature.as_str()).as_str());
            end.append("}");
        }
        out.append(end.as_str());
        out.as_str().as_bytes_vec()
    }

    /// Signs the notification in place and returns it as it goes on the wire. Where the key is
    /// that of the sender, the signed notification passes the verification.
    pub fn sign(&mut self, signing_key: &SigningKey) -> (r: Vec<u8>)
        ensures
            final(self)@ == signed(old(self)@, signing_key@),
            final(self).version == old(self).version,
            final(self).sender == old(self).sender,
            final(self).timestamp == old(self).timestamp,
            final(self).medium == old(self).medium,
            final(self).reason == old(self).reason,
            final(self).iris == old(self).iris,
            final(self).signature matches Some(signature) && signature@ == hexadecimal::hex_text(
                signing::ed25519_signature(signing_key@, canonical(old(self)@)),
            ),
            r@ == payload(final(self)@),
            old(self)@.sender == hexadecimal::hex_text(signing::ed25519_public_key(signing_key@))
                ==> forall|o: Result<bool, Seq<char>>|
                verification(final(self)@, o) <==> o == Ok::<bool, Seq<char>>(true),
    {
        let canonical_form = self.canonical_bytes();
        let signature = signing_key.sign(canonical_form.as_slice());
        self.signature = Some(hex_encode(&signature));
        let r = self.to_json();
        proof {
            let public = signing::ed25519_public_key(signing_key@);
            if old(self)@.sender == hexadecimal::hex_text(public) {
                lemma_signed_passes(self@, public, signature@);
            }
        }
        r
    }

    /// Verifies the signature with the sender's key: `false` where there is none, `true` where
    /// it is accepted, and else a message that says what is wrong.
    pub fn verify_signature(&self) -> (r: Result<bool, String>)
        ensures
            verification(self@, outcome(r)),
    {
        let signature_hex = match &self.signature {
            Some(s) => s,
            None => return Ok(false),
        };
        let decoded = hex_decode(self.sender.as_str());
        assert(hexadecimal::hex_decoding(self@.sender, hexadecimal::result_view(decoded)));
        let key = match decoded {
            Ok(bytes) => bytes,
            Err(e) => return Err(joined("bad sender hex: ", e.message().as_str())),
        };
        if key.len() != signing::PUBLIC_KEY_LENGTH {
            return Err("sender is not 32 bytes".to_owned());
        }
        let decoded = hex_decode(signature_hex.as_str());
        assert(hexadecimal::hex_decoding(signature_hex@, hexadecimal::result_view(decoded)));
        let signature = match decoded {
            Ok(bytes) => bytes,
            Err(e) => return Err(joined("bad signature hex: ", e.message().as_str())),
        };
        if signature.len() != signing::SIGNATURE_LENGTH {
            return Err("signature is not 64 bytes".to_owned());
        }
        let key = array_32(key.as_slice());
        let signature = array_64(signature.as_slice());
        let canonical_form = self.canonical_bytes();
        let key_valid = check_public_key(&key);
        let accepted = key_valid && verify_message(&key, canonical_form.as_slice(), &signature);
        signature_verdict(key_valid, accepted)
    }
}

/// What follows the timestamp in the canonical form.
spec fn canonical_end(n: Notification) -> Seq<char> {
    json::field(",\"version\":"@, json::json_text(n.version), "}"@)
}

/// What follows the list in the canonical form.
spec fn canonical_rest(n: Notification) -> Seq<char> {
    json::field(
        ",\"medium\":"@,
        json::json_text(n.medium),
        json::field(
            ",\"reason\":"@,
            json::json_text(n.reason),
            json::field(
                ",\"sender\":"@,
                json::json_text(n.sender),
                json::field(",\"timestamp\":"@, text::decimal_text(n.timestamp), canonical_end(n)),
            ),
        ),
    )
}

/// The canonical form, field by field.
proof fn lemma_canonical_fields(n: Notification)
    ensures
        canonical_text(n) == json::field("{\"iris\":"@, json::json_list(n.iris), canonical_rest(n)),
        canonical_end(n).len() > 0,
        canonical_end(n)[0] == ',',
{
    reveal_strlit(",\"version\":");
    assert(canonical_text(n) =~= json::field(
        "{\"iris\":"@,
        json::json_list(n.iris),
        canonical_rest(n),
    ));
}

/// The canonical form tells every field but the signature: notifications with the same
/// canonical form differ in nothing else, so a signature holds for what it was made for alone.
pub proof fn law_canonical_form_decodes(a: Notification, b: Notification)
    requires
        canonical(a) == canonical(b),
    ensures
        a == (Notification { signature: a.signature, ..b }),
{
    json::lemma_same_encoding(canonical_text(a), canonical_text(b));
    lemma_canonical_fields(a);
    lemma_canonical_fields(b);
    let (x4, y4) = (canonical_end(a), canonical_end(b));
    let (x3, y3) = (
        json::field(",\"timestamp\":"@, text::decimal_text(a.timestamp), x4),
        json::field(",\"timestamp\":"@, text::decimal_text(b.timestamp), y4),
    );
    let (x2, y2) = (
        json::field(",\"sender\":"@, json::json_text(a.sender), x3),
        json::field(",\"sender\":"@, json::json_text(b.sender), y3),
    );
    let (x1, y1) = (
        json::field(",\"reason\":"@, json::json_text(a.reason), x2),
        json::field(",\"reason\":"@, json::json_text(b.reason), y2),
    );
    json::lemma_list_field("{\"iris\":"@, a.iris, b.iris, canonical_rest(a), canonical_rest(b));
    json::lemma_text_field(",\"medium\":"@, a.medium, b.medium, x1, y1);
    json::lemma_text_field(",\"reason\":"@, a.reason, b.reason, x2, y2);
    json::lemma_text_field(",\"sender\":"@, a.sender, b.sender, x3, y3);
    json::lemma_number_field(",\"timestamp\":"@, a.timestamp, b.timestamp, x4, y4);
    json::lemma_text_field(",\"version\":"@, a.version, b.version, "}"@, "}"@);
}

/// What follows the timestamp on the wire.
spec fn payload_end(n: Notification) -> Seq<char> {
    json::field(
        ",\"medium\":"@,
        json::json_text(n.medium),
        json::field(
            ",\"reason\":"@,
            json::json_text(n.reason),
            json::field(",\"iris\":"@, json::json_list(n.iris), signature_text(n.signature)),
        ),
    )
}

/// What follows the version on the wire.
spec fn payload_rest(n: Notification) -> Seq<char> {
    json::field(
        ",\"sender\":"@,
        json::json_text(n.sender),
        json::field(",\"timestamp\":"@, text::decimal_text(n.timestamp), payload_end(n)),
    )
}

/// A notification on the wire, field by field.
proof fn lemma_payload_fields(n: Notification)
    ensures
        payload_text(n) == json::field(
            "{\"version\":"@,
            json::json_text(n.version),
            payload_rest(n),
        ),
        payload_end(n).len() > 0,
        payload_end(n)[0] == ',',
{
    reveal_strlit(",\"medium\":");
    assert(payload_text(n) =~= json::field(
        "{\"version\":"@,
        json::json_text(n.version),
        payload_rest(n),
    ));
}

/// What is on the wire tells the whole notification.
pub proof fn law_payload_decodes(a: Notification, b: Notification)
    requires
        payload(a) == payload(b),
    ensures
        a == b,
{
    json::lemma_same_encoding(payload_text(a), payload_text(b));
    lemma_payload_fields(a);
    lemma_payload_fields(b);
    let (x4, y4) = (signature_text(a.signature), signature_text(b.signature));
    let (x3, y3) = (
        json::field(",\"iris\":"@, json::json_list(a.iris), x4),
        json::field(",\"iris\":"@, json::json_list(b.iris), y4),
    );
    let (x2, y2) = (
        json::field(",\"reason\":"@, json::json_text(a.reason), x3),
        json::field(",\"reason\":"@, json::json_text(b.reason), y3),
    );
    let (x1, y1) = (
        json::field(",\"timestamp\":"@, text::decimal_text(a.timestamp), payload_end(a)),
        json::field(",\"timestamp\":"@, text::decimal_text(b.timestamp), payload_end(b)),
    );
    json::lemma_text_field("{\"version\":"@, a.version, b.version, payload_rest(a), payload_rest(b));
    json::lemma_text_field(",\"sender\":"@, a.sender, b.sender, x1, y1);
    json::lemma_number_field(
        ",\"timestamp\":"@,
        a.timestamp,
        b.timestamp,
        payload_end(a),
        payload_end(b),
    );
    json::lemma_text_field(",\"medium\":"@, a.medium, b.medium, x2, y2);
    json::lemma_text_field(",\"reason\":"@, a.reason, b.reason, x3, y3);
    json::lemma_list_field(",\"iris\":"@, a.iris, b.iris, x4, y4);
    reveal_strlit("}");
    reveal_strlit(",\"signature\":");
    if let (Some(s), Some(t)) = (a.signature, b.signature) {
        assert(x4 =~= json::field(",\"signature\":"@, json::json_text(s), "}"@));
        assert(y4 =~= json::field(",\"signature\":"@, json::json_text(t), "}"@));
        json::lemma_text_field(",\"signature\":"@, s, t, "}"@, "}"@);
    } else if a.signature is Some || b.signature is Some {
        assert(x4[0] != y4[0]);
    }
}

proof fn lemma_key_iris()
    ensures
        json_reader::is_key(",\"iris\":"@, ',', "iris"@),
{
    reveal(json_reader::is_key);
    reveal_strlit(",\"iris\":");
    reveal_strlit("iris");
    assert(",\"iris\":"@ =~= seq![','] + (seq!['"'] + "iris"@ + seq!['"', ':']));
}

proof fn lemma_key_medium()
    ensures
        json_reader::is_key(",\"medium\":"@, ',', "medium"@),
{
    reveal(json_reader::is_key);
    reveal_strlit(",\"medium\":");
    reveal_strlit("medium");
    assert(",\"medium\":"@ =~= seq![','] + (seq!['"'] + "medium"@ + seq!['"', ':']));
}

proof fn lemma_key_reason()
    ensures
        json_reader::is_key(",\"reason\":"@, ',', "reason"@),
{
    reveal(json_reader::is_key);
    reveal_strlit(",\"reason\":");
    reveal_strlit("reason");
    assert(",\"reason\":"@ =~= seq![','] + (seq!['"'] + "reason"@ + seq!['"', ':']));
}

proof fn lemma_key_sender()
    ensures
        json_reader::is_key(",\"sender\":"@, ',', "sender"@),
{
    reveal(json_reader::is_key);
    reveal_strlit(",\"sender\":");
    reveal_strlit("sender");
    assert(",\"sender\":"@ =~= seq![','] + (seq!['"'] + "sender"@ + seq!['"', ':']));
}

proof fn lemma_key_timestamp()
    ensures
        json_reader::is_key(",\"timestamp\":"@, ',', "timestamp"@),
{
    reveal(json_reader::is_key);
    reveal_strlit(",\"timestamp\":");
    reveal_strlit("timestamp");
    assert(",\"timestamp\":"@ =~= seq![','] + (seq!['"'] + "timestamp"@ + seq!['"', ':']));
}

proof fn lemma_key_version()
    ensures
        json_reader::is_key(",\"version\":"@, ',', "version"@),
{
    reveal(json_reader::is_key);
    reveal_strlit(",\"version\":");
    reveal_strlit("version");
    assert(",\"version\":"@ =~= seq![','] + (seq!['"'] + "version"@ + seq!['"', ':']));
}

proof fn lemma_key_signature()
    ensures
        json_reader::is_key(",\"signature\":"@, ',', "signature"@),
{
    reveal(json_reader::is_key);
    reveal_strlit(",\"signature\":");
    reveal_strlit("signature");
    assert(",\"signature\":"@ =~= seq![','] + (seq!['"'] + "signature"@ + seq!['"', ':']));
}

proof fn lemma_key_first_iris()
    ensures
        json_reader::is_key("{\"iris\":"@, '{', "iris"@),
{
    reveal(json_reader::is_key);
    reveal_strlit("{\"iris\":");
    reveal_strlit("iris");
    assert("{\"iris\":"@ =~= seq!['{'] + (seq!['"'] + "iris"@ + seq!['"', ':']));
}

proof fn lemma_key_first_version()
    ensures
        json_reader::is_key("{\"version\":"@, '{', "version"@),
{
    reveal(json_reader::is_key);
    reveal_strlit("{\"version\":");
    reveal_strlit("version");
    assert("{\"version\":"@ =~= seq!['{'] + (seq!['"'] + "version"@ + seq!['"', ':']));
}

/// Read as JSON, the canonical form is an object with these members, in this order: each field but
/// the signature under its own name, the names sorted.
pub proof fn law_canonical_form_says_each_field(n: Notification)
    ensures
        json_reader::read_object(vstd::utf8::decode_utf8(canonical(n))) == Some(
            seq![
                ("iris"@, JsonValue::List(n.iris)),
                ("medium"@, JsonValue::Text(n.medium)),
                ("reason"@, JsonValue::Text(n.reason)),
                ("sender"@, JsonValue::Text(n.sender)),
                ("timestamp"@, JsonValue::Number(n.timestamp)),
                ("version"@, JsonValue::Text(n.version)),
            ],
        ),
{
    vstd::utf8::encode_utf8_decode_utf8(canonical_text(n));
    let m6 = seq![("version"@, JsonValue::Text(n.version))];
    let m5 = seq![("timestamp"@, JsonValue::Number(n.timestamp))] + m6;
    let m4 = seq![("sender"@, JsonValue::Text(n.sender))] + m5;
    let m3 = seq![("reason"@, JsonValue::Text(n.reason))] + m4;
    let m2 = seq![("medium"@, JsonValue::Text(n.medium))] + m3;
    let m1 = seq![("iris"@, JsonValue::List(n.iris))] + m2;
    let x5 = canonical_end(n);
    let x4 = json::field(",\"timestamp\":"@, text::decimal_text(n.timestamp), x5);
    let x3 = json::field(",\"sender\":"@, json::json_text(n.sender), x4);
    let x2 = json::field(",\"reason\":"@, json::json_text(n.reason), x3);
    let x1 = canonical_rest(n);
    lemma_key_version();
    json_reader::lemma_reads_last_text(",\"version\":"@, "version"@, n.version);
    lemma_key_timestamp();
    json_reader::lemma_reads_number(",\"timestamp\":"@, "timestamp"@, n.timestamp, x5, m6);
    lemma_key_sender();
    json_reader::lemma_reads_text(",\"sender\":"@, ',', "sender"@, n.sender, x4, m5);
    lemma_key_reason();
    json_reader::lemma_reads_text(",\"reason\":"@, ',', "reason"@, n.reason, x3, m4);
    lemma_key_medium();
    json_reader::lemma_reads_text(",\"medium\":"@, ',', "medium"@, n.medium, x2, m3);
    lemma_key_first_iris();
    json_reader::lemma_reads_list("{\"iris\":"@, '{', "iris"@, n.iris, x1, m2);
    assert(canonical_text(n) == json::field("{\"iris\":"@, json::json_list(n.iris), x1)) by {
        lemma_canonical_fields(n);
    }
    json_reader::lemma_reads_object(canonical_text(n), m1);
    assert(m1 =~= seq![
        ("iris"@, JsonValue::List(n.iris)),
        ("medium"@, JsonValue::Text(n.medium)),
        ("reason"@, JsonValue::Text(n.reason)),
        ("sender"@, JsonValue::Text(n.sender)),
        ("timestamp"@, JsonValue::Number(n.timestamp)),
        ("version"@, JsonValue::Text(n.version)),
    ]);
}

/// The last fields on the wire, read as members.
proof fn lemma_reads_iris(n: Notification)
    ensures
        json_reader::reads(
            json::field(",\"iris\":"@, json::json_list(n.iris), signature_text(n.signature)),
            ',',
            seq![("iris"@, JsonValue::List(n.iris))] + match n.signature {
                Some(signature) => seq![("signature"@, JsonValue::Text(signature))],
                None => seq![],
            },
        ),
{
    lemma_key_iris();
    match n.signature {
        Some(signature) => {
            lemma_key_signature();
            json_reader::lemma_reads_last_text(",\"signature\":"@, "signature"@, signature);
            assert(signature_text(n.signature) =~= json::field(
                ",\"signature\":"@,
                json::json_text(signature),
                "}"@,
            ));
            json_reader::lemma_reads_list(
                ",\"iris\":"@,
                ',',
                "iris"@,
                n.iris,
                signature_text(n.signature),
                seq![("signature"@, JsonValue::Text(signature))],
            );
        },
        None => {
            json_reader::law_list_is_read_back(n.iris, "}"@);
            json_reader::lemma_reads_last_field(
                ",\"iris\":"@,
                "iris"@,
                json::json_list(n.iris),
                JsonValue::List(n.iris),
            );
            let only = seq![("iris"@, JsonValue::List(n.iris))];
            assert(only + seq![] =~= only);
        },
    }
}

/// Read as JSON, a notification on the wire is an object with these members, in this order: each
/// field under its own name, the signature only where there is one.
pub proof fn law_payload_says_each_field(n: Notification)
    ensures
        json_reader::read_object(vstd::utf8::decode_utf8(payload(n))) == Some(
            seq![
                ("version"@, JsonValue::Text(n.version)),
                ("sender"@, JsonValue::Text(n.sender)),
                ("timestamp"@, JsonValue::Number(n.timestamp)),
                ("medium"@, JsonValue::Text(n.medium)),
                ("reason"@, JsonValue::Text(n.reason)),
                ("iris"@, JsonValue::List(n.iris)),
            ] + match n.signature {
                Some(signature) => seq![("signature"@, JsonValue::Text(signature))],
                None => seq![],
            },
        ),
{
    vstd::utf8::encode_utf8_decode_utf8(payload_text(n));
    let m7 = match n.signature {
        Some(signature) => seq![("signature"@, JsonValue::Text(signature))],
        None => seq![],
    };
    let m6 = seq![("iris"@, JsonValue::List(n.iris))] + m7;
    let m5 = seq![("reason"@, JsonValue::Text(n.reason))] + m6;
    let m4 = seq![("medium"@, JsonValue::Text(n.medium))] + m5;
    let m3 = seq![("timestamp"@, JsonValue::Number(n.timestamp))] + m4;
    let m2 = seq![("sender"@, JsonValue::Text(n.sender))] + m3;
    let m1 = seq![("version"@, JsonValue::Text(n.version))] + m2;
    let x5 = json::field(",\"iris\":"@, json::json_list(n.iris), signature_text(n.signature));
    let x4 = json::field(",\"reason\":"@, json::json_text(n.reason), x5);
    let x3 = payload_end(n);
    let x2 = json::field(",\"timestamp\":"@, text::decimal_text(n.timestamp), x3);
    let x1 = payload_rest(n);
    lemma_reads_iris(n);
    lemma_key_reason();
    json_reader::lemma_reads_text(",\"reason\":"@, ',', "reason"@, n.reason, x5, m6);
    lemma_key_medium();
    json_reader::lemma_reads_text(",\"medium\":"@, ',', "medium"@, n.medium, x4, m5);
    lemma_key_timestamp();
    json_reader::lemma_reads_number(",\"timestamp\":"@, "timestamp"@, n.timestamp, x3, m4);
    lemma_key_sender();
    json_reader::lemma_reads_text(",\"sender\":"@, ',', "sender"@, n.sender, x2, m3);
    lemma_key_first_version();
    json_reader::lemma_reads_text("{\"version\":"@, '{', "version"@, n.version, x1, m2);
    assert(payload_text(n) == json::field("{\"version\":"@, json::json_text(n.version), x1)) by {
        lemma_payload_fields(n);
    }
    json_reader::lemma_reads_object(payload_text(n), m1);
    assert(m1 =~= seq![
        ("version"@, JsonValue::Text(n.version)),
        ("sender"@, JsonValue::Text(n.sender)),
        ("timestamp"@, JsonValue::Number(n.timestamp)),
        ("medium"@, JsonValue::Text(n.medium)),
        ("reason"@, JsonValue::Text(n.reason)),
        ("iris"@, JsonValue::List(n.iris)),
    ] + m7);
}

/// A notification verifies if and only if it has a signature, its sender is the hexadecimal
/// notation of a public key, and that key accepts the signature of the canonical form. It counts
/// as unsigned if and only if it has no signature.
pub proof fn law_verification_accepts(n: Notification, o: Result<bool, Seq<char>>)
    requires
        verification(n, o),
    ensures
        o == Ok::<bool, Seq<char>>(false) <==> n.signature is None,
        o == Ok::<bool, Seq<char>>(true) <==> n.signature is Some && exists|
            key: Seq<u8>,
            signature: Seq<u8>,
        |
            {
                &&& key.len() == 32
                &&& signature.len() == 64
                &&& hexadecimal::hex_decoding(n.sender, Ok(key))
                &&& hexadecimal::hex_decoding(n.signature->0, Ok(signature))
                &&& signing::ed25519_key_valid(key)
                &&& #[trigger] signing::ed25519_accepts(
                    key,
                    vstd::utf8::encode_utf8(canonical_text(n)),
                    signature,
                )
            },
{
    if let Some(t) = n.signature {
        let sender = choose|d: Result<Seq<u8>, hexadecimal::HexError>| #[trigger]
            hexadecimal::hex_decoding(n.sender, d) && match d {
                Err(e) => o == Err::<bool, Seq<char>>(
                    "bad sender hex: "@ + hexadecimal::hex_error_text(e),
                ),
                Ok(key) => if key.len() != signing::PUBLIC_KEY_LENGTH {
                    o == Err::<bool, Seq<char>>("sender is not 32 bytes"@)
                } else {
                    signature_check(n, t, key, o)
                },
            };
        assert forall|d: Result<Seq<u8>, hexadecimal::HexError>| #[trigger]
            hexadecimal::hex_decoding(n.sender, d) implies d == sender by {
            hexadecimal::law_hex_decoding_unique(n.sender, d, sender);
        }
        if let Ok(key) = sender {
            if key.len() == 32 {
                let decoded = choose|d: Result<Seq<u8>, hexadecimal::HexError>| #[trigger]
                    hexadecimal::hex_decoding(t, d) && match d {
                        Err(e) => o == Err::<bool, Seq<char>>(
                            "bad signature hex: "@ + hexadecimal::hex_error_text(e),
                        ),
                        Ok(s) => if s.len() != signing::SIGNATURE_LENGTH {
                            o == Err::<bool, Seq<char>>("signature is not 64 bytes"@)
                        } else {
                            o == verdict(
                                signing::ed25519_key_valid(key),
                                signing::ed25519_accepts(key, canonical(n), s),
                            )
                        },
                    };
                assert forall|d: Result<Seq<u8>, hexadecimal::HexError>| #[trigger]
                    hexadecimal::hex_decoding(t, d) implies d == decoded by {
                    hexadecimal::law_hex_decoding_unique(t, d, decoded);
                }
            }
        }
    }
}

/// What is wrong with a notification that does not verify is told in the order in which it is
/// looked at: the sender, then the signature, then the key, then the signature by that key.
pub proof fn law_verification_tells_what_is_wrong(
    n: Notification,
    sender: Result<Seq<u8>, hexadecimal::HexError>,
    signature: Result<Seq<u8>, hexadecimal::HexError>,
    message: Seq<char>,
)
    requires
        verification(n, Err(message)),
        n.signature is Some,
        hexadecimal::hex_decoding(n.sender, sender),
        hexadecimal::hex_decoding(n.signature->0, signature),
    ensures
        match (sender, signature) {
            (Err(e), _) => message == "bad sender hex: "@ + hexadecimal::hex_error_text(e),
            (Ok(key), s) => if key.len() != 32 {
                message == "sender is not 32 bytes"@
            } else {
                match s {
                    Err(e) => message == "bad signature hex: "@ + hexadecimal::hex_error_text(e),
                    Ok(bytes) => if bytes.len() != 64 {
                        message == "signature is not 64 bytes"@
                    } else if !signing::ed25519_key_valid(key) {
                        message == "bad pubkey: signature error"@
                    } else {
                        message == "signature verification failed: signature error"@
                    },
                }
            },
        },
{
    let t = n.signature->0;
    assert forall|d: Result<Seq<u8>, hexadecimal::HexError>| #[trigger]
        hexadecimal::hex_decoding(n.sender, d) implies d == sender by {
        hexadecimal::law_hex_decoding_unique(n.sender, d, sender);
    }
    assert forall|d: Result<Seq<u8>, hexadecimal::HexError>| #[trigger]
        hexadecimal::hex_decoding(t, d) implies d == signature by {
        hexadecimal::law_hex_decoding_unique(t, d, signature);
    }
}

/// The signature is no part of what is signed: signing again with the same key changes nothing.
pub proof fn law_signing_is_idempotent(n: Notification, secret: Seq<u8>)
    ensures
        canonical(signed(n, secret)) == canonical(n),
        signed(signed(n, secret), secret) == signed(n, secret),
{
}

/// The verification has one outcome.
pub proof fn law_verification_unique(
    n: Notification,
    a: Result<bool, Seq<char>>,
    b: Result<bool, Seq<char>>,
)
    requires
        verification(n, a),
        verification(n, b),
    ensures
        a == b,
{
    if let Some(signature) = n.signature {
        let sender_a = choose|d: Result<Seq<u8>, hexadecimal::HexError>| #[trigger]
            hexadecimal::hex_decoding(n.sender, d);
        assert forall|d: Result<Seq<u8>, hexadecimal::HexError>| #[trigger]
            hexadecimal::hex_decoding(n.sender, d) implies d == sender_a by {
            hexadecimal::law_hex_decoding_unique(n.sender, d, sender_a);
        }
        let signature_a = choose|d: Result<Seq<u8>, hexadecimal::HexError>| #[trigger]
            hexadecimal::hex_decoding(signature, d);
        assert forall|d: Result<Seq<u8>, hexadecimal::HexError>| #[trigger]
            hexadecimal::hex_decoding(signature, d) implies d == signature_a by {
            hexadecimal::law_hex_decoding_unique(signature, d, signature_a);
        }
    }
}

/// The names of the reasons, by their numbers.
pub open spec fn reason_names() -> Seq<Seq<char>> {
    seq!["update"@, "live"@, "liveEnd"@]
}

/// The names of the media, by their numbers.
pub open spec fn medium_names() -> Seq<Seq<char>> {
    seq![
        "podcast"@,
        "podcastL"@,
        "music"@,
        "musicL"@,
        "video"@,
        "videoL"@,
        "film"@,
        "filmL"@,
        "audiobook"@,
        "audiobookL"@,
        "newsletter"@,
        "newsletterL"@,
        "blog"@,
        "blogL"@,
        "publisher"@,
        "publisherL"@,
        "course"@,
        "courseL"@,
    ]
}

/// The name at a number, or the first one where there is none.
pub open spec fn name_or_first(names: Seq<Seq<char>>, number: int) -> Seq<char> {
    if 0 <= number < names.len() {
        names[number]
    } else {
        names[0]
    }
}

/// The name of a reason. An unknown one counts as an update.
pub fn reason_to_string(reason: u16) -> (r: &'static str)
    ensures
        r@ == name_or_first(reason_names(), reason as int),
        reason == 0 ==> r@ == "update"@,
        reason == 1 ==> r@ == "live"@,
        reason == 2 ==> r@ == "liveEnd"@,
        reason > 2 ==> r@ == "update"@,
{
    match reason {
        0 => "update",
        1 => "live",
        2 => "liveEnd",
        _ => "update",
    }
}

/// The name of a medium. An unknown one counts as a podcast.
pub fn medium_to_string(medium: u16) -> (r: &'static str)
    ensures
        r@ == name_or_first(medium_names(), medium as int),
        medium == 0 ==> r@ == "podcast"@,
        medium == 1 ==> r@ == "podcastL"@,
        medium == 2 ==> r@ == "music"@,
        medium == 3 ==> r@ == "musicL"@,
        medium == 4 ==> r@ == "video"@,
        medium == 5 ==> r@ == "videoL"@,
        medium == 6 ==> r@ == "film"@,
        medium == 7 ==> r@ == "filmL"@,
        medium == 8 ==> r@ == "audiobook"@,
        medium == 9 ==> r@ == "audiobookL"@,
        medium == 10 ==> r@ == "newsletter"@,
        medium == 11 ==> r@ == "newsletterL"@,
        medium == 12 ==> r@ == "blog"@,
        medium == 13 ==> r@ == "blogL"@,
        medium == 14 ==> r@ == "publisher"@,
        medium == 15 ==> r@ == "publisherL"@,
        medium == 16 ==> r@ == "course"@,
        medium == 17 ==> r@ == "courseL"@,
        medium > 17 ==> r@ == "podcast"@,
{
    match medium {
        0 => "podcast",
        1 => "podcastL",
        2 => "music",
        3 => "musicL",
        4 => "video",
        5 => "videoL",
        6 => "film",
        7 => "filmL",
        8 => "audiobook",
        9 => "audiobookL",
        10 => "newsletter",
        11 => "newsletterL",
        12 => "blog",
        13 => "blogL",
        14 => "publisher",
        15 => "publisherL",
        16 => "course",
        17 => "courseL",
        _ => "podcast",
    }
}

/// The media come in pairs: each one at an even number is followed by its list form, whose
/// name has an `L` behind it.
pub proof fn law_list_media_follow(number: int)
    requires
        0 <= number < medium_names().len() / 2,
    ensures
        medium_names()[2 * number + 1] == medium_names()[2 * number].push('L'),
{
    reveal_strlit("podcast");
    reveal_strlit("podcastL");
    reveal_strlit("music");
    reveal_strlit("musicL");
    reveal_strlit("video");
    reveal_strlit("videoL");
    reveal_strlit("film");
    reveal_strlit("filmL");
    reveal_strlit("audiobook");
    reveal_strlit("audiobookL");
    reveal_strlit("newsletter");
    reveal_strlit("newsletterL");
    reveal_strlit("blog");
    reveal_strlit("blogL");
    reveal_strlit("publisher");
    reveal_strlit("publisherL");
    reveal_strlit("course");
    reveal_strlit("courseL");
}

/// How the outcome of a verification is shown.
pub open spec fn status_text(r: Result<bool, Seq<char>>) -> Seq<char> {
    match r {
        Ok(true) => "VALID"@,
        Ok(false) => "UNSIGNED"@,
        Err(message) => "INVALID ("@ + message + ")"@,
    }
}

/// How the outcome of a verification is shown.
pub fn signature_status(r: Result<bool, String>) -> (s: String)
    ensures
        s@ == status_text(outcome(r)),
        match r {
            Ok(true) => s@ == "VALID"@,
            Ok(false) => s@ == "UNSIGNED"@,
            Err(message) => s@ == "INVALID ("@ + message@ + ")"@,
        },
{
    match r {
        Ok(true) => "VALID".to_owned(),
        Ok(false) => "UNSIGNED".to_owned(),
        Err(message) => {
            let mut s = joined("INVALID (", message.as_str());
            s.append(")");
            s
        },
    }
}

/// A signature that the sender's key accepts passes the verification.
proof fn lemma_signed_passes(n: Notification, key: Seq<u8>, signature: Seq<u8>)
    requires
        n.sender == hexadecimal::hex_text(key),
        n.signature == Some(hexadecimal::hex_text(signature)),
        key.len() == signing::PUBLIC_KEY_LENGTH,
        signature.len() == signing::SIGNATURE_LENGTH,
        signing::ed25519_key_valid(key),
        signing::ed25519_accepts(key, canonical(n), signature),
    ensures
        forall|o: Result<bool, Seq<char>>|
            verification(n, o) <==> o == Ok::<bool, Seq<char>>(true),
{
    let passed = Ok::<bool, Seq<char>>(true);
    hexadecimal::law_hex_round_trip(key);
    hexadecimal::law_hex_round_trip(signature);
    assert(hexadecimal::hex_decoding(
        n.sender,
        Ok::<Seq<u8>, hexadecimal::HexError>(key),
    ));
    assert(hexadecimal::hex_decoding(
        hexadecimal::hex_text(signature),
        Ok::<Seq<u8>, hexadecimal::HexError>(signature),
    ));
    assert(signature_check(n, hexadecimal::hex_text(signature), key, passed));
    assert(verification(n, passed));
    assert forall|o: Result<bool, Seq<char>>| verification(n, o) implies o == passed by {
        assert(signature_check(n, hexadecimal::hex_text(signature), key, o));
    }
}

} // verus!
