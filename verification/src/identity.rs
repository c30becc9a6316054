//! The ids and the secret keys of nodes.

use crate::hexadecimal;
use crate::hexadecimal::hex_encode;
use crate::signing::array_32;
use crate::text;
use crate::text::trim;
use vstd::prelude::*;

verus! {

/// The length of a node id and of a node key in bytes.
pub const NODE_KEY_LENGTH: usize = 32;

/// The length in bytes of a key text in hexadecimal notation.
pub const HEX_KEY_LENGTH: usize = 64;

/// The length in bytes of a key text in base 32.
pub const BASE32_KEY_LENGTH: usize = 52;

/// Whether `iroh` takes the bytes for an endpoint id.
pub uninterp spec fn endpoint_id_valid(bytes: Seq<u8>) -> bool;

/// The endpoint id that `iroh` reads from a text.
pub uninterp spec fn endpoint_id_parsed(s: Seq<char>) -> Option<Seq<u8>>;

/// The secret key that `iroh` reads from a text.
pub uninterp spec fn secret_key_parsed(s: Seq<char>) -> Option<Seq<u8>>;

/// The bytes of an optional array.
pub open spec fn option_bytes(b: Option<[u8; 32]>) -> Option<Seq<u8>> {
    match b {
        Some(a) => Some(a@),
        None => None,
    }
}

/// Calls `EndpointId::from_bytes` of `iroh`: whether it takes the bytes is a function of them.
#[verifier::external_body]
fn check_endpoint_id(bytes: &[u8; 32]) -> (r: bool)
    ensures
        r == endpoint_id_valid(bytes@),
{
    iroh::EndpointId::from_bytes(bytes).is_ok()
}

/// Calls `EndpointId::from_str` of `iroh`: the id is a function of the text, and one that
/// `EndpointId::from_bytes` takes. From the lowercase hexadecimal notation of such an id it
/// reads that id.
#[verifier::external_body]
fn parse_endpoint_id(s: &str) -> (r: Option<[u8; 32]>)
    ensures
        option_bytes(r) == endpoint_id_parsed(s@),
        r matches Some(id) ==> endpoint_id_valid(id@),
        forall|id: Seq<u8>|
            id.len() == NODE_KEY_LENGTH && s@ == #[trigger] hexadecimal::hex_text(id)
                && endpoint_id_valid(id) ==> option_bytes(r) == Some(id),
{
    match s.parse::<iroh::EndpointId>() {
        Ok(id) => Some(*id.as_bytes()),
        Err(_) => None,
    }
}

/// Calls `Display` of `EndpointId` of `iroh`: it writes the lowercase hexadecimal notation,
/// from which `EndpointId::from_str` reads the id again.
#[verifier::external_body]
fn format_endpoint_id(bytes: &[u8; 32]) -> (r: String)
    requires
        endpoint_id_valid(bytes@),
    ensures
        r@ == hexadecimal::hex_text(bytes@),
        endpoint_id_parsed(r@) == Some(bytes@),
{
    iroh::EndpointId::from_bytes(bytes).expect("a valid endpoint id").to_string()
}

/// Why a text is no secret key.
#[derive(Debug, Clone, Copy, PartialEq, Eq)]
pub enum KeyTextError {
    /// It has the length of a key in hexadecimal notation and is none.
    Hex,
    /// It has the length of a key in base 32 and is none.
    Base32,
    /// It has another length.
    Length,
    /// It decodes to bytes that are no key.
    Data,
}

/// Why a text of this length in bytes is no secret key.
pub open spec fn key_text_error(len: nat) -> KeyTextError {
    if len == HEX_KEY_LENGTH {
        KeyTextError::Hex
    } else if len == BASE32_KEY_LENGTH {
        KeyTextError::Base32
    } else {
        KeyTextError::Length
    }
}

/// Calls `SecretKey::from_str` of `iroh`: the key is a function of the text. A text with a key
/// has 64 bytes, all of them lowercase hexadecimal digits, or 52 bytes in base 32; the error
/// follows from the length. From the lowercase hexadecimal notation of a key it reads that key.
#[verifier::external_body]
fn parse_secret_key(s: &str) -> (r: Result<[u8; 32], KeyTextError>)
    ensures
        option_bytes(r.ok()) == secret_key_parsed(s@),
        r is Ok ==> vstd::utf8::encode_utf8(s@).len() == HEX_KEY_LENGTH
            || vstd::utf8::encode_utf8(s@).len() == BASE32_KEY_LENGTH,
        r matches Err(e) ==> e == key_text_error(vstd::utf8::encode_utf8(s@).len()),
        forall|key: Seq<u8>|
            key.len() == NODE_KEY_LENGTH && s@ == #[trigger] hexadecimal::hex_text(key) ==> r is Ok
                && option_bytes(r.ok()) == Some(key),
{
    match s.parse::<iroh::SecretKey>() {
        Ok(key) => Ok(key.to_bytes()),
        Err(iroh::KeyParsingError::FailedToDecodeHex { .. }) => Err(KeyTextError::Hex),
        Err(iroh::KeyParsingError::FailedToDecodeBase32 { .. }) => Err(KeyTextError::Base32),
        Err(iroh::KeyParsingError::InvalidLength { .. }) => Err(KeyTextError::Length),
        Err(_) => Err(KeyTextError::Data),
    }
}

/// Calls `SecretKey::generate` of `iroh`. Nothing is claimed of the key, which is random.
#[verifier::external_body]
fn generate_secret_key() -> [u8; 32] {
    iroh::SecretKey::generate().to_bytes()
}

/// Calls `std::str::from_utf8`: it gives the text that the bytes encode in UTF-8, where they
/// encode one.
#[verifier::external_body]
fn utf8_text(bytes: &[u8]) -> (r: Option<&str>)
    ensures
        r is Some <==> vstd::utf8::valid_utf8(bytes@),
        r matches Some(s) ==> s@ == vstd::utf8::decode_utf8(bytes@),
{
    std::str::from_utf8(bytes).ok()
}

/// The id of a node: its public key.
#[derive(Debug, Clone, Copy)]
pub struct NodeId {
    bytes: [u8; 32],
}

impl View for NodeId {
    type V = Seq<u8>;

    closed spec fn view(&self) -> Seq<u8> {
        self.bytes@
    }
}

/// The id of an optional node.
pub open spec fn option_id(id: Option<NodeId>) -> Option<Seq<u8>> {
    match id {
        Some(i) => Some(i@),
        None => None,
    }
}

impl NodeId {
    #[verifier::type_invariant]
    spec fn valid(self) -> bool {
        endpoint_id_valid(self.bytes@)
    }

    /// The node with this public key, where the bytes are one.
    pub fn from_bytes(bytes: &[u8; 32]) -> (r: Option<NodeId>)
        ensures
            r is Some <==> endpoint_id_valid(bytes@),
            r matches Some(id) ==> id@ == bytes@,
    {
        if check_endpoint_id(bytes) {
            Some(NodeId { bytes: *bytes })
        } else {
            None
        }
    }

    /// The node whose id a text gives.
    pub fn parse(s: &str) -> (r: Option<NodeId>)
        ensures
            option_id(r) == endpoint_id_parsed(s@),
            forall|id: Seq<u8>|
                id.len() == NODE_KEY_LENGTH && s@ == #[trigger] hexadecimal::hex_text(id)
                    && endpoint_id_valid(id) ==> option_id(r) == Some(id),
    {
        match parse_endpoint_id(s) {
            Some(bytes) => Some(NodeId { bytes }),
            None => None,
        }
    }

    /// The bytes of the id.
    pub fn to_bytes(&self) -> (r: [u8; 32])
        ensures
            r@ == self@,
            endpoint_id_valid(r@),
    {
        proof {
            use_type_invariant(self);
        }
        self.bytes
    }

    /// The id in hexadecimal notation, from which it can be parsed again.
    pub fn to_text(&self) -> (r: String)
        ensures
            self@.len() == NODE_KEY_LENGTH,
            r@ == hexadecimal::hex_text(self@),
            endpoint_id_parsed(r@) == Some(self@),
    {
        proof {
            use_type_invariant(self);
        }
        format_endpoint_id(&self.bytes)
    }

    /// Whether two ids are the same.
    pub fn same(&self, other: &NodeId) -> (r: bool)
        ensures
            r == (self@ == other@),
    {
        let mut i: usize = 0;
        while i < NODE_KEY_LENGTH
            invariant
                i <= NODE_KEY_LENGTH,
                forall|k: int| 0 <= k < i ==> self.bytes@[k] == other.bytes@[k],
            decreases NODE_KEY_LENGTH - i,
        {
            if self.bytes[i] != other.bytes[i] {
                return false;
            }
            i += 1;
        }
        assert(self.bytes@ =~= other.bytes@);
        true
    }
}

/// The secret key of a node.
#[derive(Clone, Copy)]
pub struct NodeKey {
    bytes: [u8; 32],
}

impl View for NodeKey {
    type V = Seq<u8>;

    closed spec fn view(&self) -> Seq<u8> {
        self.bytes@
    }
}

impl NodeKey {
    /// The key with these bytes.
    pub fn from_bytes(bytes: &[u8; 32]) -> (r: NodeKey)
        ensures
            r@ == bytes@,
    {
        NodeKey { bytes: *bytes }
    }

    /// The bytes of the key.
    pub fn to_bytes(&self) -> (r: [u8; 32])
        ensures
            r@ == self@,
    {
        self.bytes
    }

    /// The key in hexadecimal notation.
    pub fn to_text(&self) -> (r: String)
        ensures
            r@ == hexadecimal::hex_text(self@),
            self@.len() == NODE_KEY_LENGTH,
    {
        hex_encode(&self.bytes)
    }
}

/// Where a node key came from.
pub enum NodeKeySource {
    /// It was read from the key file.
    Loaded(NodeKey),
    /// There was no key file; the key is new and has to be written to it.
    Generated(NodeKey),
}

/// The key that a key file holds as text.
pub open spec fn text_key(raw: Seq<u8>) -> Option<Seq<u8>> {
    if vstd::utf8::valid_utf8(raw) {
        secret_key_parsed(text::trimmed(vstd::utf8::decode_utf8(raw)))
    } else {
        None
    }
}

/// The key of a key file, given the one that it holds as text: that one, and else the raw
/// bytes where there are as many as a key has.
pub open spec fn key_or_raw(parsed: Option<Seq<u8>>, raw: Seq<u8>) -> Option<Seq<u8>> {
    match parsed {
        Some(key) => Some(key),
        None => if raw.len() == NODE_KEY_LENGTH {
            Some(raw)
        } else {
            None
        },
    }
}

/// The message for a key file that holds no key.
pub open spec fn no_key_message(path: Seq<char>) -> Seq<char> {
    "key file "@ + path + " has invalid length"@
}

/// The key of the key file at `path`, given the one that it holds as text.
pub fn node_key_of(parsed: Option<[u8; 32]>, raw: &Vec<u8>, path: &str) -> (r: Result<
    NodeKey,
    String,
>)
    ensures
        match key_or_raw(option_bytes(parsed), raw@) {
            Some(key) => r matches Ok(k) && k@ == key,
            None => r matches Err(message) && message@ == no_key_message(path@),
        },
        match parsed {
            Some(key) => r matches Ok(k) && k@ == key@,
            None => if raw@.len() == 32 {
                r matches Ok(k) && k@ == raw@
            } else {
                r matches Err(message) && message@ == "key file "@ + path@ + " has invalid length"@
            },
        },
{
    match parsed {
        Some(bytes) => Ok(NodeKey { bytes }),
        None => {
            if raw.len() == NODE_KEY_LENGTH {
                Ok(NodeKey { bytes: array_32(raw.as_slice()) })
            } else {
                let mut message = "key file ".to_owned();
                message.append(path);
                message.append(" has invalid length");
                Err(message)
            }
        },
    }
}

/// The key that a key file holds as text. A file of as many bytes as a key has holds none.
fn read_text_key(raw: &Vec<u8>) -> (r: Option<[u8; 32]>)
    ensures
        option_bytes(r) == text_key(raw@),
        raw@.len() == NODE_KEY_LENGTH ==> r is None,
{
    match utf8_text(raw.as_slice()) {
        Some(s) => {
            let t = trim(s);
            proof {
                vstd::utf8::decode_utf8_encode_utf8(raw@);
                lemma_trimmed_encoding(s@);
            }
            match parse_secret_key(t.as_str()) {
                Ok(bytes) => Some(bytes),
                Err(_) => None,
            }
        },
        None => None,
    }
}

/// Takes the node key from the contents of the key file at `path`, or generates a new one where
/// there is no such file. The file holds the key as text or as raw bytes. A new key is written
/// as raw bytes, from which it is loaded again.
pub fn load_or_create_node_key(path: &str, contents: Option<&Vec<u8>>) -> (r: Result<
    NodeKeySource,
    String,
>)
    ensures
        match contents {
            None => r matches Ok(NodeKeySource::Generated(_)),
            Some(raw) => match key_or_raw(text_key(raw@), raw@) {
                Some(key) => r matches Ok(NodeKeySource::Loaded(k)) && k@ == key,
                None => r matches Err(message) && message@ == no_key_message(path@),
            },
        },
        contents matches Some(raw) ==> raw@.len() == NODE_KEY_LENGTH ==> (r matches Ok(
            NodeKeySource::Loaded(k),
        ) && k@ == raw@),
        contents matches Some(raw) ==> raw@.len() != 32 ==> if vstd::utf8::valid_utf8(raw@)
            && secret_key_parsed(text::trimmed(vstd::utf8::decode_utf8(raw@))) is Some {
            r matches Ok(NodeKeySource::Loaded(k)) && secret_key_parsed(
                text::trimmed(vstd::utf8::decode_utf8(raw@)),
            ) == Some(k@)
        } else {
            r matches Err(message) && message@ == "key file "@ + path@ + " has invalid length"@
        },
{
    match contents {
        None => Ok(NodeKeySource::Generated(NodeKey { bytes: generate_secret_key() })),
        Some(raw) => match node_key_of(read_text_key(raw), raw, path) {
            Ok(key) => Ok(NodeKeySource::Loaded(key)),
            Err(message) => Err(message),
        },
    }
}

/// Takes the node key from the text of the key file, or generates a new one where there is no
/// such file. A new key is written in hexadecimal notation, from which it is loaded again.
pub fn load_or_create_text_key(contents: Option<&str>) -> (r: Result<NodeKeySource, KeyTextError>)
    ensures
        match contents {
            None => r matches Ok(NodeKeySource::Generated(_)),
            Some(s) => match secret_key_parsed(text::trimmed(s@)) {
                Some(key) => r matches Ok(NodeKeySource::Loaded(k)) && k@ == key,
                None => r matches Err(e) && e == key_text_error(
                    vstd::utf8::encode_utf8(text::trimmed(s@)).len(),
                ),
            },
        },
        contents matches Some(s) ==> forall|key: Seq<u8>|
            key.len() == NODE_KEY_LENGTH && s@ == #[trigger] hexadecimal::hex_text(key) ==> (r matches Ok(
                NodeKeySource::Loaded(k),
            ) && k@ == key),
        contents matches Some(s) ==> (r matches Err(e) ==> {
            let size = vstd::utf8::encode_utf8(text::trimmed(s@)).len();
            &&& e is Hex <==> size == 64
            &&& e is Base32 <==> size == 52
            &&& e is Length <==> size != 64 && size != 52
        }),
{
    match contents {
        None => Ok(NodeKeySource::Generated(NodeKey { bytes: generate_secret_key() })),
        Some(s) => {
            let t = trim(s);
            proof {
                assert forall|key: Seq<u8>| s@ == #[trigger] hexadecimal::hex_text(key) implies t@
                    == s@ by {
                    lemma_hex_text_is_entry(key);
                }
            }
            match parse_secret_key(t.as_str()) {
                Ok(bytes) => Ok(NodeKeySource::Loaded(NodeKey { bytes })),
                Err(e) => Err(e),
            }
        },
    }
}

/// The hexadecimal notation of bytes has no white space.
pub proof fn lemma_hex_text_is_entry(bytes: Seq<u8>)
    ensures
        text::trimmed(hexadecimal::hex_text(bytes)) == hexadecimal::hex_text(bytes),
        bytes.len() > 0 ==> text::is_entry(hexadecimal::hex_text(bytes), '\n'),
{
    let s = hexadecimal::hex_text(bytes);
    assert forall|i: int| 0 <= i < s.len() implies !text::is_white_space(#[trigger] s[i]) by {
        let b = bytes[i / 2];
        assert(0 <= b as int / 16 < 16);
        assert(0 <= b as int % 16 < 16);
    }
    text::lemma_trimmed_stays(s);
    if s.contains('\n') {
        let k = choose|k: int| 0 <= k < s.len() && s[k] == '\n';
        assert(!text::is_white_space(s[k]));
    }
}

/// A part of a text takes no more bytes than the text.
proof fn lemma_part_encoding(s: Seq<char>, i: int, j: int)
    requires
        0 <= i <= j <= s.len(),
    ensures
        vstd::utf8::encode_utf8(s.subrange(i, j)).len() <= vstd::utf8::encode_utf8(s).len(),
    decreases s.len(),
{
    let part = s.subrange(i, j);
    if s.len() > 0 {
        let rest = s.drop_first();
        if i > 0 {
            lemma_part_encoding(rest, i - 1, j - 1);
            assert(rest.subrange(i - 1, j - 1) =~= part);
        } else if j > 0 {
            lemma_part_encoding(rest, 0, j - 1);
            assert(part.drop_first() =~= rest.subrange(0, j - 1));
            assert(part[0] == s[0]);
        } else {
            assert(part =~= Seq::<char>::empty());
            assert(vstd::utf8::encode_utf8(part).len() == 0);
        }
    } else {
        assert(part =~= s);
    }
}

/// A trimmed text takes no more bytes than the text.
proof fn lemma_trimmed_encoding(s: Seq<char>)
    ensures
        vstd::utf8::encode_utf8(text::trimmed(s)).len() <= vstd::utf8::encode_utf8(s).len(),
{
    text::lemma_trimmed_is_part(s);
    let (i, j) = choose|i: int, j: int|
        0 <= i <= j <= s.len() && #[trigger] s.subrange(i, j) == text::trimmed(s);
    lemma_part_encoding(s, i, j);
}

} // verus!
