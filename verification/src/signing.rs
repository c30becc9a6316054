//! Ed25519 signing keys, signatures and their verification.

use crate::text;
use crate::text::decimal;
use crate::hexadecimal;
use crate::hexadecimal::hex_encode;
use ed25519_dalek::{Signer, Verifier};
use vstd::prelude::*;

verus! {

/// The length of an Ed25519 secret key in bytes.
pub const SECRET_KEY_LENGTH: usize = 32;

/// The length of an Ed25519 public key in bytes.
pub const PUBLIC_KEY_LENGTH: usize = 32;

/// The length of an Ed25519 signature in bytes.
pub const SIGNATURE_LENGTH: usize = 64;

/// The public key that `ed25519_dalek` derives from a secret key.
pub uninterp spec fn ed25519_public_key(secret: Seq<u8>) -> Seq<u8>;

/// The signature that `ed25519_dalek` gives a message under a secret key.
pub uninterp spec fn ed25519_signature(secret: Seq<u8>, message: Seq<u8>) -> Seq<u8>;

/// Whether `ed25519_dalek` takes the bytes for a public key.
pub uninterp spec fn ed25519_key_valid(key: Seq<u8>) -> bool;

/// Whether `ed25519_dalek` accepts the signature of a message under a public key.
pub uninterp spec fn ed25519_accepts(key: Seq<u8>, message: Seq<u8>, signature: Seq<u8>) -> bool;

/// Calls `SigningKey::verifying_key` of `ed25519_dalek`: the public key is a function of the
/// secret key, and it is one that `VerifyingKey::from_bytes` takes.
#[verifier::external_body]
fn derive_public_key(secret: &[u8; 32]) -> (r: [u8; 32])
    ensures
        r@ == ed25519_public_key(secret@),
        ed25519_key_valid(r@),
{
    ed25519_dalek::SigningKey::from_bytes(secret).verifying_key().to_bytes()
}

/// Calls `SigningKey::sign` of `ed25519_dalek`: the signature is a function of the secret key
/// and the message, and the public key of the secret key accepts it.
#[verifier::external_body]
fn sign_message(secret: &[u8; 32], message: &[u8]) -> (r: [u8; 64])
    ensures
        r@ == ed25519_signature(secret@, message@),
        ed25519_accepts(ed25519_public_key(secret@), message@, r@),
{
    ed25519_dalek::SigningKey::from_bytes(secret).sign(message).to_bytes()
}

/// Calls `SigningKey::generate` of `ed25519_dalek` with the random generator of `rand`.
/// Nothing is claimed of the key, which is random.
#[verifier::external_body]
fn generate_secret() -> [u8; 32] {
    ed25519_dalek::SigningKey::generate(&mut rand::rng()).to_bytes()
}

/// Calls `VerifyingKey::from_bytes` of `ed25519_dalek`: whether it takes the bytes is a
/// function of them.
#[verifier::external_body]
pub(crate) fn check_public_key(key: &[u8; 32]) -> (r: bool)
    ensures
        r == ed25519_key_valid(key@),
{
    ed25519_dalek::VerifyingKey::from_bytes(key).is_ok()
}

/// Calls `VerifyingKey::verify` of `ed25519_dalek`: whether it accepts is a function of the
/// key, the message and the signature.
#[verifier::external_body]
pub(crate) fn verify_message(key: &[u8; 32], message: &[u8], signature: &[u8; 64]) -> (r: bool)
    requires
        ed25519_key_valid(key@),
    ensures
        r == ed25519_accepts(key@, message@, signature@),
{
    let key = ed25519_dalek::VerifyingKey::from_bytes(key).expect("a valid public key");
    key.verify(message, &ed25519_dalek::Signature::from_bytes(signature)).is_ok()
}

/// A key that signs notifications: its secret bytes and the public key derived from them.
#[derive(Clone, Copy)]
pub struct SigningKey {
    secret: [u8; 32],
    public: [u8; 32],
}

impl View for SigningKey {
    type V = Seq<u8>;

    closed spec fn view(&self) -> Seq<u8> {
        self.secret@
    }
}

impl SigningKey {
    #[verifier::type_invariant]
    spec fn derived(self) -> bool {
        &&& self.public@ == ed25519_public_key(self.secret@)
        &&& ed25519_key_valid(self.public@)
    }

    /// The key with these secret bytes.
    pub fn from_bytes(secret: &[u8; 32]) -> (r: SigningKey)
        ensures
            r@ == secret@,
    {
        let public = derive_public_key(secret);
        SigningKey { secret: *secret, public }
    }

    /// The secret bytes of the key.
    pub fn to_bytes(&self) -> (r: [u8; 32])
        ensures
            r@ == self@,
    {
        self.secret
    }

    /// The signature of a message, which the public key accepts.
    pub fn sign(&self, message: &[u8]) -> (r: [u8; 64])
        ensures
            r@ == ed25519_signature(self@, message@),
            ed25519_public_key(self@).len() == PUBLIC_KEY_LENGTH,
            ed25519_key_valid(ed25519_public_key(self@)),
            ed25519_accepts(ed25519_public_key(self@), message@, r@),
    {
        proof {
            use_type_invariant(self);
        }
        sign_message(&self.secret, message)
    }

    /// The public key, which verifies the signatures of this key.
    pub fn verifying_key(&self) -> (r: [u8; 32])
        ensures
            r@ == ed25519_public_key(self@),
            ed25519_key_valid(r@),
    {
        proof {
            use_type_invariant(self);
        }
        self.public
    }
}

/// The public key of a signing key in hexadecimal notation.
pub fn pubkey_hex(signing_key: &SigningKey) -> (r: String)
    ensures
        r@ == hexadecimal::hex_text(ed25519_public_key(signing_key@)),
{
    hex_encode(&signing_key.verifying_key())
}

/// The first 32 bytes of a list as an array.
pub(crate) fn array_32(bytes: &[u8]) -> (r: [u8; 32])
    requires
        bytes@.len() == 32,
    ensures
        r@ == bytes@,
{
    let mut r: [u8; 32] = [0u8;32];
    let mut i: usize = 0;
    while i < 32
        invariant
            i <= 32,
            bytes@.len() == 32,
            forall|k: int| 0 <= k < i ==> r@[k] == bytes@[k],
        decreases 32 - i,
    {
        r[i] = bytes[i];
        i += 1;
    }
    assert(r@ =~= bytes@);
    r
}

/// The first 64 bytes of a list as an array.
pub(crate) fn array_64(bytes: &[u8]) -> (r: [u8; 64])
    requires
        bytes@.len() == 64,
    ensures
        r@ == bytes@,
{
    let mut r: [u8; 64] = [0u8;64];
    let mut i: usize = 0;
    while i < 64
        invariant
            i <= 64,
            bytes@.len() == 64,
            forall|k: int| 0 <= k < i ==> r@[k] == bytes@[k],
        decreases 64 - i,
    {
        r[i] = bytes[i];
        i += 1;
    }
    assert(r@ =~= bytes@);
    r
}

/// Where a signing key came from.
pub enum KeySource {
    /// It was read from the key file.
    Loaded(SigningKey),
    /// There was no key file; the key is new and has to be written to it.
    Generated(SigningKey),
}

/// The message for a key file of the wrong length.
pub open spec fn key_length_message(path: Seq<char>, len: nat) -> Seq<char> {
    "Key file "@ + path + " has "@ + text::decimal_text(len) + " bytes, expected "@
        + text::decimal_text(SECRET_KEY_LENGTH as nat)
}

/// Takes the signing key from the contents of the key file at `path`, or generates a new one
/// where there is no such file. The file has to hold the secret bytes and nothing else.
pub fn load_or_generate_key(path: &str, contents: Option<&Vec<u8>>) -> (r: Result<
    KeySource,
    String,
>)
    ensures
        match contents {
            None => r matches Ok(KeySource::Generated(_)),
            Some(bytes) => if bytes@.len() == SECRET_KEY_LENGTH {
                r matches Ok(KeySource::Loaded(key)) && key@ == bytes@
            } else {
                r matches Err(message) && message@ == key_length_message(path@, bytes@.len())
            },
        },
        contents matches Some(bytes) ==> {
            &&& r is Ok <==> bytes@.len() == 32
            &&& r matches Err(message) ==> message@ == "Key file "@ + path@ + " has "@
                + text::decimal_text(bytes@.len()) + " bytes, expected "@ + text::decimal_text(32)
        },
{
    match contents {
        None => Ok(KeySource::Generated(SigningKey::from_bytes(&generate_secret()))),
        Some(bytes) => {
            if bytes.len() != SECRET_KEY_LENGTH {
                let mut message = "Key file ".to_owned();
                message.append(path);
                message.append(" has ");
                message.append(decimal(bytes.len() as u64).as_str());
                message.append(" bytes, expected ");
                message.append(decimal(SECRET_KEY_LENGTH as u64).as_str());
                return Err(message);
            }
            Ok(KeySource::Loaded(SigningKey::from_bytes(&array_32(bytes.as_slice()))))
        },
    }
}

} // verus!
