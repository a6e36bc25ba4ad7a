//! WireGuard keys: Curve25519, written in base64.
//!
//! WireGuard has no certificates: each peer has a pair of Curve25519 keys, the
//! public half of which is handed over by other means.

use base64::engine::general_purpose::STANDARD;
use base64::Engine;
use vstd::prelude::*;
use x25519_dalek::{PublicKey, StaticSecret};

use crate::text;

use super::error;
use super::error::{Fault, WgError};

verus! {

/// The size of a key, in bytes.
pub const KEY_LEN: usize = 32;

// ---------------------------------------------------------------------------
// What the crates compute
// ---------------------------------------------------------------------------

/// What `base64` writes of some bytes, with the standard alphabet and padding.
pub uninterp spec fn base64_encoded(bytes: Seq<u8>) -> Seq<char>;

/// What `base64` reads of a text: the bytes, or what it says is wrong.
pub uninterp spec fn base64_decoded(text: Seq<char>) -> Result<Seq<u8>, Seq<char>>;

/// The public key that `x25519_dalek` computes of a secret.
pub uninterp spec fn x25519_public(secret: Seq<u8>) -> Seq<u8>;

/// A character of the standard base64 alphabet, or its padding.
pub open spec fn is_base64_char(c: char) -> bool {
    ||| 'A' <= c <= 'Z'
    ||| 'a' <= c <= 'z'
    ||| '0' <= c <= '9'
    ||| c == '+'
    ||| c == '/'
    ||| c == '='
}

/// A text that holds no other characters.
pub open spec fn base64_only(s: Seq<char>) -> bool {
    forall|i: int| 0 <= i < s.len() ==> is_base64_char(#[trigger] s[i])
}

/// A text made of such characters, and not empty.
pub open spec fn is_base64(s: Seq<char>) -> bool {
    s.len() > 0 && base64_only(s)
}

/// A text decodes to these bytes.
pub open spec fn decodes_to(text: Seq<char>, bytes: Seq<u8>) -> bool {
    base64_decoded(text) == Ok::<_, Seq<char>>(bytes)
}

/// `base64::Engine::encode` of the standard engine, on a key.
///
/// Its result is given a name. Beside that: it is written in the standard
/// alphabet, and decodes to the bytes it was made of.
#[verifier::external_body]
fn encode(key: &[u8; KEY_LEN]) -> (r: String)
    ensures
        r@ == base64_encoded(key@),
        is_base64(r@),
        decodes_to(r@, key@),
{
    STANDARD.encode(key)
}

/// `base64::Engine::decode` of the standard engine.
///
/// Its result is given a name: the bytes, or the text of the error. Beside
/// that: a text is decoded only where it holds no character but those of the
/// standard alphabet and the padding.
#[verifier::external_body]
fn decode(encoded: &str) -> (r: Result<Vec<u8>, String>)
    ensures
        decoded_view(r) == base64_decoded(encoded@),
        r is Ok ==> base64_only(encoded@),
{
    STANDARD.decode(encoded).map_err(|e| e.to_string())
}

/// `x25519_dalek::PublicKey::from` of a `StaticSecret` with these bytes.
///
/// Its result is given a name. Beside that: the bits that clamping sets and
/// clears do not count, so that a secret and its clamped form have the same
/// public key.
#[verifier::external_body]
fn public_key(secret: &[u8; KEY_LEN]) -> (r: [u8; KEY_LEN])
    ensures
        r@ == x25519_public(secret@),
        r@ == x25519_public(clamped(secret@)),
{
    PublicKey::from(&StaticSecret::from(*secret)).to_bytes()
}

/// `x25519_dalek::StaticSecret::random`: bytes from the generator of the
/// system, of which nothing is promised.
#[verifier::external_body]
fn random_secret() -> (r: [u8; KEY_LEN]) {
    StaticSecret::random().to_bytes()
}

// ---------------------------------------------------------------------------
// Keys
// ---------------------------------------------------------------------------

/// What a decoding gave, its parts taken by their views.
pub open spec fn decoded_view(r: Result<Vec<u8>, String>) -> Result<Seq<u8>, Seq<char>> {
    match r {
        Ok(bytes) => Ok(bytes@),
        Err(text) => Err(text@),
    }
}

/// The key that a decoding gave: its bytes where there are [`KEY_LEN`] of
/// them, otherwise what is wrong.
pub open spec fn key_of_decoded(decoded: Result<Seq<u8>, Seq<char>>) -> Result<Seq<u8>, Fault> {
    match decoded {
        Err(text) => Err(Fault::Key("base64 invalide: "@ + text)),
        Ok(raw) => if raw.len() == KEY_LEN {
            Ok(raw)
        } else {
            Err(Fault::Key("longueur "@ + text::decimal(raw.len()) + " au lieu de 32"@))
        },
    }
}

/// The key that a text writes in base64, white space around it aside.
pub open spec fn key_of(encoded: Seq<char>) -> Result<Seq<u8>, Fault> {
    key_of_decoded(base64_decoded(text::trimmed(encoded)))
}

/// A key with the bits of Curve25519 set and cleared as `wg genkey` does.
pub open spec fn clamped(key: Seq<u8>) -> Seq<u8> {
    key.update(0, key[0] & 248).update(31, (key[31] & 127) | 64)
}

/// The key in what a decoding gave.
pub fn key_from(decoded: Result<Vec<u8>, String>) -> (r: Result<[u8; KEY_LEN], WgError>)
    ensures
        match key_of_decoded(decoded_view(decoded)) {
            Ok(key) => r matches Ok(k) && k@ == key,
            Err(fault) => r matches Err(e) && error::reports(e, fault),
        },
{
    match decoded {
        Err(said) => {
            let mut reason = text::copy("base64 invalide: ");
            reason.append(said.as_str());
            Err(WgError::InvalidKey(reason))
        },
        Ok(raw) => {
            if raw.len() != KEY_LEN {
                let mut reason = text::copy("longueur ");
                text::push_decimal(raw.len() as u64, &mut reason);
                reason.append(" au lieu de 32");
                return Err(WgError::InvalidKey(reason));
            }
            let mut key: [u8; KEY_LEN] = [0; KEY_LEN];
            let mut i: usize = 0;
            while i < KEY_LEN
                invariant
                    i <= KEY_LEN,
                    raw@.len() == KEY_LEN,
                    key@.len() == KEY_LEN,
                    forall|j: int| 0 <= j < i ==> key@[j] == raw@[j],
                decreases KEY_LEN - i,
            {
                key[i] = raw[i];
                i = i + 1;
            }
            assert(key@ =~= raw@);
            Ok(key)
        },
    }
}

/// The key that a text writes.
pub fn decode_key(encoded: &str) -> (r: Result<[u8; KEY_LEN], WgError>)
    ensures
        match key_of(encoded@) {
            Ok(key) => r matches Ok(k) && k@ == key,
            Err(fault) => r matches Err(e) && error::reports(e, fault),
        },
        r is Ok ==> base64_only(text::trimmed(encoded@)),
{
    let chars = text::chars_of(encoded);
    let inside = text::from_chars(text::trim(chars.as_slice()));
    key_from(decode(inside.as_str()))
}

/// Checks that a text is a key in base64.
pub fn validate_key_b64(encoded: &str) -> (r: Result<(), WgError>)
    ensures
        match key_of(encoded@) {
            Ok(_) => r is Ok,
            Err(fault) => r matches Err(e) && error::reports(e, fault),
        },
        r is Ok ==> base64_only(text::trimmed(encoded@)),
{
    match decode_key(encoded) {
        Ok(_) => Ok(()),
        Err(e) => Err(e),
    }
}

/// Sets and clears the bits of Curve25519 as `wg genkey` does.
pub fn clamp(key: [u8; KEY_LEN]) -> (r: [u8; KEY_LEN])
    ensures
        r@ == clamped(key@),
{
    let mut out = key;
    out[0] = out[0] & 248;
    out[31] = out[31] & 127;
    out[31] = out[31] | 64;
    assert(out@ =~= clamped(key@));
    out
}

/// The pair of keys of a peer.
#[derive(Clone)]
pub struct KeyPair {
    private: [u8; KEY_LEN],
    public: [u8; KEY_LEN],
}

/// What is shown of a pair: its public key, and that there is a private one.
pub open spec fn shown_pair(public: Seq<char>) -> Seq<char> {
    "KeyPair { public: \""@ + public + "\", private: \"<redacted>\" }"@
}

impl KeyPair {
    /// The private key.
    pub closed spec fn private(&self) -> Seq<u8> {
        self.private@
    }

    /// The public key.
    pub closed spec fn public(&self) -> Seq<u8> {
        self.public@
    }

    /// The private key is clamped, and the public key is that of it.
    pub open spec fn wf(&self) -> bool {
        &&& self.private().len() == KEY_LEN
        &&& self.public().len() == KEY_LEN
        &&& self.private() == clamped(self.private())
        &&& self.public() == x25519_public(self.private())
    }

    /// A new pair, from the generator of the system.
    pub fn generate() -> (r: Self)
        ensures
            r.wf(),
    {
        KeyPair::from_secret(random_secret())
    }

    /// The pair of a private key in base64.
    pub fn from_private_b64(encoded: &str) -> (r: Result<Self, WgError>)
        ensures
            match key_of(encoded@) {
                Ok(key) => {
                    &&& r matches Ok(pair)
                    &&& pair.wf()
                    &&& pair.private() == clamped(key)
                    &&& pair.public() == x25519_public(key)
                },
                Err(fault) => r matches Err(e) && error::reports(e, fault),
            },
    {
        match decode_key(encoded) {
            Ok(raw) => Ok(KeyPair::from_secret(raw)),
            Err(e) => Err(e),
        }
    }

    /// The pair of a secret.
    ///
    /// The private key is kept clamped, as `wg genkey` writes it, so that the
    /// two can stand for one another.
    pub fn from_secret(secret: [u8; KEY_LEN]) -> (r: Self)
        ensures
            r.wf(),
            r.private() == clamped(secret@),
            r.public() == x25519_public(secret@),
    {
        let public = public_key(&secret);
        let private = clamp(secret);
        proof {
            lemma_clamped_twice(secret@);
        }
        KeyPair { private, public }
    }

    /// The private key in base64, as `wg-quick` takes it.
    pub fn private_b64(&self) -> (r: String)
        ensures
            r@ == base64_encoded(self.private()),
            writes_key(r@, self.private()),
    {
        let r = encode(&self.private);
        proof {
            lemma_written_key(r@, self.private());
        }
        r
    }

    /// The public key in base64, to be handed to the peers.
    pub fn public_b64(&self) -> (r: String)
        ensures
            r@ == base64_encoded(self.public()),
            writes_key(r@, self.public()),
    {
        let r = encode(&self.public);
        proof {
            lemma_written_key(r@, self.public());
        }
        r
    }

    /// What may be shown of the pair.
    pub fn redacted(&self) -> (r: String)
        ensures
            r@ == shown_pair(base64_encoded(self.public())),
    {
        let mut out = text::copy("KeyPair { public: \"");
        out.append(self.public_b64().as_str());
        out.append("\", private: \"<redacted>\" }");
        out
    }
}

/// A new pre-shared key in base64, from the generator of the system.
pub fn generate_preshared_key() -> (r: String)
    ensures
        is_base64(r@),
        key_of(r@) is Ok,
{
    preshared_key(random_secret())
}

/// The pre-shared key in base64 that these bytes make.
///
/// Clamping does not apply to one: its bytes are those of the generator.
pub fn preshared_key(secret: [u8; KEY_LEN]) -> (r: String)
    ensures
        r@ == base64_encoded(secret@),
        writes_key(r@, secret@),
{
    let r = encode(&secret);
    proof {
        lemma_written_key(r@, secret@);
    }
    r
}

/// A text writes this key: in base64, with nothing around it.
pub open spec fn writes_key(s: Seq<char>, key: Seq<u8>) -> bool {
    is_base64(s) && key_of(s) == Ok::<_, Fault>(key)
}

/// What the encoder writes can be read as the key it was given.
proof fn lemma_written_key(s: Seq<char>, key: Seq<u8>)
    requires
        is_base64(s),
        decodes_to(s, key),
        key.len() == KEY_LEN,
    ensures
        writes_key(s, key),
{
    lemma_base64_trimmed(s);
}

/// There is no white space around a text in base64.
pub proof fn lemma_base64_trimmed(s: Seq<char>)
    requires
        base64_only(s),
    ensures
        text::trimmed(s) == s,
{
    if s.len() > 0 {
        assert(is_base64_char(s[0]));
        assert(is_base64_char(s[s.len() - 1]));
    }
}

/// Clamping twice is clamping once.
proof fn lemma_clamped_twice(key: Seq<u8>)
    requires
        key.len() == KEY_LEN,
    ensures
        clamped(clamped(key)) == clamped(key),
{
    let a = key[0];
    let b = key[31];
    assert((a & 248) & 248 == a & 248) by (bit_vector);
    assert((((b & 127) | 64) & 127) | 64 == (b & 127) | 64) by (bit_vector);
    assert(clamped(clamped(key)) =~= clamped(key));
}

// ---------------------------------------------------------------------------
// Laws
// ---------------------------------------------------------------------------

/// A pair is restored from what it writes of its private key: the same
/// private key, and the same public key.
pub proof fn law_private_key_restores_the_pair(pair: KeyPair, written: Seq<char>, restored: KeyPair)
    requires
        pair.wf(),
        writes_key(written, pair.private()),
        key_of(written) matches Ok(key) && restored.private() == clamped(key) && restored.public()
            == x25519_public(key),
    ensures
        restored.private() == pair.private(),
        restored.public() == pair.public(),
{
}

/// A private key has the form that `wg genkey` gives it: a multiple of eight,
/// with the highest bit clear and the next one set.
pub proof fn law_private_key_is_clamped(pair: KeyPair)
    requires
        pair.wf(),
    ensures
        pair.private()[0] & 7u8 == 0,
        pair.private()[31] & 128u8 == 0,
        pair.private()[31] & 64u8 == 64,
{
    let key = pair.private();
    let a = key[0];
    let b = key[31];
    assert(clamped(key)[0] == a & 248u8);
    assert(clamped(key)[31] == (b & 127u8) | 64u8);
    assert((a & 248u8) & 7u8 == 0u8) by (bit_vector);
    assert(((b & 127u8) | 64u8) & 128u8 == 0u8) by (bit_vector);
    assert(((b & 127u8) | 64u8) & 64u8 == 64u8) by (bit_vector);
}

/// Clamping touches the first and the last byte only: it takes the first down
/// to a multiple of eight, and of the last it keeps six bits below a one.
pub proof fn law_clamping_keeps_the_rest(key: Seq<u8>)
    requires
        key.len() == 32,
    ensures
        clamped(key).len() == 32,
        forall|i: int| 1 <= i <= 30 ==> #[trigger] clamped(key)[i] == key[i],
        clamped(key)[0] == key[0] - key[0] % 8,
        clamped(key)[31] == 64 + key[31] % 64,
{
    let a = key[0];
    let b = key[31];
    assert(a & 248u8 == a - a % 8) by (bit_vector);
    assert((b & 127u8) | 64u8 == 64 + b % 64) by (bit_vector);
}

/// Any 32 bytes that were decoded are a key, as they are; more or fewer are
/// none, and neither is what could not be decoded.
pub proof fn law_only_whole_keys_are_accepted(raw: Seq<u8>, said: Seq<char>)
    ensures
        raw.len() == 32 ==> key_of_decoded(Ok(raw)) == Ok::<_, Fault>(raw),
        raw.len() != 32 ==> key_of_decoded(Ok(raw)) is Err,
        key_of_decoded(Err(said)) is Err,
{
}

/// White space around a key does not count.
pub proof fn law_space_around_a_key_does_not_count(
    before: Seq<char>,
    key: Seq<char>,
    after: Seq<char>,
)
    requires
        text::all_spaces(before),
        text::is_tight(key),
        text::all_spaces(after),
    ensures
        key_of(before + key + after) == key_of_decoded(base64_decoded(key)),
        key_of(before + key + after) == key_of(key),
{
    text::law_only_space_is_trimmed(before, key, after);
    text::lemma_tight_stays(key);
}

/// What is shown of a pair tells its public key, and what is said of a key of
/// the wrong size tells that size.
pub proof fn law_messages_tell_what_they_may(public: Seq<char>, raw: Seq<u8>)
    ensures
        text::occurs(public, shown_pair(public)),
        raw.len() != 32 ==> (key_of_decoded(Ok(raw)) matches Err(Fault::Key(said))
            && text::occurs(text::decimal(raw.len()), said)),
{
    text::lemma_occurs(
        "KeyPair { public: \""@,
        public,
        "\", private: \"<redacted>\" }"@,
    );
    text::lemma_occurs("longueur "@, text::decimal(raw.len()), " au lieu de 32"@);
}

} // verus!
