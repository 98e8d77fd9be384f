use vstd::prelude::*;

use chacha20poly1305::aead::{Aead, KeyInit, Payload};
use chacha20poly1305::{XChaCha20Poly1305, XNonce};
use ed25519_dalek::{Signature, Signer, SigningKey, Verifier, VerifyingKey};
use rand::rngs::OsRng;
use sha2::{Digest, Sha256};
use x25519_dalek::{PublicKey, StaticSecret};

use crate::codec::{be16, be32, eq32, lemma_be16, lemma_be32, lp_bytes, u16_of, u32_of, Reader, Writer};
use crate::error::Error;

verus! {

pub const SUITE_CLASSICAL: u16 = 1;

pub const SUITE_STUB: u16 = 2;

pub const KIND_EPHEMERAL: u8 = 1;

pub const KIND_LEDGER: u8 = 2;

// ---------------------------------------------------------------------------
// Names for what the outside primitives compute
// ---------------------------------------------------------------------------

/// SHA-256 of the bytes.
pub uninterp spec fn sha256_of(data: Seq<u8>) -> Seq<u8>;

/// The Ed25519 verifying key of a 32-byte secret key.
pub uninterp spec fn ed25519_public_of(secret: Seq<u8>) -> Seq<u8>;

/// The Ed25519 signature of a message under a secret key.
pub uninterp spec fn ed25519_sig_of(secret: Seq<u8>, msg: Seq<u8>) -> Seq<u8>;

/// Whether 32 bytes decompress to an Ed25519 verifying key.
pub uninterp spec fn ed25519_point_ok(public: Seq<u8>) -> bool;

/// Whether an Ed25519 signature of a message checks under a verifying key.
pub uninterp spec fn ed25519_verifies(public: Seq<u8>, msg: Seq<u8>, sig: Seq<u8>) -> bool;

/// The X25519 public key of a 32-byte secret.
pub uninterp spec fn x25519_public_of(secret: Seq<u8>) -> Seq<u8>;

/// The X25519 shared secret of a secret and a peer's public key.
pub uninterp spec fn x25519_shared_of(secret: Seq<u8>, peer: Seq<u8>) -> Seq<u8>;

/// XChaCha20-Poly1305 ciphertext (with tag) of a message.
pub uninterp spec fn xchacha_seal_of(key: Seq<u8>, nonce: Seq<u8>, aad: Seq<u8>, msg: Seq<u8>) -> Seq<
    u8,
>;

/// XChaCha20-Poly1305 opening of a ciphertext; nothing when the tag fails.
pub uninterp spec fn xchacha_open_of(
    key: Seq<u8>,
    nonce: Seq<u8>,
    aad: Seq<u8>,
    ct: Seq<u8>,
) -> Option<Seq<u8>>;

// ---------------------------------------------------------------------------
// Trusted calls into the outside crates
// ---------------------------------------------------------------------------

/// `sha2::Sha256::digest`: the SHA-256 digest of the bytes, named
/// [`sha256_of`].
#[verifier::external_body]
pub fn sha256(data: &[u8]) -> (out: [u8; 32])
    ensures
        out@ == sha256_of(data@),
{
    let dig = Sha256::digest(data);
    let mut out = [0u8; 32];
    out.copy_from_slice(&dig);
    out
}

/// `std::time::SystemTime::now` as whole seconds since the Unix epoch (0
/// before the epoch). Nothing is claimed of the value.
#[verifier::external_body]
pub fn now_unix() -> u64 {
    std::time::SystemTime::now().duration_since(std::time::UNIX_EPOCH).map(|d| d.as_secs()).unwrap_or(0)
}

/// `rand::RngCore::fill_bytes` on `OsRng`: 32 bytes from the operating system.
/// Nothing is claimed of them.
#[verifier::external_body]
pub fn random32() -> [u8; 32] {
    let mut b = [0u8; 32];
    rand::RngCore::fill_bytes(&mut OsRng, &mut b);
    b
}

/// `rand::RngCore::fill_bytes` on `OsRng`: 24 bytes from the operating system.
/// Nothing is claimed of them.
#[verifier::external_body]
pub fn random24() -> [u8; 24] {
    let mut b = [0u8; 24];
    rand::RngCore::fill_bytes(&mut OsRng, &mut b);
    b
}

/// `ed25519_dalek::SigningKey::verifying_key`: the verifying key of a secret,
/// named [`ed25519_public_of`]; it always decompresses.
#[verifier::external_body]
fn ed25519_public(secret: &[u8; 32]) -> (out: [u8; 32])
    ensures
        out@ == ed25519_public_of(secret@),
        ed25519_point_ok(out@),
{
    SigningKey::from_bytes(secret).verifying_key().to_bytes()
}

/// `ed25519_dalek::SigningKey::sign`: the signature, named [`ed25519_sig_of`].
/// A signature made by a key checks under that key's verifying key.
#[verifier::external_body]
fn ed25519_sign(secret: &[u8; 32], msg: &[u8]) -> (out: [u8; 64])
    ensures
        out@ == ed25519_sig_of(secret@, msg@),
        ed25519_verifies(ed25519_public_of(secret@), msg@, out@),
{
    SigningKey::from_bytes(secret).sign(msg).to_bytes()
}

/// `ed25519_dalek::VerifyingKey::from_bytes` succeeds, named
/// [`ed25519_point_ok`].
#[verifier::external_body]
fn ed25519_decompresses(public: &[u8; 32]) -> (ok: bool)
    ensures
        ok == ed25519_point_ok(public@),
{
    VerifyingKey::from_bytes(public).is_ok()
}

/// `ed25519_dalek::VerifyingKey::verify` accepts, named [`ed25519_verifies`].
#[verifier::external_body]
fn ed25519_check(public: &[u8; 32], msg: &[u8], sig: &[u8; 64]) -> (ok: bool)
    ensures
        ok == ed25519_verifies(public@, msg@, sig@),
{
    match VerifyingKey::from_bytes(public) {
        Ok(vk) => vk.verify(msg, &Signature::from_bytes(sig)).is_ok(),
        Err(_) => false,
    }
}

/// `x25519_dalek::PublicKey::from(&StaticSecret)`: named [`x25519_public_of`].
#[verifier::external_body]
fn x25519_public(secret: &[u8; 32]) -> (out: [u8; 32])
    ensures
        out@ == x25519_public_of(secret@),
{
    PublicKey::from(&StaticSecret::from(*secret)).to_bytes()
}

/// `x25519_dalek::StaticSecret::diffie_hellman`: named [`x25519_shared_of`].
/// Both sides of an exchange compute the same secret.
#[verifier::external_body]
fn x25519_shared(secret: &[u8; 32], peer: &[u8; 32]) -> (out: [u8; 32])
    ensures
        out@ == x25519_shared_of(secret@, peer@),
        forall|other: Seq<u8>|
            other.len() == 32 && peer@ == x25519_public_of(other) ==> out@ == x25519_shared_of(
                other,
                x25519_public_of(secret@),
            ),
{
    *StaticSecret::from(*secret).diffie_hellman(&PublicKey::from(*peer)).as_bytes()
}

/// `Aead::encrypt` of `XChaCha20Poly1305`: fails only when the message has
/// 2^32 - 1 or more 64-byte blocks; otherwise the ciphertext is named
/// [`xchacha_seal_of`] and opens back to the message.
#[verifier::external_body]
fn aead_encrypt(key: &[u8; 32], nonce: &[u8; 24], aad: &[u8], msg: &[u8]) -> (out: Option<Vec<u8>>)
    ensures
        out is Some <==> msg@.len() / 64 < u32::MAX,
        out matches Some(ct) ==> ct@ == xchacha_seal_of(key@, nonce@, aad@, msg@) && xchacha_open_of(
            key@,
            nonce@,
            aad@,
            ct@,
        ) == Some(msg@),
{
    let cipher = XChaCha20Poly1305::new_from_slice(key).ok()?;
    cipher.encrypt(XNonce::from_slice(nonce), Payload { msg, aad }).ok()
}

/// `Aead::decrypt` of `XChaCha20Poly1305`: named [`xchacha_open_of`]. The
/// ciphertext of a message opens to that message.
#[verifier::external_body]
fn aead_decrypt(key: &[u8; 32], nonce: &[u8; 24], aad: &[u8], ct: &[u8]) -> (out: Option<Vec<u8>>)
    ensures
        out matches Some(p) ==> xchacha_open_of(key@, nonce@, aad@, ct@) == Some(p@),
        out is None ==> xchacha_open_of(key@, nonce@, aad@, ct@) is None,
        out is None ==> forall|m: Seq<u8>|
            !(m.len() / 64 < u32::MAX && ct@ == xchacha_seal_of(key@, nonce@, aad@, m)),
        out matches Some(p) ==> forall|m: Seq<u8>|
            m.len() / 64 < u32::MAX && ct@ == xchacha_seal_of(key@, nonce@, aad@, m) ==> p@ == m,
{
    let cipher = XChaCha20Poly1305::new_from_slice(key).ok()?;
    cipher.decrypt(XNonce::from_slice(nonce), Payload { msg: ct, aad }).ok()
}

// ---------------------------------------------------------------------------
// Keys
// ---------------------------------------------------------------------------

/// A principal's root signing key. It signs delegations, never events.
pub struct RootSecret {
    secret: [u8; 32],
}

impl View for RootSecret {
    type V = Seq<u8>;

    closed spec fn view(&self) -> Seq<u8> {
        self.secret@
    }
}

impl RootSecret {
    pub fn generate() -> (r: Self)
        ensures
            r@.len() == 32,
    {
        Self { secret: random32() }
    }

    pub fn from_bytes(bytes: &[u8; 32]) -> (r: Self)
        ensures
            r@ == bytes@,
    {
        Self { secret: *bytes }
    }

    pub fn to_bytes(&self) -> (out: [u8; 32])
        ensures
            out@ == self@,
    {
        self.secret
    }

    pub fn public(&self) -> (out: [u8; 32])
        ensures
            out@ == ed25519_public_of(self@),
            ed25519_point_ok(out@),
    {
        ed25519_public(&self.secret)
    }

    /// The stable principal id: SHA-256 of the root verifying key.
    pub fn principal_id(&self) -> (out: [u8; 32])
        ensures
            out@ == sha256_of(ed25519_public_of(self@)),
    {
        sha256(&self.public())
    }

    pub fn sign(&self, msg: &[u8]) -> (out: [u8; 64])
        ensures
            out@ == ed25519_sig_of(self@, msg@),
            ed25519_verifies(ed25519_public_of(self@), msg@, out@),
    {
        ed25519_sign(&self.secret, msg)
    }
}

/// A delegated runtime's X25519 secret for envelope key agreement.
pub struct AgreeSecret {
    secret: [u8; 32],
}

impl View for AgreeSecret {
    type V = Seq<u8>;

    closed spec fn view(&self) -> Seq<u8> {
        self.secret@
    }
}

/// All 32 bytes zero.
pub open spec fn zeros32() -> Seq<u8> {
    Seq::new(32, |i: int| 0u8)
}

impl AgreeSecret {
    pub fn generate() -> (r: Self)
        ensures
            r@.len() == 32,
    {
        Self { secret: random32() }
    }

    pub fn from_bytes(bytes: [u8; 32]) -> (r: Self)
        ensures
            r@ == bytes@,
    {
        Self { secret: bytes }
    }

    pub fn to_bytes(&self) -> (out: [u8; 32])
        ensures
            out@ == self@,
    {
        self.secret
    }

    pub fn public(&self) -> (out: [u8; 32])
        ensures
            out@ == x25519_public_of(self@),
    {
        x25519_public(&self.secret)
    }

    /// The shared secret with a peer; an all-zero result is refused.
    fn shared(&self, peer_public: &[u8; 32]) -> (res: Result<[u8; 32], Error>)
        ensures
            match res {
                Ok(s) => s@ == x25519_shared_of(self@, peer_public@) && s@ != zeros32(),
                Err(e) => x25519_shared_of(self@, peer_public@) == zeros32() && e
                    == Error::ZeroSharedSecret,
            },
            forall|other: Seq<u8>|
                other.len() == 32 && peer_public@ == x25519_public_of(other) ==> x25519_shared_of(
                    self@,
                    peer_public@,
                ) == x25519_shared_of(other, x25519_public_of(self@)),
    {
        let bytes = x25519_shared(&self.secret, peer_public);
        if is_zero32(&bytes) {
            return Err(Error::ZeroSharedSecret);
        }
        Ok(bytes)
    }
}

pub fn is_zero32(b: &[u8; 32]) -> (z: bool)
    ensures
        z == (b@ == zeros32()),
{
    let mut i: usize = 0;
    while i < 32
        invariant
            i <= 32,
            forall|j: int| 0 <= j < i ==> b@[j] == 0,
        decreases 32 - i,
    {
        if b[i] != 0 {
            proof {
                assert(b@[i as int] != zeros32()[i as int]);
            }
            return false;
        }
        i = i + 1;
    }
    assert(b@ =~= zeros32());
    true
}

/// A delegated runtime's Ed25519 signing key.
pub struct SignSecret {
    secret: [u8; 32],
}

impl View for SignSecret {
    type V = Seq<u8>;

    closed spec fn view(&self) -> Seq<u8> {
        self.secret@
    }
}

impl SignSecret {
    pub fn generate() -> (r: Self)
        ensures
            r@.len() == 32,
    {
        Self { secret: random32() }
    }

    pub fn from_bytes(bytes: &[u8; 32]) -> (r: Self)
        ensures
            r@ == bytes@,
    {
        Self { secret: *bytes }
    }

    pub fn to_bytes(&self) -> (out: [u8; 32])
        ensures
            out@ == self@,
    {
        self.secret
    }

    pub fn public(&self) -> (out: [u8; 32])
        ensures
            out@ == ed25519_public_of(self@),
            ed25519_point_ok(out@),
    {
        ed25519_public(&self.secret)
    }

    pub fn sign(&self, msg: &[u8]) -> (out: [u8; 64])
        ensures
            out@ == ed25519_sig_of(self@, msg@),
            ed25519_verifies(ed25519_public_of(self@), msg@, out@),
    {
        ed25519_sign(&self.secret, msg)
    }
}

// ---------------------------------------------------------------------------
// Signatures and suites
// ---------------------------------------------------------------------------

/// What checking a signature gives.
pub open spec fn verify_sig_result(public: Seq<u8>, msg: Seq<u8>, sig: Seq<u8>) -> Result<(), Error> {
    if !ed25519_point_ok(public) {
        Err(Error::BadVerifyingKey)
    } else if !ed25519_verifies(public, msg, sig) {
        Err(Error::SignatureRejected)
    } else {
        Ok(())
    }
}

pub fn verify_sig(public: &[u8; 32], msg: &[u8], sig: &[u8; 64]) -> (res: Result<(), Error>)
    ensures
        res == verify_sig_result(public@, msg@, sig@),
{
    if !ed25519_decompresses(public) {
        return Err(Error::BadVerifyingKey);
    }
    if !ed25519_check(public, msg, sig) {
        return Err(Error::SignatureRejected);
    }
    Ok(())
}

/// Only suite 1 seals and signs. Suite 2 is an agility stub.
pub open spec fn suite_result(suite: u16) -> Result<(), Error> {
    if suite == SUITE_CLASSICAL {
        Ok(())
    } else if suite == SUITE_STUB {
        Err(Error::SuiteStub)
    } else {
        Err(Error::UnknownSuite(suite))
    }
}

pub fn require_suite(suite: u16) -> (res: Result<(), Error>)
    ensures
        res == suite_result(suite),
{
    if suite == SUITE_CLASSICAL {
        Ok(())
    } else if suite == SUITE_STUB {
        Err(Error::SuiteStub)
    } else {
        Err(Error::UnknownSuite(suite))
    }
}

// ---------------------------------------------------------------------------
// Envelopes
// ---------------------------------------------------------------------------

/// "WENV"
pub open spec fn envelope_magic() -> Seq<u8> {
    seq![87u8, 69u8, 78u8, 86u8]
}

/// "wire-seal-v1"
pub open spec fn seal_label() -> Seq<u8> {
    seq![119u8, 105u8, 114u8, 101u8, 45u8, 115u8, 101u8, 97u8, 108u8, 45u8, 118u8, 49u8]
}

/// The AEAD key for an envelope between two X25519 keys.
pub open spec fn seal_key_of(shared: Seq<u8>, sender_x: Seq<u8>, recip_x: Seq<u8>) -> Seq<u8> {
    sha256_of(seal_label() + shared + sender_x + recip_x)
}

fn seal_key(shared: &[u8; 32], sender_x: &[u8; 32], recip_x: &[u8; 32]) -> (out: [u8; 32])
    ensures
        out@ == seal_key_of(shared@, sender_x@, recip_x@),
{
    let mut w = Writer::new();
    w.bytes(&[119u8, 105u8, 114u8, 101u8, 45u8, 115u8, 101u8, 97u8, 108u8, 45u8, 118u8, 49u8]);
    w.arr32(shared);
    w.arr32(sender_x);
    w.arr32(recip_x);
    proof {
        assert(w@ =~= seal_label() + shared@ + sender_x@ + recip_x@);
    }
    sha256(w.as_slice())
}

/// The clear header of an envelope; it is also the AEAD associated data.
pub open spec fn envelope_header(
    suite: u16,
    kind: u8,
    sender_cred_id: Seq<u8>,
    recipient_cred_id: Seq<u8>,
    channel_id: Seq<u8>,
    sender_x25519: Seq<u8>,
    nonce: Seq<u8>,
) -> Seq<u8> {
    envelope_magic() + be16(1) + be16(suite) + seq![kind] + sender_cred_id + recipient_cred_id
        + channel_id + sender_x25519 + nonce
}

/// The envelope that sealing with this nonce produces, or why sealing fails.
pub open spec fn seal_result(
    suite: u16,
    kind: u8,
    agree: Seq<u8>,
    sender_cred_id: Seq<u8>,
    recipient_cred_id: Seq<u8>,
    recipient_x25519: Seq<u8>,
    channel_id: Seq<u8>,
    nonce: Seq<u8>,
    plaintext: Seq<u8>,
) -> Result<Seq<u8>, Error> {
    match suite_result(suite) {
        Err(e) => Err(e),
        Ok(_) => {
            let sender_x = x25519_public_of(agree);
            let shared = x25519_shared_of(agree, recipient_x25519);
            if shared == zeros32() {
                Err(Error::ZeroSharedSecret)
            } else if plaintext.len() / 64 >= u32::MAX {
                Err(Error::SealFailed)
            } else {
                let key = seal_key_of(shared, sender_x, recipient_x25519);
                let header = envelope_header(
                    suite,
                    kind,
                    sender_cred_id,
                    recipient_cred_id,
                    channel_id,
                    sender_x,
                    nonce,
                );
                Ok(header + lp_bytes(xchacha_seal_of(key, nonce, header, plaintext)))
            }
        },
    }
}

fn envelope_header_bytes(
    suite: u16,
    kind: u8,
    sender_cred_id: &[u8; 32],
    recipient_cred_id: &[u8; 32],
    channel_id: &[u8; 32],
    sender_x25519: &[u8; 32],
    nonce: &[u8; 24],
) -> (out: Vec<u8>)
    ensures
        out@ == envelope_header(
            suite,
            kind,
            sender_cred_id@,
            recipient_cred_id@,
            channel_id@,
            sender_x25519@,
            nonce@,
        ),
{
    let mut w = Writer::new();
    w.bytes(&[87u8, 69u8, 78u8, 86u8]);
    w.u16(1);
    w.u16(suite);
    w.u8(kind);
    w.arr32(sender_cred_id);
    w.arr32(recipient_cred_id);
    w.arr32(channel_id);
    w.arr32(sender_x25519);
    w.bytes(nonce.as_slice());
    proof {
        assert(w@ =~= envelope_header(
            suite,
            kind,
            sender_cred_id@,
            recipient_cred_id@,
            channel_id@,
            sender_x25519@,
            nonce@,
        ));
    }
    w.finish()
}

/// Seals with a given nonce.
pub fn seal_with_nonce(
    suite: u16,
    kind: u8,
    agree: &AgreeSecret,
    sender_cred_id: &[u8; 32],
    recipient_cred_id: &[u8; 32],
    recipient_x25519: &[u8; 32],
    channel_id: &[u8; 32],
    nonce: &[u8; 24],
    plaintext: &[u8],
) -> (res: Result<Vec<u8>, Error>)
    ensures
        match res {
            Ok(env) => seal_result(
                suite,
                kind,
                agree@,
                sender_cred_id@,
                recipient_cred_id@,
                recipient_x25519@,
                channel_id@,
                nonce@,
                plaintext@,
            ) == Ok::<Seq<u8>, Error>(env@),
            Err(e) => seal_result(
                suite,
                kind,
                agree@,
                sender_cred_id@,
                recipient_cred_id@,
                recipient_x25519@,
                channel_id@,
                nonce@,
                plaintext@,
            ) == Err::<Seq<u8>, Error>(e),
        },
{
    require_suite(suite)?;
    let sender_x = agree.public();
    let shared = agree.shared(recipient_x25519)?;
    let key = seal_key(&shared, &sender_x, recipient_x25519);
    let header = envelope_header_bytes(
        suite,
        kind,
        sender_cred_id,
        recipient_cred_id,
        channel_id,
        &sender_x,
        nonce,
    );
    let ct = match aead_encrypt(&key, nonce, header.as_slice(), plaintext) {
        Some(ct) => ct,
        None => return Err(Error::SealFailed),
    };
    let mut w = Writer::new();
    w.bytes(header.as_slice());
    w.lp(ct.as_slice());
    Ok(w.finish())
}

/// Seals a plaintext to a recipient credential under a fresh random nonce.
/// The clear header (suite, kind, both cred ids, channel, sender X25519 key,
/// nonce) is the AEAD associated data.
pub fn seal(
    suite: u16,
    kind: u8,
    agree: &AgreeSecret,
    sender_cred_id: &[u8; 32],
    recipient_cred_id: &[u8; 32],
    recipient_x25519: &[u8; 32],
    channel_id: &[u8; 32],
    plaintext: &[u8],
) -> (res: Result<Vec<u8>, Error>)
    ensures
        match res {
            Ok(env) => exists|nonce: Seq<u8>|
                nonce.len() == 24 && #[trigger] seal_result(
                    suite,
                    kind,
                    agree@,
                    sender_cred_id@,
                    recipient_cred_id@,
                    recipient_x25519@,
                    channel_id@,
                    nonce,
                    plaintext@,
                ) == Ok::<Seq<u8>, Error>(env@),
            Err(e) => forall|nonce: Seq<u8>|
                nonce.len() == 24 ==> #[trigger] seal_result(
                    suite,
                    kind,
                    agree@,
                    sender_cred_id@,
                    recipient_cred_id@,
                    recipient_x25519@,
                    channel_id@,
                    nonce,
                    plaintext@,
                ) == Err::<Seq<u8>, Error>(e),
        },
{
    let nonce = random24();
    let res = seal_with_nonce(
        suite,
        kind,
        agree,
        sender_cred_id,
        recipient_cred_id,
        recipient_x25519,
        channel_id,
        &nonce,
        plaintext,
    );
    proof {
        match &res {
            Ok(env) => {},
            Err(e) => {
                assert forall|n: Seq<u8>| n.len() == 24 implies #[trigger] seal_result(
                    suite,
                    kind,
                    agree@,
                    sender_cred_id@,
                    recipient_cred_id@,
                    recipient_x25519@,
                    channel_id@,
                    n,
                    plaintext@,
                ) == Err::<Seq<u8>, Error>(*e) by {}
            },
        }
    }
    res
}

/// The layout of a sealed envelope, read back field by field.
pub proof fn lemma_sealed_layout(
    kind: u8,
    sender: Seq<u8>,
    sender_cred: Seq<u8>,
    recipient_cred: Seq<u8>,
    recipient_x: Seq<u8>,
    channel: Seq<u8>,
    nonce: Seq<u8>,
    m: Seq<u8>,
    b: Seq<u8>,
)
    requires
        x25519_public_of(sender).len() == 32,
        sender_cred.len() == 32,
        recipient_cred.len() == 32,
        channel.len() == 32,
        nonce.len() == 24,
        b.len() <= u32::MAX,
        seal_result(1, kind, sender, sender_cred, recipient_cred, recipient_x, channel, nonce, m)
            == Ok::<Seq<u8>, Error>(b),
    ensures
        b.len() >= 165,
        b.subrange(0, 4) == envelope_magic(),
        u16_of(b.subrange(4, 6)) == 1,
        u16_of(b.subrange(6, 8)) == 1,
        b[8] == kind,
        b.subrange(9, 41) == sender_cred,
        b.subrange(41, 73) == recipient_cred,
        b.subrange(73, 105) == channel,
        b.subrange(105, 137) == x25519_public_of(sender),
        b.subrange(137, 161) == nonce,
        165 + u32_of(b.subrange(161, 165)) == b.len(),
        x25519_shared_of(sender, recipient_x) != zeros32(),
        m.len() / 64 < u32::MAX,
        b.subrange(165, b.len() as int) == xchacha_seal_of(
            seal_key_of(
                x25519_shared_of(sender, recipient_x),
                x25519_public_of(sender),
                recipient_x,
            ),
            nonce,
            b.subrange(0, 161),
            m,
        ),
{
    let sx = x25519_public_of(sender);
    let header = envelope_header(1, kind, sender_cred, recipient_cred, channel, sx, nonce);
    let key = seal_key_of(x25519_shared_of(sender, recipient_x), sx, recipient_x);
    let ct = xchacha_seal_of(key, nonce, header, m);
    lemma_be16(1);
    lemma_be32(ct.len() as u32);
    assert(header.len() == 161);
    assert(b == header + lp_bytes(ct));
    assert(b.subrange(0, 161) =~= header);
    assert(b.subrange(0, 4) =~= envelope_magic());
    assert(b.subrange(4, 6) =~= be16(1));
    assert(b.subrange(6, 8) =~= be16(1));
    assert(b.subrange(9, 41) =~= sender_cred);
    assert(b.subrange(41, 73) =~= recipient_cred);
    assert(b.subrange(73, 105) =~= channel);
    assert(b.subrange(105, 137) =~= sx);
    assert(b.subrange(137, 161) =~= nonce);
    assert(b.subrange(161, 165) =~= be32(ct.len() as u32));
    assert(b.subrange(165, b.len() as int) =~= ct);
}

/// [`lemma_sealed_layout`] for every sealing to one recipient.
proof fn lemma_sealed_layout_all(recipient_cred: Seq<u8>, recipient_x: Seq<u8>, b: Seq<u8>)
    requires
        recipient_cred.len() == 32,
    ensures
        forall|sender: Seq<u8>, kind: u8, sender_cred: Seq<u8>, channel: Seq<u8>, nonce: Seq<u8>, m: Seq<u8>|
            sender.len() == 32 && x25519_public_of(sender).len() == 32 && sender_cred.len() == 32 && channel.len() == 32
                && nonce.len() == 24 && b.len() <= u32::MAX && #[trigger] seal_result(
                1,
                kind,
                sender,
                sender_cred,
                recipient_cred,
                recipient_x,
                channel,
                nonce,
                m,
            ) == Ok::<Seq<u8>, Error>(b) ==> {
                &&& b.len() >= 165
                &&& b.subrange(0, 4) == envelope_magic()
                &&& u16_of(b.subrange(4, 6)) == 1
                &&& u16_of(b.subrange(6, 8)) == 1
                &&& b[8] == kind
                &&& b.subrange(9, 41) == sender_cred
                &&& b.subrange(41, 73) == recipient_cred
                &&& b.subrange(73, 105) == channel
                &&& b.subrange(105, 137) == x25519_public_of(sender)
                &&& b.subrange(137, 161) == nonce
                &&& 165 + u32_of(b.subrange(161, 165)) == b.len()
                &&& x25519_shared_of(sender, recipient_x) != zeros32()
                &&& m.len() / 64 < u32::MAX
                &&& b.subrange(165, b.len() as int) == xchacha_seal_of(
                    seal_key_of(
                        x25519_shared_of(sender, recipient_x),
                        x25519_public_of(sender),
                        recipient_x,
                    ),
                    nonce,
                    b.subrange(0, 161),
                    m,
                )
            },
{
    assert forall|sender: Seq<u8>, kind: u8, sender_cred: Seq<u8>, channel: Seq<u8>, nonce: Seq<u8>, m: Seq<u8>|
        sender.len() == 32 && x25519_public_of(sender).len() == 32 && sender_cred.len() == 32 && channel.len() == 32
            && nonce.len() == 24 && b.len() <= u32::MAX && #[trigger] seal_result(
            1,
            kind,
            sender,
            sender_cred,
            recipient_cred,
            recipient_x,
            channel,
            nonce,
            m,
        ) == Ok::<Seq<u8>, Error>(b) implies {
            &&& b.len() >= 165
            &&& b.subrange(0, 4) == envelope_magic()
            &&& u16_of(b.subrange(4, 6)) == 1
            &&& u16_of(b.subrange(6, 8)) == 1
            &&& b[8] == kind
            &&& b.subrange(9, 41) == sender_cred
            &&& b.subrange(41, 73) == recipient_cred
            &&& b.subrange(73, 105) == channel
            &&& b.subrange(105, 137) == x25519_public_of(sender)
            &&& b.subrange(137, 161) == nonce
            &&& 165 + u32_of(b.subrange(161, 165)) == b.len()
            &&& x25519_shared_of(sender, recipient_x) != zeros32()
            &&& m.len() / 64 < u32::MAX
            &&& b.subrange(165, b.len() as int) == xchacha_seal_of(
                seal_key_of(
                    x25519_shared_of(sender, recipient_x),
                    x25519_public_of(sender),
                    recipient_x,
                ),
                nonce,
                b.subrange(0, 161),
                m,
            )
        } by {
        lemma_sealed_layout(kind, sender, sender_cred, recipient_cred, recipient_x, channel, nonce, m, b);
    }
}

/// An opened envelope.
pub struct Envelope {
    pub suite: u16,
    pub kind: u8,
    pub sender_cred_id: [u8; 32],
    pub recipient_cred_id: [u8; 32],
    pub channel_id: [u8; 32],
    pub sender_x25519: [u8; 32],
    pub plaintext: Vec<u8>,
}

pub struct EnvelopeView {
    pub suite: u16,
    pub kind: u8,
    pub sender_cred_id: Seq<u8>,
    pub recipient_cred_id: Seq<u8>,
    pub channel_id: Seq<u8>,
    pub sender_x25519: Seq<u8>,
    pub plaintext: Seq<u8>,
}

impl View for Envelope {
    type V = EnvelopeView;

    open spec fn view(&self) -> EnvelopeView {
        EnvelopeView {
            suite: self.suite,
            kind: self.kind,
            sender_cred_id: self.sender_cred_id@,
            recipient_cred_id: self.recipient_cred_id@,
            channel_id: self.channel_id@,
            sender_x25519: self.sender_x25519@,
            plaintext: self.plaintext@,
        }
    }
}

/// Length of the clear header.
pub open spec fn header_len() -> int {
    161
}

/// What opening these bytes with this X25519 secret, as this credential, gives.
pub open spec fn open_result(agree: Seq<u8>, my_cred_id: Seq<u8>, b: Seq<u8>) -> Result<
    EnvelopeView,
    Error,
> {
    let n = b.len();
    if n < 4 {
        Err(Error::Truncated)
    } else if b.subrange(0, 4) != envelope_magic() {
        Err(Error::NotAnEnvelope)
    } else if n < 6 {
        Err(Error::Truncated)
    } else if u16_of(b.subrange(4, 6)) != 1 {
        Err(Error::BadEnvelopeVersion)
    } else if n < 8 {
        Err(Error::Truncated)
    } else if suite_result(u16_of(b.subrange(6, 8))) is Err {
        Err(suite_result(u16_of(b.subrange(6, 8)))->Err_0)
    } else if n < 165 {
        Err(Error::Truncated)
    } else if n < 165 + u32_of(b.subrange(161, 165)) {
        Err(Error::Truncated)
    } else if n > 165 + u32_of(b.subrange(161, 165)) {
        Err(Error::TrailingBytes)
    } else if b.subrange(41, 73) != my_cred_id {
        Err(Error::EnvelopeNotForCredential)
    } else if x25519_shared_of(agree, b.subrange(105, 137)) == zeros32() {
        Err(Error::ZeroSharedSecret)
    } else {
        let key = seal_key_of(
            x25519_shared_of(agree, b.subrange(105, 137)),
            b.subrange(105, 137),
            x25519_public_of(agree),
        );
        match xchacha_open_of(key, b.subrange(137, 161), b.subrange(0, 161), b.subrange(165, n as int)) {
            None => Err(Error::OpenFailed),
            Some(p) => Ok(
                EnvelopeView {
                    suite: u16_of(b.subrange(6, 8)),
                    kind: b[8],
                    sender_cred_id: b.subrange(9, 41),
                    recipient_cred_id: b.subrange(41, 73),
                    channel_id: b.subrange(73, 105),
                    sender_x25519: b.subrange(105, 137),
                    plaintext: p,
                },
            ),
        }
    }
}

/// Opens an envelope addressed to `my_cred_id`. An envelope sealed to this
/// secret's public key opens back to its plaintext.
pub fn open(agree: &AgreeSecret, my_cred_id: &[u8; 32], bytes: &[u8]) -> (res: Result<
    Envelope,
    Error,
>)
    ensures
        match res {
            Ok(env) => open_result(agree@, my_cred_id@, bytes@) == Ok::<EnvelopeView, Error>(env@),
            Err(e) => open_result(agree@, my_cred_id@, bytes@) == Err::<EnvelopeView, Error>(e),
        },
        forall|sender: Seq<u8>, kind: u8, sender_cred: Seq<u8>, channel: Seq<u8>, nonce: Seq<u8>, m: Seq<u8>|
            sender.len() == 32 && x25519_public_of(sender).len() == 32 && sender_cred.len() == 32 && channel.len() == 32
                && nonce.len() == 24 && bytes@.len() <= u32::MAX && #[trigger] seal_result(
                1,
                kind,
                sender,
                sender_cred,
                my_cred_id@,
                x25519_public_of(agree@),
                channel,
                nonce,
                m,
            ) == Ok::<Seq<u8>, Error>(bytes@) ==> (res matches Ok(env) && env.plaintext@ == m
                && env.kind == kind && env.sender_cred_id@ == sender_cred && env.channel_id@
                == channel),
{
    let ghost b = bytes@;
    proof {
        lemma_sealed_layout_all(my_cred_id@, x25519_public_of(agree@), b);
    }
    let mut r = Reader::new(bytes);
    let magic = r.take(4)?;
    if magic[0] != 87 || magic[1] != 69 || magic[2] != 78 || magic[3] != 86 {
        proof {
            assert(b.subrange(0, 4) != envelope_magic()) by {
                if b.subrange(0, 4) == envelope_magic() {
                    assert(magic@ == b.subrange(0, 4));
                    assert(magic@[0] == 87 && magic@[1] == 69 && magic@[2] == 78 && magic@[3] == 86);
                }
            }
        }
        return Err(Error::NotAnEnvelope);
    }
    proof {
        assert(magic@ =~= envelope_magic());
    }
    let version = r.u16()?;
    proof {
        lemma_be16(version);
    }
    if version != 1 {
        return Err(Error::BadEnvelopeVersion);
    }
    let suite = r.u16()?;
    proof {
        lemma_be16(suite);
    }
    require_suite(suite)?;
    let kind = r.u8()?;
    proof {
        assert(b.subrange(8, 9) == seq![kind]);
        assert(b.subrange(8, 9)[0] == b[8]);
    }
    let sender_cred_id = r.arr32()?;
    let recipient_cred_id = r.arr32()?;
    let channel_id = r.arr32()?;
    let sender_x25519 = r.arr32()?;
    let nonce = r.arr24()?;
    let ghost at161 = r;
    let ct = r.lp()?;
    proof {
        assert(at161.pos() == 161);
        let lpb = b.subrange(161, 165 + ct@.len() as int);
        assert(lpb == lp_bytes(ct@));
        assert(be32(ct@.len() as u32) =~= lpb.subrange(0, 4));
        assert(b.subrange(161, 165) =~= lpb.subrange(0, 4));
        lemma_be32(ct@.len() as u32);
        assert(u32_of(b.subrange(161, 165)) == ct@.len());
    }
    r.finish()?;
    proof {
        let lpb = b.subrange(161, 165 + ct@.len() as int);
        assert(ct@ =~= lpb.subrange(4, 4 + ct@.len() as int));
        assert(ct@ =~= b.subrange(165, b.len() as int));
        assert(sender_cred_id@ == b.subrange(9, 41));
        assert(recipient_cred_id@ == b.subrange(41, 73));
        assert(channel_id@ == b.subrange(73, 105));
        assert(sender_x25519@ == b.subrange(105, 137));
        assert(nonce@ == b.subrange(137, 161));
    }
    if !eq32(&recipient_cred_id, my_cred_id) {
        return Err(Error::EnvelopeNotForCredential);
    }
    let header = &bytes[0..161];
    let my_x = agree.public();
    let shared = agree.shared(&sender_x25519)?;
    let key = seal_key(&shared, &sender_x25519, &my_x);
    let plaintext = match aead_decrypt(&key, &nonce, header, ct) {
        Some(p) => p,
        None => return Err(Error::OpenFailed),
    };
    Ok(
        Envelope {
            suite,
            kind,
            sender_cred_id,
            recipient_cred_id,
            channel_id,
            sender_x25519,
            plaintext,
        },
    )
}

/// The unencrypted part of an envelope header.
pub struct ClearHeader {
    pub suite: u16,
    pub kind: u8,
    pub channel_id: [u8; 32],
}

/// What reading the clear header gives (the ciphertext is not touched).
pub open spec fn peek_clear_result(b: Seq<u8>) -> Result<(u16, u8, Seq<u8>), Error> {
    let n = b.len();
    if n < 4 {
        Err(Error::Truncated)
    } else if b.subrange(0, 4) != envelope_magic() {
        Err(Error::NotAnEnvelope)
    } else if n < 6 {
        Err(Error::Truncated)
    } else if u16_of(b.subrange(4, 6)) != 1 {
        Err(Error::BadEnvelopeVersion)
    } else if n < 105 {
        Err(Error::Truncated)
    } else {
        Ok((u16_of(b.subrange(6, 8)), b[8], b.subrange(73, 105)))
    }
}

/// Reads the clear envelope header only. Does not decrypt.
pub fn peek_clear(bytes: &[u8]) -> (res: Result<ClearHeader, Error>)
    ensures
        match res {
            Ok(h) => peek_clear_result(bytes@) == Ok::<(u16, u8, Seq<u8>), Error>(
                (h.suite, h.kind, h.channel_id@),
            ),
            Err(e) => peek_clear_result(bytes@) == Err::<(u16, u8, Seq<u8>), Error>(e),
        },
{
    let ghost b = bytes@;
    let mut r = Reader::new(bytes);
    let magic = r.take(4)?;
    if magic[0] != 87 || magic[1] != 69 || magic[2] != 78 || magic[3] != 86 {
        proof {
            assert(b.subrange(0, 4) != envelope_magic()) by {
                if b.subrange(0, 4) == envelope_magic() {
                    assert(magic@ == b.subrange(0, 4));
                    assert(magic@[0] == 87 && magic@[1] == 69 && magic@[2] == 78 && magic@[3] == 86);
                }
            }
        }
        return Err(Error::NotAnEnvelope);
    }
    proof {
        assert(magic@ =~= envelope_magic());
    }
    let version = r.u16()?;
    proof {
        lemma_be16(version);
    }
    if version != 1 {
        return Err(Error::BadEnvelopeVersion);
    }
    let suite = r.u16()?;
    let kind = r.u8()?;
    let _sender = r.arr32()?;
    let _recipient = r.arr32()?;
    let channel_id = r.arr32()?;
    proof {
        lemma_be16(suite);
        assert(b.subrange(8, 9) == seq![kind]);
        assert(b.subrange(8, 9)[0] == b[8]);
        assert(channel_id@ == b.subrange(73, 105));
    }
    Ok(ClearHeader { suite, kind, channel_id })
}

/// What reading the suite field gives.
pub open spec fn peek_suite_result(b: Seq<u8>) -> Result<u16, Error> {
    let n = b.len();
    if n < 4 {
        Err(Error::Truncated)
    } else if b.subrange(0, 4) != envelope_magic() {
        Err(Error::NotAnEnvelope)
    } else if n < 8 {
        Err(Error::Truncated)
    } else {
        Ok(u16_of(b.subrange(6, 8)))
    }
}

/// Reads the suite field without decrypting. Unknown suites stay visible so
/// callers can reject them instead of guessing.
pub fn peek_suite(bytes: &[u8]) -> (res: Result<u16, Error>)
    ensures
        res == peek_suite_result(bytes@),
{
    let ghost b = bytes@;
    let mut r = Reader::new(bytes);
    let magic = r.take(4)?;
    if magic[0] != 87 || magic[1] != 69 || magic[2] != 78 || magic[3] != 86 {
        proof {
            assert(b.subrange(0, 4) != envelope_magic()) by {
                if b.subrange(0, 4) == envelope_magic() {
                    assert(magic@ == b.subrange(0, 4));
                    assert(magic@[0] == 87 && magic@[1] == 69 && magic@[2] == 78 && magic@[3] == 86);
                }
            }
        }
        return Err(Error::NotAnEnvelope);
    }
    proof {
        assert(magic@ =~= envelope_magic());
    }
    let _version = r.u16()?;
    let suite = r.u16()?;
    proof {
        lemma_be16(suite);
    }
    proof {
        lemma_be16(suite);
    }
    Ok(suite)
}

} // verus!
