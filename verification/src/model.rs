use vstd::prelude::*;

use crate::codec::{
    lemma_lp_at, lp_at, be16, be32, be64, eq32, lemma_be16, lemma_be32, lemma_be64, lp_bytes, tag_is, u16_of, u32_of,
    u64_of, Reader, Writer,
};
use crate::crypto::{
    ed25519_point_ok, ed25519_public_of, ed25519_sig_of, ed25519_verifies, random32, sha256,
    sha256_of, suite_result, verify_sig, verify_sig_result, x25519_public_of, now_unix, require_suite,
    AgreeSecret, RootSecret, SignSecret,
};
use crate::error::Error;
use crate::text::{chars_match, chars_of, find_char, next_char, trim_range, trimmed, utf8_decode};
use vstd::utf8::{decode_utf8, encode_utf8, valid_utf8};
use vstd::string::{StrSliceExecFns, StringSliceAdditionalSpecFns};

verus! {

pub const CAP_APPEND: u32 = 1;

pub const CAP_PROPOSE: u32 = 2;

pub const CAP_ACCEPT: u32 = 4;

pub const CAP_SPAWN: u32 = 8;

pub const CAP_ALL: u32 = 15;

pub const T_MEMBER_ADD: u16 = 1;

pub const T_MEMBER_CAP: u16 = 2;

pub const T_PROPOSE: u16 = 3;

pub const T_ACCEPT: u16 = 4;

pub const T_PROCEED: u16 = 5;

pub const T_PROPOSE_REVERT: u16 = 6;

pub const T_ACCEPT_REVERT: u16 = 7;

pub const T_SHARE: u16 = 8;

pub const T_SNAPSHOT: u16 = 9;

pub const T_ACK_SNAPSHOT: u16 = 10;

pub const T_HANDLE_ROTATE: u16 = 11;

pub const T_CRED_REVOKE: u16 = 12;

/// The capability a member needs to append an event of this type.
pub open spec fn cap_needed(typ: u16) -> Option<u32> {
    if typ == T_MEMBER_ADD || typ == T_MEMBER_CAP || typ == T_CRED_REVOKE || typ == T_HANDLE_ROTATE {
        Some(CAP_SPAWN)
    } else if typ == T_PROPOSE || typ == T_PROPOSE_REVERT || typ == T_SHARE || typ == T_SNAPSHOT {
        Some(CAP_PROPOSE)
    } else if typ == T_ACCEPT || typ == T_ACCEPT_REVERT || typ == T_ACK_SNAPSHOT {
        Some(CAP_ACCEPT)
    } else if typ == T_PROCEED {
        Some(CAP_PROPOSE)
    } else {
        None
    }
}

pub fn cap_for_event(typ: u16) -> (r: Option<u32>)
    ensures
        r == cap_needed(typ),
{
    if typ == T_MEMBER_ADD || typ == T_MEMBER_CAP || typ == T_CRED_REVOKE || typ == T_HANDLE_ROTATE {
        Some(CAP_SPAWN)
    } else if typ == T_PROPOSE || typ == T_PROPOSE_REVERT || typ == T_SHARE || typ == T_SNAPSHOT {
        Some(CAP_PROPOSE)
    } else if typ == T_ACCEPT || typ == T_ACCEPT_REVERT || typ == T_ACK_SNAPSHOT {
        Some(CAP_ACCEPT)
    } else if typ == T_PROCEED {
        Some(CAP_PROPOSE)
    } else {
        None
    }
}

// ---------------------------------------------------------------------------
// Credentials
// ---------------------------------------------------------------------------

/// A delegated credential: the root key vouches for a runtime's two keys,
/// its capabilities and its validity window. `not_after = 0` is already
/// expired.
#[derive(Clone, Copy)]
pub struct Credential {
    pub root_pub: [u8; 32],
    pub runtime_id: [u8; 32],
    pub not_before: u64,
    pub not_after: u64,
    pub caps: u32,
    pub ed25519_pub: [u8; 32],
    pub x25519_pub: [u8; 32],
    pub parent_sig: [u8; 64],
}

pub struct CredentialView {
    pub root_pub: Seq<u8>,
    pub runtime_id: Seq<u8>,
    pub not_before: u64,
    pub not_after: u64,
    pub caps: u32,
    pub ed25519_pub: Seq<u8>,
    pub x25519_pub: Seq<u8>,
    pub parent_sig: Seq<u8>,
}

impl View for Credential {
    type V = CredentialView;

    open spec fn view(&self) -> CredentialView {
        CredentialView {
            root_pub: self.root_pub@,
            runtime_id: self.runtime_id@,
            not_before: self.not_before,
            not_after: self.not_after,
            caps: self.caps,
            ed25519_pub: self.ed25519_pub@,
            x25519_pub: self.x25519_pub@,
            parent_sig: self.parent_sig@,
        }
    }
}

/// "WCRD"
pub open spec fn cred_tag() -> Seq<u8> {
    seq![87u8, 67u8, 82u8, 68u8]
}

/// The bytes the root key signs.
pub open spec fn cred_canonical(c: CredentialView) -> Seq<u8> {
    cred_tag() + be16(1) + c.root_pub + c.runtime_id + be64(c.not_before) + be64(c.not_after) + be32(
        c.caps,
    ) + c.ed25519_pub + c.x25519_pub
}

/// The stored form: the signed bytes, then the root's signature.
pub open spec fn cred_encoding(c: CredentialView) -> Seq<u8> {
    cred_canonical(c) + c.parent_sig
}

/// A credential's id: SHA-256 of its stored form.
pub open spec fn cred_id(c: CredentialView) -> Seq<u8> {
    sha256_of(cred_encoding(c))
}

/// The principal a credential belongs to: SHA-256 of the root key.
pub open spec fn cred_principal(c: CredentialView) -> Seq<u8> {
    sha256_of(c.root_pub)
}

/// All key and signature fields have their fixed sizes.
pub open spec fn cred_sized(c: CredentialView) -> bool {
    &&& c.root_pub.len() == 32
    &&& c.runtime_id.len() == 32
    &&& c.ed25519_pub.len() == 32
    &&& c.x25519_pub.len() == 32
    &&& c.parent_sig.len() == 64
}

/// Whether the root key's signature over the credential checks.
pub open spec fn cred_parent_result(c: CredentialView) -> Result<(), Error> {
    if verify_sig_result(c.root_pub, cred_canonical(c), c.parent_sig) is Ok {
        Ok(())
    } else {
        Err(Error::ParentSignatureRejected)
    }
}

/// What decoding a stored credential gives. It is 218 bytes long.
#[verifier::opaque]
pub open spec fn cred_decode_result(b: Seq<u8>) -> Result<CredentialView, Error> {
    let n = b.len();
    if n < 4 {
        Err(Error::Truncated)
    } else if b.subrange(0, 4) != cred_tag() {
        Err(Error::NotACredential)
    } else if n < 6 {
        Err(Error::Truncated)
    } else if u16_of(b.subrange(4, 6)) != 1 {
        Err(Error::BadCredentialVersion)
    } else if n < 218 {
        Err(Error::Truncated)
    } else if n > 218 {
        Err(Error::TrailingBytes)
    } else {
        let c = CredentialView {
            root_pub: b.subrange(6, 38),
            runtime_id: b.subrange(38, 70),
            not_before: u64_of(b.subrange(70, 78)),
            not_after: u64_of(b.subrange(78, 86)),
            caps: u32_of(b.subrange(86, 90)),
            ed25519_pub: b.subrange(90, 122),
            x25519_pub: b.subrange(122, 154),
            parent_sig: b.subrange(154, 218),
        };
        match cred_parent_result(c) {
            Err(e) => Err(e),
            Ok(_) => Ok(c),
        }
    }
}

/// A stored credential decodes back to itself when its root signature checks.
pub proof fn lemma_cred_roundtrip(c: CredentialView)
    requires
        cred_sized(c),
    ensures
        cred_encoding(c).len() == 218,
        cred_decode_result(cred_encoding(c)) == (match cred_parent_result(c) {
            Err(e) => Err(e),
            Ok(_) => Ok::<CredentialView, Error>(c),
        }),
{
    reveal(cred_decode_result);
    let b = cred_encoding(c);
    lemma_be16(1);
    lemma_be64(c.not_before);
    lemma_be64(c.not_after);
    lemma_be32(c.caps);
    assert(b.subrange(0, 4) =~= cred_tag());
    assert(b.subrange(4, 6) =~= be16(1));
    assert(b.subrange(6, 38) =~= c.root_pub);
    assert(b.subrange(38, 70) =~= c.runtime_id);
    assert(b.subrange(70, 78) =~= be64(c.not_before));
    assert(b.subrange(78, 86) =~= be64(c.not_after));
    assert(b.subrange(86, 90) =~= be32(c.caps));
    assert(b.subrange(90, 122) =~= c.ed25519_pub);
    assert(b.subrange(122, 154) =~= c.x25519_pub);
    assert(b.subrange(154, 218) =~= c.parent_sig);
}

/// Only the stored form of the result decodes to it, and only once its
/// root signature checks.
pub proof fn lemma_cred_decode_canonical(b: Seq<u8>)
    ensures
        cred_decode_result(b) matches Ok(c) ==> cred_encoding(c) == b && cred_sized(c) && cred_parent_result(c) is Ok,
{
    reveal(cred_decode_result);
    if cred_decode_result(b) is Ok {
        let c = cred_decode_result(b)->Ok_0;
        lemma_be64(u64_of(b.subrange(70, 78)));
        crate::codec::lemma_u64_of(b.subrange(70, 78));
        crate::codec::lemma_u64_of(b.subrange(78, 86));
        crate::codec::lemma_u32_of(b.subrange(86, 90));
        crate::codec::lemma_u16_of(b.subrange(4, 6));
        assert(cred_encoding(c) =~= b);
    }
}

impl Credential {
    pub fn canonical(&self) -> (out: Vec<u8>)
        ensures
            out@ == cred_canonical(self@),
    {
        let mut w = Writer::new();
        w.bytes(&[87u8, 67u8, 82u8, 68u8]);
        w.u16(1);
        w.arr32(&self.root_pub);
        w.arr32(&self.runtime_id);
        w.u64(self.not_before);
        w.u64(self.not_after);
        w.u32(self.caps);
        w.arr32(&self.ed25519_pub);
        w.arr32(&self.x25519_pub);
        proof {
            assert(w@ =~= cred_canonical(self@));
        }
        w.finish()
    }

    pub fn principal_id(&self) -> (out: [u8; 32])
        ensures
            out@ == cred_principal(self@),
    {
        sha256(&self.root_pub)
    }

    pub fn id(&self) -> (out: [u8; 32])
        ensures
            out@ == cred_id(self@),
    {
        let buf = self.encode();
        sha256(buf.as_slice())
    }

    pub fn encode(&self) -> (out: Vec<u8>)
        ensures
            out@ == cred_encoding(self@),
    {
        let mut buf = self.canonical();
        let mut i: usize = 0;
        while i < 64
            invariant
                i <= 64,
                buf@ == cred_canonical(self@) + self.parent_sig@.subrange(0, i as int),
            decreases 64 - i,
        {
            buf.push(self.parent_sig[i]);
            i = i + 1;
            assert(buf@ =~= cred_canonical(self@) + self.parent_sig@.subrange(0, i as int));
        }
        assert(self.parent_sig@.subrange(0, 64) =~= self.parent_sig@);
        buf
    }

    pub fn decode(bytes: &[u8]) -> (res: Result<Self, Error>)
        ensures
            match res {
                Ok(c) => cred_decode_result(bytes@) == Ok::<CredentialView, Error>(c@),
                Err(e) => cred_decode_result(bytes@) == Err::<CredentialView, Error>(e),
            },
    {
        proof {
            reveal(cred_decode_result);
        }
        let ghost b = bytes@;
        let mut r = Reader::new(bytes);
        let magic = r.take(4)?;
        if !tag_is(magic, &[87u8, 67u8, 82u8, 68u8]) {
            proof {
                assert([87u8, 67u8, 82u8, 68u8]@ =~= cred_tag());
            }
            return Err(Error::NotACredential);
        }
        proof {
            assert([87u8, 67u8, 82u8, 68u8]@ =~= cred_tag());
        }
        let version = r.u16()?;
        proof {
            lemma_be16(version);
        }
        if version != 1 {
            return Err(Error::BadCredentialVersion);
        }
        let root_pub = r.arr32()?;
        let runtime_id = r.arr32()?;
        let not_before = r.u64()?;
        let not_after = r.u64()?;
        let caps = r.u32()?;
        let ed25519_pub = r.arr32()?;
        let x25519_pub = r.arr32()?;
        let parent_sig = r.arr64()?;
        r.finish()?;
        proof {
            lemma_be64(not_before);
            lemma_be64(not_after);
            lemma_be32(caps);
            assert(root_pub@ == b.subrange(6, 38));
            assert(runtime_id@ == b.subrange(38, 70));
            assert(be64(not_before) == b.subrange(70, 78));
            assert(be64(not_after) == b.subrange(78, 86));
            assert(be32(caps) == b.subrange(86, 90));
            assert(ed25519_pub@ == b.subrange(90, 122));
            assert(x25519_pub@ == b.subrange(122, 154));
            assert(parent_sig@ == b.subrange(154, 218));
        }
        let cred = Self {
            root_pub,
            runtime_id,
            not_before,
            not_after,
            caps,
            ed25519_pub,
            x25519_pub,
            parent_sig,
        };
        cred.verify_parent()?;
        Ok(cred)
    }

    /// The root key's signature over the credential checks.
    pub fn verify_parent(&self) -> (res: Result<(), Error>)
        ensures
            res == cred_parent_result(self@),
    {
        let canonical = self.canonical();
        match verify_sig(&self.root_pub, canonical.as_slice(), &self.parent_sig) {
            Ok(_) => {},
            Err(_) => return Err(Error::ParentSignatureRejected),
        }
        if !eq32(&self.principal_id(), &sha256(&self.root_pub)) {
            return Err(Error::PrincipalIdMismatch);
        }
        Ok(())
    }
}


// ---------------------------------------------------------------------------
// Runtime secrets
// ---------------------------------------------------------------------------

/// A delegated runtime: its credential and the two secrets behind it.
pub struct RuntimeSecret {
    pub cred: Credential,
    pub sign: SignSecret,
    pub agree: AgreeSecret,
}

pub struct RuntimeView {
    pub cred: CredentialView,
    pub sign: Seq<u8>,
    pub agree: Seq<u8>,
}

impl View for RuntimeSecret {
    type V = RuntimeView;

    open spec fn view(&self) -> RuntimeView {
        RuntimeView { cred: self.cred@, sign: self.sign@, agree: self.agree@ }
    }
}

/// The credential's keys are the public halves of the runtime's secrets.
pub open spec fn runtime_wf(r: RuntimeView) -> bool {
    &&& r.cred.ed25519_pub == ed25519_public_of(r.sign)
    &&& ed25519_point_ok(r.cred.ed25519_pub)
    &&& r.cred.x25519_pub == x25519_public_of(r.agree)
}

/// "WRUN"
pub open spec fn runtime_tag() -> Seq<u8> {
    seq![87u8, 82u8, 85u8, 78u8]
}

/// The runtime file: both secrets, then the stored credential.
pub open spec fn runtime_encoding(r: RuntimeView) -> Seq<u8> {
    runtime_tag() + be16(1) + r.sign + r.agree + lp_bytes(cred_encoding(r.cred))
}

/// What decoding a runtime file gives.
pub open spec fn runtime_decode_result(b: Seq<u8>) -> Result<RuntimeView, Error> {
    let n = b.len();
    if n < 4 {
        Err(Error::Truncated)
    } else if b.subrange(0, 4) != runtime_tag() {
        Err(Error::NotARuntimeFile)
    } else if n < 6 {
        Err(Error::Truncated)
    } else if u16_of(b.subrange(4, 6)) != 1 {
        Err(Error::BadRuntimeVersion)
    } else if n < 74 {
        Err(Error::Truncated)
    } else if n < 74 + u32_of(b.subrange(70, 74)) {
        Err(Error::Truncated)
    } else if n > 74 + u32_of(b.subrange(70, 74)) {
        Err(Error::TrailingBytes)
    } else {
        match cred_decode_result(b.subrange(74, n as int)) {
            Err(e) => Err(e),
            Ok(c) => {
                let r = RuntimeView { cred: c, sign: b.subrange(6, 38), agree: b.subrange(38, 70) };
                if c.ed25519_pub != ed25519_public_of(r.sign) || c.x25519_pub != x25519_public_of(
                    r.agree,
                ) {
                    Err(Error::RuntimeSecretsMismatch)
                } else {
                    Ok(r)
                }
            },
        }
    }
}

impl RuntimeSecret {
    /// A credential for fresh keys, signed by the root, valid from `now` for
    /// `ttl_secs` seconds (`ttl_secs = 0` is already expired), with a fresh
    /// runtime id.
    pub fn issue_at(
        root: &RootSecret,
        ttl_secs: u64,
        caps: u32,
        now: u64,
        runtime_id: [u8; 32],
        sign: SignSecret,
        agree: AgreeSecret,
    ) -> (r: Self)
        ensures
            runtime_wf(r@),
            r.sign@ == sign@,
            r.agree@ == agree@,
            r.cred.root_pub@ == ed25519_public_of(root@),
            r.cred.runtime_id == runtime_id,
            r.cred.not_before == now,
            r.cred.not_after == (if ttl_secs == 0 {
                0
            } else if now + ttl_secs > u64::MAX {
                u64::MAX
            } else {
                (now + ttl_secs) as u64
            }),
            r.cred.caps == caps,
            r.cred.parent_sig@ == ed25519_sig_of(root@, cred_canonical(r.cred@)),
            cred_parent_result(r.cred@) is Ok,
    {
        let not_after = if ttl_secs == 0 {
            0
        } else {
            now.saturating_add(ttl_secs)
        };
        let mut cred = Credential {
            root_pub: root.public(),
            runtime_id,
            not_before: now,
            not_after,
            caps,
            ed25519_pub: sign.public(),
            x25519_pub: agree.public(),
            parent_sig: [0u8; 64],
        };
        let canonical = cred.canonical();
        cred.parent_sig = root.sign(canonical.as_slice());
        proof {
            assert(cred_canonical(cred@) == canonical@);
        }
        Self { cred, sign, agree }
    }

    /// [`RuntimeSecret::issue_at`] with the clock, fresh keys and a fresh
    /// runtime id.
    pub fn issue(root: &RootSecret, ttl_secs: u64, caps: u32) -> (r: Self)
        ensures
            runtime_wf(r@),
            r.cred.root_pub@ == ed25519_public_of(root@),
            ttl_secs == 0 ==> r.cred.not_after == 0,
            ttl_secs > 0 ==> r.cred.not_after == (if r.cred.not_before + ttl_secs > u64::MAX {
                u64::MAX
            } else {
                (r.cred.not_before + ttl_secs) as u64
            }),
            r.cred.caps == caps,
            cred_parent_result(r.cred@) is Ok,
    {
        let sign = SignSecret::generate();
        let agree = AgreeSecret::generate();
        let now = now_unix();
        Self::issue_at(root, ttl_secs, caps, now, random32(), sign, agree)
    }

    pub fn cred_id(&self) -> (out: [u8; 32])
        ensures
            out@ == cred_id(self.cred@),
    {
        self.cred.id()
    }

    pub fn encode(&self) -> (out: Vec<u8>)
        ensures
            out@ == runtime_encoding(self@),
    {
        let mut w = Writer::new();
        w.bytes(&[87u8, 82u8, 85u8, 78u8]);
        w.u16(1);
        w.arr32(&self.sign.to_bytes());
        w.arr32(&self.agree.to_bytes());
        let cred = self.cred.encode();
        w.lp(cred.as_slice());
        proof {
            assert(w@ =~= runtime_encoding(self@));
        }
        w.finish()
    }

    pub fn decode(bytes: &[u8]) -> (res: Result<Self, Error>)
        ensures
            match res {
                Ok(r) => runtime_decode_result(bytes@) == Ok::<RuntimeView, Error>(r@) && runtime_wf(r@),
                Err(e) => runtime_decode_result(bytes@) == Err::<RuntimeView, Error>(e),
            },
    {
        let ghost b = bytes@;
        let mut r = Reader::new(bytes);
        let magic = r.take(4)?;
        proof {
            assert([87u8, 82u8, 85u8, 78u8]@ =~= runtime_tag());
        }
        if !tag_is(magic, &[87u8, 82u8, 85u8, 78u8]) {
            return Err(Error::NotARuntimeFile);
        }
        let version = r.u16()?;
        proof {
            lemma_be16(version);
        }
        if version != 1 {
            return Err(Error::BadRuntimeVersion);
        }
        let sign_b = r.arr32()?;
        let agree_b = r.arr32()?;
        let ghost at70 = r;
        let cred_bytes = r.lp()?;
        proof {
            let lpb = b.subrange(70, 74 + cred_bytes@.len() as int);
            assert(lpb == lp_bytes(cred_bytes@));
            assert(be32(cred_bytes@.len() as u32) =~= lpb.subrange(0, 4));
            assert(b.subrange(70, 74) =~= lpb.subrange(0, 4));
            lemma_be32(cred_bytes@.len() as u32);
        }
        r.finish()?;
        proof {
            let lpb = b.subrange(70, 74 + cred_bytes@.len() as int);
            assert(cred_bytes@ =~= lpb.subrange(4, 4 + cred_bytes@.len() as int));
            assert(cred_bytes@ =~= b.subrange(74, b.len() as int));
            assert(sign_b@ == b.subrange(6, 38));
            assert(agree_b@ == b.subrange(38, 70));
        }
        let cred = Credential::decode(cred_bytes)?;
        let sign = SignSecret::from_bytes(&sign_b);
        let agree = AgreeSecret::from_bytes(agree_b);
        if !eq32(&sign.public(), &cred.ed25519_pub) || !eq32(&agree.public(), &cred.x25519_pub) {
            return Err(Error::RuntimeSecretsMismatch);
        }
        Ok(Self { cred, sign, agree })
    }
}

/// A stored runtime file decodes back to the runtime, when its credential
/// is signed by its root and carries the public halves of its secrets.
pub proof fn lemma_runtime_roundtrip(r: RuntimeView)
    requires
        runtime_wf(r),
        cred_sized(r.cred),
        cred_parent_result(r.cred) is Ok,
        r.sign.len() == 32,
        r.agree.len() == 32,
    ensures
        runtime_decode_result(runtime_encoding(r)) == Ok::<RuntimeView, Error>(r),
{
    let b = runtime_encoding(r);
    let ce = cred_encoding(r.cred);
    lemma_cred_roundtrip(r.cred);
    lemma_be16(1);
    lemma_be32(218);
    assert(b.len() == 292);
    assert(b.subrange(0, 4) =~= runtime_tag());
    assert(b.subrange(4, 6) =~= be16(1));
    assert(b.subrange(6, 38) =~= r.sign);
    assert(b.subrange(38, 70) =~= r.agree);
    assert(b.subrange(70, 74) =~= be32(218));
    assert(b.subrange(74, 292) =~= ce);
}

// ---------------------------------------------------------------------------
// Events
// ---------------------------------------------------------------------------

/// One signed commitment event on a channel log.
#[derive(Clone)]
pub struct Event {
    pub suite: u16,
    pub channel_id: [u8; 32],
    pub prev: [u8; 32],
    pub typ: u16,
    pub signer_cred_id: [u8; 32],
    pub signer_pub: [u8; 32],
    pub body: Vec<u8>,
    pub sig: [u8; 64],
}

pub struct EventView {
    pub suite: u16,
    pub channel_id: Seq<u8>,
    pub prev: Seq<u8>,
    pub typ: u16,
    pub signer_cred_id: Seq<u8>,
    pub signer_pub: Seq<u8>,
    pub body: Seq<u8>,
    pub sig: Seq<u8>,
}

impl View for Event {
    type V = EventView;

    open spec fn view(&self) -> EventView {
        EventView {
            suite: self.suite,
            channel_id: self.channel_id@,
            prev: self.prev@,
            typ: self.typ,
            signer_cred_id: self.signer_cred_id@,
            signer_pub: self.signer_pub@,
            body: self.body@,
            sig: self.sig@,
        }
    }
}

/// "WEVT"
pub open spec fn event_tag() -> Seq<u8> {
    seq![87u8, 69u8, 86u8, 84u8]
}

/// The bytes an event's signature covers; its id is their hash.
pub open spec fn event_canonical(e: EventView) -> Seq<u8> {
    event_tag() + be16(1) + be16(e.suite) + e.channel_id + e.prev + be16(e.typ) + e.signer_cred_id
        + e.signer_pub + lp_bytes(e.body)
}

pub open spec fn event_encoding(e: EventView) -> Seq<u8> {
    event_canonical(e) + e.sig
}

/// An event's id: SHA-256 of its signed bytes.
pub open spec fn event_id(e: EventView) -> Seq<u8> {
    sha256_of(event_canonical(e))
}

pub open spec fn event_sized(e: EventView) -> bool {
    &&& e.channel_id.len() == 32
    &&& e.prev.len() == 32
    &&& e.signer_cred_id.len() == 32
    &&& e.signer_pub.len() == 32
    &&& e.sig.len() == 64
    &&& e.body.len() <= u32::MAX
}

/// Whether an event's suite is usable and its signature checks.
pub open spec fn event_sig_result(e: EventView) -> Result<(), Error> {
    match suite_result(e.suite) {
        Err(err) => Err(err),
        Ok(_) => if verify_sig_result(e.signer_pub, event_canonical(e), e.sig) is Ok {
            Ok(())
        } else {
            Err(Error::EventSignatureRejected)
        },
    }
}

/// What signing an event with a runtime gives.
pub open spec fn event_sign_result(e: EventView, r: RuntimeView) -> Result<EventView, Error> {
    match suite_result(e.suite) {
        Err(err) => Err(err),
        Ok(_) => if e.signer_pub != r.cred.ed25519_pub || e.signer_cred_id != cred_id(r.cred) {
            Err(Error::SignerDoesNotMatchRuntime)
        } else if r.cred.ed25519_pub == r.cred.root_pub {
            Err(Error::RootCannotSign)
        } else {
            Ok(EventView { sig: ed25519_sig_of(r.sign, event_canonical(e)), ..e })
        },
    }
}

/// What decoding a stored event gives.
#[verifier::opaque]
pub open spec fn event_decode_result(b: Seq<u8>) -> Result<EventView, Error> {
    let n = b.len();
    if n < 4 {
        Err(Error::Truncated)
    } else if b.subrange(0, 4) != event_tag() {
        Err(Error::NotAnEvent)
    } else if n < 6 {
        Err(Error::Truncated)
    } else if u16_of(b.subrange(4, 6)) != 1 {
        Err(Error::BadEventVersion)
    } else if n < 142 {
        Err(Error::Truncated)
    } else {
        let l = u32_of(b.subrange(138, 142)) as int;
        if n < 142 + l + 64 {
            Err(Error::Truncated)
        } else if n > 142 + l + 64 {
            Err(Error::TrailingBytes)
        } else {
            Ok(
                EventView {
                    suite: u16_of(b.subrange(6, 8)),
                    channel_id: b.subrange(8, 40),
                    prev: b.subrange(40, 72),
                    typ: u16_of(b.subrange(72, 74)),
                    signer_cred_id: b.subrange(74, 106),
                    signer_pub: b.subrange(106, 138),
                    body: b.subrange(142, 142 + l),
                    sig: b.subrange(142 + l, n as int),
                },
            )
        }
    }
}

/// A stored event decodes back to itself.
pub proof fn lemma_event_roundtrip(e: EventView)
    requires
        event_sized(e),
    ensures
        event_decode_result(event_encoding(e)) == Ok::<EventView, Error>(e),
{
    reveal(event_decode_result);
    let b = event_encoding(e);
    lemma_be16(1);
    lemma_be16(e.suite);
    lemma_be16(e.typ);
    lemma_be32(e.body.len() as u32);
    let l = e.body.len() as int;
    assert(b.subrange(0, 4) =~= event_tag());
    assert(b.subrange(4, 6) =~= be16(1));
    assert(b.subrange(6, 8) =~= be16(e.suite));
    assert(b.subrange(8, 40) =~= e.channel_id);
    assert(b.subrange(40, 72) =~= e.prev);
    assert(b.subrange(72, 74) =~= be16(e.typ));
    assert(b.subrange(74, 106) =~= e.signer_cred_id);
    assert(b.subrange(106, 138) =~= e.signer_pub);
    assert(b.subrange(138, 142) =~= be32(e.body.len() as u32));
    assert(b.subrange(142, 142 + l) =~= e.body);
    assert(b.subrange(142 + l, b.len() as int) =~= e.sig);
}

/// Where a stored event's length lies: its body length is written at bytes
/// 138 to 142, and the signature closes it.
proof fn lemma_event_encoding_len(e: EventView)
    requires
        event_sized(e),
    ensures
        event_encoding(e).len() == 206 + e.body.len(),
        u32_of(event_encoding(e).subrange(138, 142)) == e.body.len(),
{
    let b = event_encoding(e);
    lemma_be32(e.body.len() as u32);
    assert(b.subrange(138, 142) =~= be32(e.body.len() as u32));
}

/// A stored event decodes only at its own length: no strict prefix of it,
/// and nothing it is a strict prefix of, decodes.
pub proof fn lemma_event_decode_refuses(b: Seq<u8>, x: Seq<u8>)
    requires
        event_decode_result(b) is Ok,
    ensures
        forall|n: int| 0 <= n < b.len() ==> #[trigger] event_decode_result(b.subrange(0, n)) is Err,
        x.len() > 0 ==> event_decode_result(b + x) is Err,
{
    lemma_event_decode_canonical(b);
    let e = event_decode_result(b)->Ok_0;
    lemma_event_encoding_len(e);
    assert forall|n: int| 0 <= n < b.len() implies #[trigger] event_decode_result(b.subrange(0, n)) is Err by {
        let p = b.subrange(0, n);
        lemma_event_decode_canonical(p);
        if event_decode_result(p) is Ok {
            let e2 = event_decode_result(p)->Ok_0;
            lemma_event_encoding_len(e2);
            assert(p.subrange(138, 142) =~= b.subrange(138, 142));
        }
    }
    if x.len() > 0 {
        let q = b + x;
        lemma_event_decode_canonical(q);
        if event_decode_result(q) is Ok {
            let e2 = event_decode_result(q)->Ok_0;
            lemma_event_encoding_len(e2);
            assert(q.subrange(138, 142) =~= b.subrange(138, 142));
        }
    }
}

/// A stored credential decodes only from exactly 218 bytes that begin with
/// its tag and version 1, and only once its root signature checks.
pub proof fn lemma_cred_decode_refuses(b: Seq<u8>)
    ensures
        cred_decode_result(b) is Ok ==> b.len() == 218 && b.subrange(0, 4) == cred_tag() && u16_of(b.subrange(4, 6))
            == 1 && cred_parent_result(cred_decode_result(b)->Ok_0) is Ok,
{
    reveal(cred_decode_result);
}

/// Only the stored form of the result decodes to it.
pub proof fn lemma_event_decode_canonical(b: Seq<u8>)
    ensures
        event_decode_result(b) matches Ok(e) ==> event_encoding(e) == b && event_sized(e),
{
    reveal(event_decode_result);
    if event_decode_result(b) is Ok {
        let e = event_decode_result(b)->Ok_0;
        crate::codec::lemma_u16_of(b.subrange(4, 6));
        crate::codec::lemma_u16_of(b.subrange(6, 8));
        crate::codec::lemma_u16_of(b.subrange(72, 74));
        crate::codec::lemma_u32_of(b.subrange(138, 142));
        assert(event_encoding(e) =~= b);
    }
}

impl Event {
    pub fn canonical(&self) -> (out: Vec<u8>)
        ensures
            out@ == event_canonical(self@),
    {
        let mut w = Writer::new();
        w.bytes(&[87u8, 69u8, 86u8, 84u8]);
        w.u16(1);
        w.u16(self.suite);
        w.arr32(&self.channel_id);
        w.arr32(&self.prev);
        w.u16(self.typ);
        w.arr32(&self.signer_cred_id);
        w.arr32(&self.signer_pub);
        w.lp(self.body.as_slice());
        proof {
            assert(w@ =~= event_canonical(self@));
        }
        w.finish()
    }

    pub fn id(&self) -> (out: [u8; 32])
        ensures
            out@ == event_id(self@),
    {
        sha256(self.canonical().as_slice())
    }

    /// Signs the event with a delegated runtime. The root key never signs
    /// events, and suite 2 cannot sign. A runtime whose credential matches
    /// its secrets produces an event whose signature checks.
    pub fn sign(self, runtime: &RuntimeSecret) -> (res: Result<Self, Error>)
        ensures
            match res {
                Ok(e) => event_sign_result(self@, runtime@) == Ok::<EventView, Error>(e@),
                Err(err) => event_sign_result(self@, runtime@) == Err::<EventView, Error>(err),
            },
            runtime_wf(runtime@) ==> (res matches Ok(e) ==> event_sig_result(e@) is Ok),
    {
        let mut ev = self;
        require_suite(ev.suite)?;
        if !eq32(&ev.signer_pub, &runtime.cred.ed25519_pub) || !eq32(
            &ev.signer_cred_id,
            &runtime.cred.id(),
        ) {
            return Err(Error::SignerDoesNotMatchRuntime);
        }
        if eq32(&runtime.cred.ed25519_pub, &runtime.cred.root_pub) {
            return Err(Error::RootCannotSign);
        }
        let canonical = ev.canonical();
        ev.sig = runtime.sign.sign(canonical.as_slice());
        proof {
            assert(event_canonical(ev@) == event_canonical(self@));
            assert(ev@ == EventView { sig: ed25519_sig_of(runtime.sign@, event_canonical(self@)), ..self@ });
        }
        Ok(ev)
    }

    /// A copy of the event.
    pub fn duplicate(&self) -> (out: Self)
        ensures
            out@ == self@,
    {
        Self {
            suite: self.suite,
            channel_id: self.channel_id,
            prev: self.prev,
            typ: self.typ,
            signer_cred_id: self.signer_cred_id,
            signer_pub: self.signer_pub,
            body: vstd::slice::slice_to_vec(self.body.as_slice()),
            sig: self.sig,
        }
    }

    pub fn verify_sig(&self) -> (res: Result<(), Error>)
        ensures
            res == event_sig_result(self@),
    {
        require_suite(self.suite)?;
        match verify_sig(&self.signer_pub, self.canonical().as_slice(), &self.sig) {
            Ok(_) => Ok(()),
            Err(_) => Err(Error::EventSignatureRejected),
        }
    }

    pub fn encode(&self) -> (out: Vec<u8>)
        ensures
            out@ == event_encoding(self@),
    {
        let mut w = Writer::new();
        w.bytes(self.canonical().as_slice());
        w.bytes(self.sig.as_slice());
        w.finish()
    }

    pub fn decode(bytes: &[u8]) -> (res: Result<Self, Error>)
        ensures
            match res {
                Ok(e) => event_decode_result(bytes@) == Ok::<EventView, Error>(e@),
                Err(err) => event_decode_result(bytes@) == Err::<EventView, Error>(err),
            },
    {
        proof {
            reveal(event_decode_result);
        }
        let ghost b = bytes@;
        let mut r = Reader::new(bytes);
        let magic = r.take(4)?;
        proof {
            assert([87u8, 69u8, 86u8, 84u8]@ =~= event_tag());
        }
        if !tag_is(magic, &[87u8, 69u8, 86u8, 84u8]) {
            return Err(Error::NotAnEvent);
        }
        let version = r.u16()?;
        proof {
            lemma_be16(version);
        }
        if version != 1 {
            return Err(Error::BadEventVersion);
        }
        let suite = r.u16()?;
        let channel_id = r.arr32()?;
        let prev = r.arr32()?;
        let typ = r.u16()?;
        let signer_cred_id = r.arr32()?;
        let signer_pub = r.arr32()?;
        let ghost at138 = r;
        let body = r.lp()?;
        proof {
            let lpb = b.subrange(138, 142 + body@.len() as int);
            assert(lpb == lp_bytes(body@));
            assert(be32(body@.len() as u32) =~= lpb.subrange(0, 4));
            assert(b.subrange(138, 142) =~= lpb.subrange(0, 4));
            lemma_be32(body@.len() as u32);
            assert(body@ =~= lpb.subrange(4, 4 + body@.len() as int));
            assert(body@ =~= b.subrange(142, 142 + body@.len() as int));
        }
        let sig = r.arr64()?;
        r.finish()?;
        proof {
            lemma_be16(suite);
            lemma_be16(typ);
            assert(channel_id@ == b.subrange(8, 40));
            assert(prev@ == b.subrange(40, 72));
            assert(signer_cred_id@ == b.subrange(74, 106));
            assert(signer_pub@ == b.subrange(106, 138));
        }
        Ok(
            Self {
                suite,
                channel_id,
                prev,
                typ,
                signer_cred_id,
                signer_pub,
                body: vstd::slice::slice_to_vec(body),
                sig,
            },
        )
    }
}


// ---------------------------------------------------------------------------
// Event bodies
// ---------------------------------------------------------------------------

/// A `member_add` body: the stored credential, the granted caps, the invite
/// token and the handle generation.
pub open spec fn member_add_encoding(c: CredentialView, caps: u32, token: Seq<u8>, handle_gen: u64) -> Seq<u8> {
    lp_bytes(cred_encoding(c)) + be32(caps) + token + be64(handle_gen)
}

/// What parsing a `member_add` body gives.
pub open spec fn member_add_result(b: Seq<u8>) -> Result<(CredentialView, u32, Seq<u8>, u64), Error> {
    let n = b.len();
    if n < 4 {
        Err(Error::Truncated)
    } else {
        let l = u32_of(b.subrange(0, 4)) as int;
        if n < 4 + l {
            Err(Error::Truncated)
        } else {
            match cred_decode_result(b.subrange(4, 4 + l)) {
                Err(e) => Err(e),
                Ok(c) => if n < 48 + l {
                    Err(Error::Truncated)
                } else if n > 48 + l {
                    Err(Error::TrailingBytes)
                } else {
                    Ok(
                        (
                            c,
                            u32_of(b.subrange(4 + l, 8 + l)),
                            b.subrange(8 + l, 40 + l),
                            u64_of(b.subrange(40 + l, 48 + l)),
                        ),
                    )
                },
            }
        }
    }
}

pub fn member_add_body(cred: &Credential, caps: u32, token: &[u8; 32], handle_gen: u64) -> (out: Vec<u8>)
    ensures
        out@ == member_add_encoding(cred@, caps, token@, handle_gen),
{
    let encoded = cred.encode();
    let mut w = Writer::new();
    w.lp(encoded.as_slice());
    w.u32(caps);
    w.arr32(token);
    w.u64(handle_gen);
    proof {
        assert(w@ =~= member_add_encoding(cred@, caps, token@, handle_gen));
    }
    w.finish()
}

pub fn parse_member_add(body: &[u8]) -> (res: Result<(Credential, u32, [u8; 32], u64), Error>)
    ensures
        match res {
            Ok((c, caps, token, gen)) => member_add_result(body@) == Ok::<
                (CredentialView, u32, Seq<u8>, u64),
                Error,
            >((c@, caps, token@, gen)),
            Err(e) => member_add_result(body@) == Err::<(CredentialView, u32, Seq<u8>, u64), Error>(e),
        },
{
    let ghost b = body@;
    let mut r = Reader::new(body);
    let cred_bytes = r.lp()?;
    proof {
        let lpb = b.subrange(0, 4 + cred_bytes@.len() as int);
        assert(lpb == lp_bytes(cred_bytes@));
        assert(be32(cred_bytes@.len() as u32) =~= lpb.subrange(0, 4));
        assert(b.subrange(0, 4) =~= lpb.subrange(0, 4));
        lemma_be32(cred_bytes@.len() as u32);
        assert(cred_bytes@ =~= lpb.subrange(4, 4 + cred_bytes@.len() as int));
        assert(cred_bytes@ =~= b.subrange(4, 4 + cred_bytes@.len() as int));
    }
    let cred = Credential::decode(cred_bytes)?;
    let caps = r.u32()?;
    let token = r.arr32()?;
    let gen = r.u64()?;
    r.finish()?;
    proof {
        lemma_be32(caps);
        lemma_be64(gen);
    }
    Ok((cred, caps, token, gen))
}

/// A `propose` body: the proposal id, then the SHA-256 of the content.
pub open spec fn proposal_encoding(proposal_id: Seq<u8>, content_hash: Seq<u8>) -> Seq<u8> {
    proposal_id + content_hash
}

pub open spec fn proposal_result(b: Seq<u8>) -> Result<(Seq<u8>, Seq<u8>), Error> {
    if b.len() < 64 {
        Err(Error::Truncated)
    } else if b.len() > 64 {
        Err(Error::TrailingBytes)
    } else {
        Ok((b.subrange(0, 32), b.subrange(32, 64)))
    }
}

pub fn proposal_body(proposal_id: &[u8; 32], content_hash: &[u8; 32]) -> (out: Vec<u8>)
    ensures
        out@ == proposal_encoding(proposal_id@, content_hash@),
{
    let mut w = Writer::new();
    w.arr32(proposal_id);
    w.arr32(content_hash);
    w.finish()
}

pub fn parse_proposal(body: &[u8]) -> (res: Result<([u8; 32], [u8; 32]), Error>)
    ensures
        match res {
            Ok((id, hash)) => proposal_result(body@) == Ok::<(Seq<u8>, Seq<u8>), Error>((id@, hash@)),
            Err(e) => proposal_result(body@) == Err::<(Seq<u8>, Seq<u8>), Error>(e),
        },
{
    let mut r = Reader::new(body);
    let id = r.arr32()?;
    let hash = r.arr32()?;
    r.finish()?;
    Ok((id, hash))
}

/// Bodies of `accept`, `proceed`, the revert pair and `cred_revoke`: one id.
pub fn id_body(id: &[u8; 32]) -> (out: Vec<u8>)
    ensures
        out@ == id@,
{
    vstd::slice::slice_to_vec(id.as_slice())
}

pub open spec fn id_body_result(b: Seq<u8>) -> Result<Seq<u8>, Error> {
    if b.len() < 32 {
        Err(Error::Truncated)
    } else if b.len() > 32 {
        Err(Error::TrailingBytes)
    } else {
        Ok(b)
    }
}

pub fn parse_id_body(body: &[u8]) -> (res: Result<[u8; 32], Error>)
    ensures
        match res {
            Ok(id) => id_body_result(body@) == Ok::<Seq<u8>, Error>(id@),
            Err(e) => id_body_result(body@) == Err::<Seq<u8>, Error>(e),
        },
{
    let mut r = Reader::new(body);
    let id = r.arr32()?;
    r.finish()?;
    proof {
        assert(body@.subrange(0, 32) =~= body@);
    }
    Ok(id)
}


// ---------------------------------------------------------------------------
// Invites
// ---------------------------------------------------------------------------

/// An invite file: a channel, the inviter's contact handle and its
/// generation, an expiry, a single-use token, the channel's genesis event,
/// and the inviter's signature over all of it.
#[derive(Clone)]
pub struct Invite {
    pub channel_id: [u8; 32],
    pub handle: String,
    pub handle_gen: u64,
    pub expires: u64,
    pub token: [u8; 32],
    pub genesis: Event,
    pub sig: [u8; 64],
}

pub struct InviteView {
    pub channel_id: Seq<u8>,
    pub handle: Seq<char>,
    pub handle_gen: u64,
    pub expires: u64,
    pub token: Seq<u8>,
    pub genesis: EventView,
    pub sig: Seq<u8>,
}

impl View for Invite {
    type V = InviteView;

    open spec fn view(&self) -> InviteView {
        InviteView {
            channel_id: self.channel_id@,
            handle: self.handle@,
            handle_gen: self.handle_gen,
            expires: self.expires,
            token: self.token@,
            genesis: self.genesis@,
            sig: self.sig@,
        }
    }
}

/// "WINV"
pub open spec fn invite_tag() -> Seq<u8> {
    seq![87u8, 73u8, 78u8, 86u8]
}

/// The bytes the inviter signs.
pub open spec fn invite_canonical(i: InviteView) -> Seq<u8> {
    invite_tag() + be16(1) + i.channel_id + lp_bytes(encode_utf8(i.handle)) + be64(i.handle_gen)
        + be64(i.expires) + i.token + lp_bytes(event_encoding(i.genesis))
}

pub open spec fn invite_encoding(i: InviteView) -> Seq<u8> {
    invite_canonical(i) + i.sig
}

/// What decoding an invite file gives.
pub open spec fn invite_decode_result(b: Seq<u8>) -> Result<InviteView, Error> {
    let n = b.len();
    if n < 4 {
        Err(Error::Truncated)
    } else if b.subrange(0, 4) != invite_tag() {
        Err(Error::NotAnInvite)
    } else if n < 6 {
        Err(Error::Truncated)
    } else if u16_of(b.subrange(4, 6)) != 1 {
        Err(Error::BadInviteVersion)
    } else if n < 42 {
        Err(Error::Truncated)
    } else {
        let l1 = u32_of(b.subrange(38, 42)) as int;
        if n < 42 + l1 {
            Err(Error::Truncated)
        } else if !valid_utf8(b.subrange(42, 42 + l1)) {
            Err(Error::HandleUtf8)
        } else if n < 94 + l1 {
            Err(Error::Truncated)
        } else {
            let l2 = u32_of(b.subrange(90 + l1, 94 + l1)) as int;
            if n < 94 + l1 + l2 {
                Err(Error::Truncated)
            } else {
                match event_decode_result(b.subrange(94 + l1, 94 + l1 + l2)) {
                    Err(e) => Err(e),
                    Ok(g) => if n < 158 + l1 + l2 {
                        Err(Error::Truncated)
                    } else if n > 158 + l1 + l2 {
                        Err(Error::TrailingBytes)
                    } else {
                        let inv = InviteView {
                            channel_id: b.subrange(6, 38),
                            handle: decode_utf8(b.subrange(42, 42 + l1)),
                            handle_gen: u64_of(b.subrange(42 + l1, 50 + l1)),
                            expires: u64_of(b.subrange(50 + l1, 58 + l1)),
                            token: b.subrange(58 + l1, 90 + l1),
                            genesis: g,
                            sig: b.subrange(94 + l1 + l2, n as int),
                        };
                        if g.channel_id != inv.channel_id {
                            Err(Error::InviteChannelMismatch)
                        } else if event_sig_result(g) is Err {
                            Err(event_sig_result(g)->Err_0)
                        } else if verify_sig_result(g.signer_pub, invite_canonical(inv), inv.sig) is Err {
                            Err(Error::InviteSignatureRejected)
                        } else {
                            Ok(inv)
                        }
                    },
                }
            }
        }
    }
}

/// A stored invite decodes back to itself exactly when its genesis event
/// belongs to its channel and is signed, and the invite is signed by the
/// genesis event's signer; otherwise the first of these checks that fails
/// names the error.
pub proof fn lemma_invite_roundtrip(i: InviteView)
    requires
        i.channel_id.len() == 32,
        i.token.len() == 32,
        i.sig.len() == 64,
        event_sized(i.genesis),
        encode_utf8(i.handle).len() <= u32::MAX,
        event_encoding(i.genesis).len() <= u32::MAX,
    ensures
        invite_decode_result(invite_encoding(i)) == (if i.genesis.channel_id != i.channel_id {
            Err::<InviteView, Error>(Error::InviteChannelMismatch)
        } else if event_sig_result(i.genesis) is Err {
            Err::<InviteView, Error>(event_sig_result(i.genesis)->Err_0)
        } else if verify_sig_result(i.genesis.signer_pub, invite_canonical(i), i.sig) is Err {
            Err::<InviteView, Error>(Error::InviteSignatureRejected)
        } else {
            Ok::<InviteView, Error>(i)
        }),
{
    let b = invite_encoding(i);
    let hb = encode_utf8(i.handle);
    let ge = event_encoding(i.genesis);
    let l1 = hb.len() as int;
    let l2 = ge.len() as int;
    lemma_event_roundtrip(i.genesis);
    lemma_be16(1);
    lemma_be32(l1 as u32);
    lemma_be32(l2 as u32);
    lemma_be64(i.handle_gen);
    lemma_be64(i.expires);
    assert(b.len() == 158 + l1 + l2);
    assert(b.subrange(0, 4) =~= invite_tag());
    assert(b.subrange(4, 6) =~= be16(1));
    assert(b.subrange(6, 38) =~= i.channel_id);
    assert(b.subrange(38, 42) =~= be32(l1 as u32));
    assert(b.subrange(42, 42 + l1) =~= hb);
    assert(b.subrange(42 + l1, 50 + l1) =~= be64(i.handle_gen));
    assert(b.subrange(50 + l1, 58 + l1) =~= be64(i.expires));
    assert(b.subrange(58 + l1, 90 + l1) =~= i.token);
    assert(b.subrange(90 + l1, 94 + l1) =~= be32(l2 as u32));
    assert(b.subrange(94 + l1, 94 + l1 + l2) =~= ge);
    assert(b.subrange(94 + l1 + l2, b.len() as int) =~= i.sig);
    vstd::utf8::encode_utf8_decode_utf8(i.handle);
    vstd::utf8::encode_utf8_valid_utf8(i.handle);
    assert(decode_utf8(hb) == i.handle);
    assert(valid_utf8(hb));
    let inv = InviteView {
        channel_id: b.subrange(6, 38),
        handle: decode_utf8(b.subrange(42, 42 + l1)),
        handle_gen: u64_of(b.subrange(42 + l1, 50 + l1)),
        expires: u64_of(b.subrange(50 + l1, 58 + l1)),
        token: b.subrange(58 + l1, 90 + l1),
        genesis: i.genesis,
        sig: b.subrange(94 + l1 + l2, b.len() as int),
    };
    assert(inv == i);
}

/// A stored invite decodes only at its own length: no strict prefix of it,
/// and nothing it is a strict prefix of, decodes.
pub proof fn lemma_invite_decode_refuses(b: Seq<u8>, x: Seq<u8>)
    requires
        invite_decode_result(b) is Ok,
    ensures
        forall|n: int| 0 <= n < b.len() ==> #[trigger] invite_decode_result(b.subrange(0, n)) is Err,
        x.len() > 0 ==> invite_decode_result(b + x) is Err,
{
    let l1 = u32_of(b.subrange(38, 42)) as int;
    assert forall|n: int| 0 <= n < b.len() implies #[trigger] invite_decode_result(b.subrange(0, n)) is Err by {
        let p = b.subrange(0, n);
        if n >= 42 {
            assert(p.subrange(38, 42) =~= b.subrange(38, 42));
        }
        if n >= 94 + l1 {
            assert(p.subrange(90 + l1, 94 + l1) =~= b.subrange(90 + l1, 94 + l1));
        }
    }
    let q = b + x;
    assert(q.subrange(38, 42) =~= b.subrange(38, 42));
    assert(q.subrange(90 + l1, 94 + l1) =~= b.subrange(90 + l1, 94 + l1));
}

impl Invite {
    pub fn canonical(&self) -> (out: Vec<u8>)
        ensures
            out@ == invite_canonical(self@),
    {
        let mut w = Writer::new();
        w.bytes(&[87u8, 73u8, 78u8, 86u8]);
        w.u16(1);
        w.arr32(&self.channel_id);
        w.lp(self.handle.as_str().as_bytes());
        w.u64(self.handle_gen);
        w.u64(self.expires);
        w.arr32(&self.token);
        w.lp(self.genesis.encode().as_slice());
        proof {
            assert(w@ =~= invite_canonical(self@));
        }
        w.finish()
    }

    pub fn encode(&self) -> (out: Vec<u8>)
        ensures
            out@ == invite_encoding(self@),
    {
        let mut w = Writer::new();
        w.bytes(self.canonical().as_slice());
        w.bytes(self.sig.as_slice());
        w.finish()
    }

    /// Decodes an invite file and checks the genesis event's signature and
    /// the inviter's signature over the invite.
    pub fn decode(bytes: &[u8]) -> (res: Result<Self, Error>)
        ensures
            match res {
                Ok(i) => invite_decode_result(bytes@) == Ok::<InviteView, Error>(i@),
                Err(e) => invite_decode_result(bytes@) == Err::<InviteView, Error>(e),
            },
    {
        let ghost b = bytes@;
        let mut r = Reader::new(bytes);
        let magic = r.take(4)?;
        proof {
            assert([87u8, 73u8, 78u8, 86u8]@ =~= invite_tag());
        }
        if !tag_is(magic, &[87u8, 73u8, 78u8, 86u8]) {
            return Err(Error::NotAnInvite);
        }
        let version = r.u16()?;
        proof {
            lemma_be16(version);
        }
        if version != 1 {
            return Err(Error::BadInviteVersion);
        }
        let channel_id = r.arr32()?;
        let hb = r.lp()?;
        let ghost l1 = hb@.len() as int;
        proof {
            let lpb = b.subrange(38, 42 + l1);
            assert(lpb == lp_bytes(hb@));
            assert(be32(hb@.len() as u32) =~= lpb.subrange(0, 4));
            assert(b.subrange(38, 42) =~= lpb.subrange(0, 4));
            lemma_be32(hb@.len() as u32);
            assert(hb@ =~= lpb.subrange(4, 4 + l1));
            assert(hb@ =~= b.subrange(42, 42 + l1));
        }
        let handle = match utf8_decode(vstd::slice::slice_to_vec(hb)) {
            Some(h) => h,
            None => return Err(Error::HandleUtf8),
        };
        let handle_gen = r.u64()?;
        let expires = r.u64()?;
        let token = r.arr32()?;
        let gb = r.lp()?;
        let ghost l2 = gb@.len() as int;
        proof {
            let lpb = b.subrange(90 + l1, 94 + l1 + l2);
            assert(lpb == lp_bytes(gb@));
            assert(be32(gb@.len() as u32) =~= lpb.subrange(0, 4));
            assert(b.subrange(90 + l1, 94 + l1) =~= lpb.subrange(0, 4));
            lemma_be32(gb@.len() as u32);
            assert(gb@ =~= lpb.subrange(4, 4 + l2));
            assert(gb@ =~= b.subrange(94 + l1, 94 + l1 + l2));
        }
        let genesis = Event::decode(gb)?;
        let sig = r.arr64()?;
        r.finish()?;
        proof {
            lemma_be64(handle_gen);
            lemma_be64(expires);
            assert(channel_id@ == b.subrange(6, 38));
            assert(token@ == b.subrange(58 + l1, 90 + l1));
        }
        let invite = Self { channel_id, handle, handle_gen, expires, token, genesis, sig };
        if !eq32(&invite.genesis.channel_id, &invite.channel_id) {
            return Err(Error::InviteChannelMismatch);
        }
        invite.genesis.verify_sig()?;
        match verify_sig(&invite.genesis.signer_pub, invite.canonical().as_slice(), &invite.sig) {
            Ok(_) => {},
            Err(_) => return Err(Error::InviteSignatureRejected),
        }
        Ok(invite)
    }
}

/// The invite with the runtime's signature over its canonical bytes.
pub fn sign_invite(invite: Invite, runtime: &RuntimeSecret) -> (res: Result<Invite, Error>)
    ensures
        res matches Ok(i) && i@ == (InviteView {
            sig: ed25519_sig_of(runtime.sign@, invite_canonical(invite@)),
            ..invite@
        }),
{
    let mut invite = invite;
    let canonical = invite.canonical();
    invite.sig = runtime.sign.sign(canonical.as_slice());
    Ok(invite)
}

// ---------------------------------------------------------------------------
// Capability lists
// ---------------------------------------------------------------------------

/// The capability a trimmed name stands for; the empty name adds nothing.
pub open spec fn cap_named(t: Seq<char>) -> Option<u32> {
    if t == seq!['a', 'p', 'p', 'e', 'n', 'd', '_', 'f', 'r', 'a', 'm', 'e'] {
        Some(CAP_APPEND)
    } else if t == seq!['p', 'r', 'o', 'p', 'o', 's', 'e'] {
        Some(CAP_PROPOSE)
    } else if t == seq!['a', 'c', 'c', 'e', 'p', 't'] {
        Some(CAP_ACCEPT)
    } else if t == seq!['s', 'p', 'a', 'w', 'n', '_', 'm', 'e', 'm', 'b', 'e', 'r'] {
        Some(CAP_SPAWN)
    } else if t.len() == 0 {
        Some(0)
    } else {
        None
    }
}

pub proof fn lemma_next_char_bounds(s: Seq<char>, i: int, c: char)
    requires
        i <= s.len(),
    ensures
        i <= next_char(s, i, c) <= s.len(),
    decreases s.len() - i,
{
    if i < s.len() && s[i] != c {
        lemma_next_char_bounds(s, i + 1, c);
    }
}

/// The comma-separated names from index `i` on, OR-ed into `acc`; the
/// first name that is not a capability is the error.
pub open spec fn caps_scan(s: Seq<char>, i: int, acc: u32) -> Result<u32, Seq<char>>
    decreases s.len() - i,
{
    if i > s.len() {
        Ok(acc)
    } else {
        let k = next_char(s, i, ',');
        let part = trimmed(s, i, k);
        match cap_named(part) {
            None => Err(part),
            Some(c) => if k >= s.len() {
                Ok(acc | c)
            } else {
                proof {
                    lemma_next_char_bounds(s, i, ',');
                }
                caps_scan(s, k + 1, acc | c)
            },
        }
    }
}

/// What a capability list means: `all`, or names joined by commas. An
/// unknown name is reported trimmed; a list that grants nothing is refused.
pub open spec fn caps_result(s: Seq<char>) -> Result<u32, Option<Seq<char>>> {
    if s == seq!['a', 'l', 'l'] {
        Ok(CAP_ALL)
    } else {
        match caps_scan(s, 0, 0) {
            Err(p) => Err(Some(p)),
            Ok(c) => if c == 0 {
                Err(None)
            } else {
                Ok(c)
            },
        }
    }
}

pub fn parse_caps(s: &str) -> (res: Result<u32, Error>)
    ensures
        match res {
            Ok(v) => caps_result(s@) == Ok::<u32, Option<Seq<char>>>(v),
            Err(Error::UnknownCap(name)) => caps_result(s@) == Err::<u32, Option<Seq<char>>>(
                Some(name@),
            ),
            Err(Error::EmptyCaps) => caps_result(s@) == Err::<u32, Option<Seq<char>>>(None),
            Err(_) => false,
        },
{
    let cs = chars_of(s);
    let n = cs.len();
    let all: [char; 3] = ['a', 'l', 'l'];
    proof {
        assert(cs@.subrange(0, n as int) =~= cs@);
        assert(all@ =~= seq!['a', 'l', 'l']);
    }
    if chars_match(&cs, 0, n, all.as_slice()) {
        return Ok(CAP_ALL);
    }

    let mut caps: u32 = 0;
    let mut i: usize = 0;
    loop
        invariant
            cs@ == s@,
            n == s@.len(),
            i <= n,
            caps_scan(s@, 0, 0) == caps_scan(s@, i as int, caps),
            s@ != seq!['a', 'l', 'l'],
        decreases n - i,
    {
        let k = find_char(&cs, i, ',');
        let (a, b) = trim_range(&cs, i, k);
        proof {
            assert(trimmed(s@, i as int, k as int) == s@.subrange(a as int, b as int));
            assert(['a', 'p', 'p', 'e', 'n', 'd', '_', 'f', 'r', 'a', 'm', 'e']@ =~= seq![
                'a',
                'p',
                'p',
                'e',
                'n',
                'd',
                '_',
                'f',
                'r',
                'a',
                'm',
                'e',
            ]);
            assert(['p', 'r', 'o', 'p', 'o', 's', 'e']@ =~= seq!['p', 'r', 'o', 'p', 'o', 's', 'e']);
            assert(['a', 'c', 'c', 'e', 'p', 't']@ =~= seq!['a', 'c', 'c', 'e', 'p', 't']);
            assert(['s', 'p', 'a', 'w', 'n', '_', 'm', 'e', 'm', 'b', 'e', 'r']@ =~= seq![
                's',
                'p',
                'a',
                'w',
                'n',
                '_',
                'm',
                'e',
                'm',
                'b',
                'e',
                'r',
            ]);
        }
        let c: u32 = if chars_match(&cs, a, b, &['a', 'p', 'p', 'e', 'n', 'd', '_', 'f', 'r', 'a', 'm', 'e']) {
            CAP_APPEND
        } else if chars_match(&cs, a, b, &['p', 'r', 'o', 'p', 'o', 's', 'e']) {
            CAP_PROPOSE
        } else if chars_match(&cs, a, b, &['a', 'c', 'c', 'e', 'p', 't']) {
            CAP_ACCEPT
        } else if chars_match(&cs, a, b, &['s', 'p', 'a', 'w', 'n', '_', 'm', 'e', 'm', 'b', 'e', 'r']) {
            CAP_SPAWN
        } else if a == b {
            0
        } else {
            let name = s.substring_char(a, b).to_owned();
            proof {
                assert(caps_scan(s@, i as int, caps) == Err::<u32, Seq<char>>(name@));
            }
            return Err(Error::UnknownCap(name));
        };
        proof {
            assert(cap_named(s@.subrange(a as int, b as int)) == Some(c));
        }
        caps = caps | c;
        if k >= n {
            if caps == 0 {
                return Err(Error::EmptyCaps);
            }
            return Ok(caps);
        }
        i = k + 1;
    }
}

// ---------------------------------------------------------------------------
// Receipt bundles
// ---------------------------------------------------------------------------

/// What a third party needs to check a receipt offline: the signers'
/// credentials and the propose, accept and proceed events.
#[derive(Clone)]
pub struct Bundle {
    pub creds: Vec<Credential>,
    pub events: Vec<Event>,
}

pub struct BundleView {
    pub creds: Seq<CredentialView>,
    pub events: Seq<EventView>,
}

impl View for Bundle {
    type V = BundleView;

    open spec fn view(&self) -> BundleView {
        BundleView {
            creds: self.creds@.map_values(|c: Credential| c@),
            events: self.events@.map_values(|e: Event| e@),
        }
    }
}

/// "WRCT"
pub open spec fn bundle_tag() -> Seq<u8> {
    seq![87u8, 82u8, 67u8, 84u8]
}

/// The stored credentials, each behind its length.
pub open spec fn creds_lp(cs: Seq<CredentialView>) -> Seq<u8>
    decreases cs.len(),
{
    if cs.len() == 0 {
        Seq::empty()
    } else {
        creds_lp(cs.drop_last()) + lp_bytes(cred_encoding(cs.last()))
    }
}

/// The stored events, each behind its length.
pub open spec fn events_lp(es: Seq<EventView>) -> Seq<u8>
    decreases es.len(),
{
    if es.len() == 0 {
        Seq::empty()
    } else {
        events_lp(es.drop_last()) + lp_bytes(event_encoding(es.last()))
    }
}

pub open spec fn bundle_encoding(b: BundleView) -> Seq<u8> {
    bundle_tag() + be16(1) + be32(b.creds.len() as u32) + creds_lp(b.creds) + be32(
        b.events.len() as u32,
    ) + events_lp(b.events)
}

/// `n` stored credentials from position `p`, and the position after them.
pub open spec fn creds_at(b: Seq<u8>, p: int, n: nat) -> Result<(Seq<CredentialView>, int), Error>
    decreases n,
{
    if n == 0 {
        Ok((Seq::empty(), p))
    } else {
        match creds_at(b, p, (n - 1) as nat) {
            Err(e) => Err(e),
            Ok((cs, q)) => match lp_at(b, q) {
                Err(e) => Err(e),
                Ok((item, r)) => match cred_decode_result(item) {
                    Err(e) => Err(e),
                    Ok(c) => Ok((cs.push(c), r)),
                },
            },
        }
    }
}

/// `n` stored events from position `p`, each with a checking signature,
/// and the position after them.
pub open spec fn events_at(b: Seq<u8>, p: int, n: nat) -> Result<(Seq<EventView>, int), Error>
    decreases n,
{
    if n == 0 {
        Ok((Seq::empty(), p))
    } else {
        match events_at(b, p, (n - 1) as nat) {
            Err(e) => Err(e),
            Ok((es, q)) => match lp_at(b, q) {
                Err(e) => Err(e),
                Ok((item, r)) => match event_decode_result(item) {
                    Err(e) => Err(e),
                    Ok(ev) => match event_sig_result(ev) {
                        Err(e) => Err(e),
                        Ok(_) => Ok((es.push(ev), r)),
                    },
                },
            },
        }
    }
}

/// What decoding a stored bundle gives.
pub open spec fn bundle_decode_result(b: Seq<u8>) -> Result<BundleView, Error> {
    let n = b.len();
    if n < 4 {
        Err(Error::Truncated)
    } else if b.subrange(0, 4) != bundle_tag() {
        Err(Error::NotAReceiptBundle)
    } else if n < 6 {
        Err(Error::Truncated)
    } else if u16_of(b.subrange(4, 6)) != 1 {
        Err(Error::BadBundleVersion)
    } else if n < 10 {
        Err(Error::Truncated)
    } else {
        match creds_at(b, 10, u32_of(b.subrange(6, 10)) as nat) {
            Err(e) => Err(e),
            Ok((cs, p)) => if p + 4 > n {
                Err(Error::Truncated)
            } else {
                match events_at(b, p + 4, u32_of(b.subrange(p, p + 4)) as nat) {
                    Err(e) => Err(e),
                    Ok((es, q)) => if q != n {
                        Err(Error::TrailingBytes)
                    } else {
                        Ok(BundleView { creds: cs, events: es })
                    },
                }
            },
        }
    }
}

proof fn lemma_creds_at_roundtrip(b: Seq<u8>, p: int, cs: Seq<CredentialView>)
    requires
        0 <= p,
        p + creds_lp(cs).len() <= b.len(),
        b.subrange(p, p + creds_lp(cs).len()) == creds_lp(cs),
        forall|i: int| 0 <= i < cs.len() ==> cred_decode_result(#[trigger] cred_encoding(cs[i])) == Ok::<CredentialView, Error>(cs[i]),
        forall|i: int| 0 <= i < cs.len() ==> (#[trigger] cred_encoding(cs[i])).len() <= u32::MAX,
    ensures
        creds_at(b, p, cs.len()) == Ok::<(Seq<CredentialView>, int), Error>((cs, p + creds_lp(cs).len())),
    decreases cs.len(),
{
    if cs.len() > 0 {
        let init = cs.drop_last();
        let c = cs.last();
        let item = cred_encoding(c);
        let whole = creds_lp(cs);
        let li = creds_lp(init).len() as int;
        assert(whole == creds_lp(init) + lp_bytes(item));
        assert(b.subrange(p, p + li) =~= whole.subrange(0, li));
        assert(whole.subrange(0, li) =~= creds_lp(init));
        assert forall|i: int| 0 <= i < init.len() implies cred_decode_result(#[trigger] cred_encoding(init[i]))
            == Ok::<CredentialView, Error>(init[i]) && cred_encoding(init[i]).len() <= u32::MAX by {
            assert(init[i] == cs[i]);
        }
        lemma_creds_at_roundtrip(b, p, init);
        assert(cred_encoding(cs[cs.len() - 1]) == item);
        let q = p + li;
        assert(b.subrange(q, q + 4 + item.len()) =~= whole.subrange(li, whole.len() as int));
        assert(whole.subrange(li, whole.len() as int) =~= lp_bytes(item));
        lemma_lp_at(b, q, item);
        assert(init.push(c) =~= cs);
        assert(creds_at(b, p, init.len()) == Ok::<(Seq<CredentialView>, int), Error>((init, q)));
        assert(cred_decode_result(item) == Ok::<CredentialView, Error>(c));
        assert(lp_bytes(item).len() == 4 + item.len());
    } else {
        assert(cs =~= Seq::<CredentialView>::empty());
    }
}

proof fn lemma_events_at_roundtrip(b: Seq<u8>, p: int, es: Seq<EventView>)
    requires
        0 <= p,
        p + events_lp(es).len() <= b.len(),
        b.subrange(p, p + events_lp(es).len()) == events_lp(es),
        forall|i: int| 0 <= i < es.len() ==> event_decode_result(#[trigger] event_encoding(es[i])) == Ok::<EventView, Error>(es[i]),
        forall|i: int| 0 <= i < es.len() ==> (#[trigger] event_encoding(es[i])).len() <= u32::MAX,
        forall|i: int| 0 <= i < es.len() ==> #[trigger] event_sig_result(es[i]) == Ok::<(), Error>(()),
    ensures
        events_at(b, p, es.len()) == Ok::<(Seq<EventView>, int), Error>((es, p + events_lp(es).len())),
    decreases es.len(),
{
    if es.len() > 0 {
        let init = es.drop_last();
        let e = es.last();
        let item = event_encoding(e);
        let whole = events_lp(es);
        let li = events_lp(init).len() as int;
        assert(whole == events_lp(init) + lp_bytes(item));
        assert(b.subrange(p, p + li) =~= whole.subrange(0, li));
        assert(whole.subrange(0, li) =~= events_lp(init));
        assert forall|i: int| 0 <= i < init.len() implies event_decode_result(#[trigger] event_encoding(init[i]))
            == Ok::<EventView, Error>(init[i]) && event_encoding(init[i]).len() <= u32::MAX
            && event_sig_result(init[i]) == Ok::<(), Error>(()) by {
            assert(init[i] == es[i]);
        }
        lemma_events_at_roundtrip(b, p, init);
        assert(event_encoding(es[es.len() - 1]) == item);
        assert(event_sig_result(es[es.len() - 1]) == Ok::<(), Error>(()));
        let q = p + li;
        assert(b.subrange(q, q + 4 + item.len()) =~= whole.subrange(li, whole.len() as int));
        assert(whole.subrange(li, whole.len() as int) =~= lp_bytes(item));
        lemma_lp_at(b, q, item);
        assert(init.push(e) =~= es);
        assert(events_at(b, p, init.len()) == Ok::<(Seq<EventView>, int), Error>((init, q)));
        assert(event_decode_result(item) == Ok::<EventView, Error>(e));
        assert(lp_bytes(item).len() == 4 + item.len());
    } else {
        assert(es =~= Seq::<EventView>::empty());
    }
}

/// A bundle whose credentials and events all check decodes from its stored
/// form back to itself.
pub proof fn lemma_bundle_roundtrip(b: BundleView)
    requires
        b.creds.len() <= u32::MAX,
        b.events.len() <= u32::MAX,
        forall|i: int| 0 <= i < b.creds.len() ==> cred_sized(#[trigger] b.creds[i]) && cred_parent_result(b.creds[i]) is Ok,
        forall|i: int| 0 <= i < b.events.len() ==> event_sized(#[trigger] b.events[i]) && event_sig_result(b.events[i]) is Ok
            && event_encoding(b.events[i]).len() <= u32::MAX,
    ensures
        bundle_decode_result(bundle_encoding(b)) == Ok::<BundleView, Error>(b),
{
    let enc = bundle_encoding(b);
    let cl = creds_lp(b.creds).len() as int;
    let el = events_lp(b.events).len() as int;
    lemma_be16(1);
    lemma_be32(b.creds.len() as u32);
    lemma_be32(b.events.len() as u32);
    assert(enc.len() == 14 + cl + el);
    assert(enc.subrange(0, 4) =~= bundle_tag());
    assert(enc.subrange(4, 6) =~= be16(1));
    assert(enc.subrange(6, 10) =~= be32(b.creds.len() as u32));
    assert(enc.subrange(10, 10 + cl) =~= creds_lp(b.creds));
    assert forall|i: int| 0 <= i < b.creds.len() implies cred_decode_result(#[trigger] cred_encoding(b.creds[i]))
        == Ok::<CredentialView, Error>(b.creds[i]) && cred_encoding(b.creds[i]).len() <= u32::MAX by {
        lemma_cred_roundtrip(b.creds[i]);
    }
    lemma_creds_at_roundtrip(enc, 10, b.creds);
    assert(enc.subrange(10 + cl, 14 + cl) =~= be32(b.events.len() as u32));
    assert(enc.subrange(14 + cl, 14 + cl + el) =~= events_lp(b.events));
    assert forall|i: int| 0 <= i < b.events.len() implies event_decode_result(#[trigger] event_encoding(b.events[i]))
        == Ok::<EventView, Error>(b.events[i]) && event_sig_result(b.events[i]) == Ok::<(), Error>(()) by {
        lemma_event_roundtrip(b.events[i]);
    }
    lemma_events_at_roundtrip(enc, 14 + cl, b.events);
}

impl Bundle {
    pub fn encode(&self) -> (out: Vec<u8>)
        ensures
            out@ == bundle_encoding(self@),
    {
        let mut w = Writer::new();
        w.bytes(&[87u8, 82u8, 67u8, 84u8]);
        w.u16(1);
        w.u32(self.creds.len() as u32);
        let ghost head = w@;
        let mut i: usize = 0;
        while i < self.creds.len()
            invariant
                i <= self.creds@.len(),
                w@ == head + creds_lp(self@.creds.subrange(0, i as int)),
            decreases self.creds@.len() - i,
        {
            let item = self.creds[i].encode();
            w.lp(item.as_slice());
            proof {
                let cs = self@.creds.subrange(0, i + 1);
                assert(cs.drop_last() =~= self@.creds.subrange(0, i as int));
            }
            i = i + 1;
        }
        proof {
            assert(self@.creds.subrange(0, i as int) =~= self@.creds);
        }
        w.u32(self.events.len() as u32);
        let ghost mid = w@;
        let mut j: usize = 0;
        while j < self.events.len()
            invariant
                j <= self.events@.len(),
                w@ == mid + events_lp(self@.events.subrange(0, j as int)),
            decreases self.events@.len() - j,
        {
            let item = self.events[j].encode();
            w.lp(item.as_slice());
            proof {
                let es = self@.events.subrange(0, j + 1);
                assert(es.drop_last() =~= self@.events.subrange(0, j as int));
            }
            j = j + 1;
        }
        proof {
            assert(self@.events.subrange(0, j as int) =~= self@.events);
            assert([87u8, 82u8, 67u8, 84u8]@ =~= bundle_tag());
            assert(w@ =~= bundle_encoding(self@));
        }
        w.finish()
    }

    pub fn decode(bytes: &[u8]) -> (res: Result<Self, Error>)
        ensures
            match res {
                Ok(b) => bundle_decode_result(bytes@) == Ok::<BundleView, Error>(b@),
                Err(e) => bundle_decode_result(bytes@) == Err::<BundleView, Error>(e),
            },
    {
        let ghost b = bytes@;
        let mut r = Reader::new(bytes);
        let magic = r.take(4)?;
        proof {
            assert([87u8, 82u8, 67u8, 84u8]@ =~= bundle_tag());
        }
        if !tag_is(magic, &[87u8, 82u8, 67u8, 84u8]) {
            return Err(Error::NotAReceiptBundle);
        }
        let version = r.u16()?;
        proof {
            lemma_be16(version);
        }
        if version != 1 {
            return Err(Error::BadBundleVersion);
        }
        let ncred = r.u32()?;
        proof {
            lemma_be32(ncred);
        }
        let creds = read_creds(&mut r, ncred)?;
        let ghost p = r.pos();
        let ne = r.u32()?;
        proof {
            lemma_be32(ne);
        }
        let events = read_events(&mut r, ne)?;
        r.finish()?;
        Ok(Self { creds, events })
    }
}

/// Reads `n` stored credentials.
fn read_creds(r: &mut Reader, n: u32) -> (res: Result<Vec<Credential>, Error>)
    requires
        0 <= old(r).pos(),
    ensures
        final(r).data() == old(r).data(),
        match res {
            Ok(v) => creds_at(old(r).data(), old(r).pos(), n as nat) == Ok::<(Seq<CredentialView>, int), Error>(
                (v@.map_values(|c: Credential| c@), final(r).pos()),
            ),
            Err(e) => creds_at(old(r).data(), old(r).pos(), n as nat) == Err::<(Seq<CredentialView>, int), Error>(e),
        },
{
    let ghost b = r.data();
    let ghost p = r.pos();
    let mut creds: Vec<Credential> = Vec::new();
    let mut i: u32 = 0;
    proof {
        assert(creds@.map_values(|c: Credential| c@) =~= Seq::<CredentialView>::empty());
    }
    while i < n
        invariant
            r.data() == b,
            b == old(r).data(),
            p == old(r).pos(),
            i <= n,
            creds_at(b, p, i as nat) == Ok::<(Seq<CredentialView>, int), Error>(
                (creds@.map_values(|c: Credential| c@), r.pos()),
            ),
        decreases n - i,
    {
        let item = match r.lp() {
            Ok(x) => x,
            Err(e) => {
                proof {
                    lemma_creds_at_err(b, p, (i + 1) as nat, n as nat);
                }
                return Err(e);
            },
        };
        let c = match Credential::decode(item) {
            Ok(c) => c,
            Err(e) => {
                proof {
                    lemma_creds_at_err(b, p, (i + 1) as nat, n as nat);
                }
                return Err(e);
            },
        };
        let ghost old_creds = creds@;
        creds.push(c);
        proof {
            assert(creds@.map_values(|c: Credential| c@) =~= old_creds.map_values(|c: Credential| c@).push(c@));
        }
        i = i + 1;
    }
    Ok(creds)
}

/// Reads `n` stored events, each of which must carry a checking signature.
fn read_events(r: &mut Reader, n: u32) -> (res: Result<Vec<Event>, Error>)
    requires
        0 <= old(r).pos(),
    ensures
        final(r).data() == old(r).data(),
        match res {
            Ok(v) => events_at(old(r).data(), old(r).pos(), n as nat) == Ok::<(Seq<EventView>, int), Error>(
                (v@.map_values(|e: Event| e@), final(r).pos()),
            ),
            Err(e) => events_at(old(r).data(), old(r).pos(), n as nat) == Err::<(Seq<EventView>, int), Error>(e),
        },
{
    let ghost b = r.data();
    let ghost p = r.pos();
    let mut events: Vec<Event> = Vec::new();
    let mut i: u32 = 0;
    proof {
        assert(events@.map_values(|e: Event| e@) =~= Seq::<EventView>::empty());
    }
    while i < n
        invariant
            r.data() == b,
            b == old(r).data(),
            p == old(r).pos(),
            i <= n,
            events_at(b, p, i as nat) == Ok::<(Seq<EventView>, int), Error>(
                (events@.map_values(|e: Event| e@), r.pos()),
            ),
        decreases n - i,
    {
        let item = match r.lp() {
            Ok(x) => x,
            Err(e) => {
                proof {
                    lemma_events_at_err(b, p, (i + 1) as nat, n as nat);
                }
                return Err(e);
            },
        };
        let event = match Event::decode(item) {
            Ok(x) => x,
            Err(e) => {
                proof {
                    lemma_events_at_err(b, p, (i + 1) as nat, n as nat);
                }
                return Err(e);
            },
        };
        match event.verify_sig() {
            Ok(_) => {},
            Err(e) => {
                proof {
                    lemma_events_at_err(b, p, (i + 1) as nat, n as nat);
                }
                return Err(e);
            },
        }
        let ghost old_events = events@;
        events.push(event);
        proof {
            assert(events@.map_values(|e: Event| e@) =~= old_events.map_values(|e: Event| e@).push(event@));
        }
        i = i + 1;
    }
    Ok(events)
}

/// An error in the first `n` credentials is the error of the first `m >= n`.
proof fn lemma_creds_at_err(b: Seq<u8>, p: int, n: nat, m: nat)
    requires
        n <= m,
        creds_at(b, p, n) is Err,
    ensures
        creds_at(b, p, m) == creds_at(b, p, n),
    decreases m - n,
{
    if m > n {
        lemma_creds_at_err(b, p, n, (m - 1) as nat);
    }
}

proof fn lemma_events_at_err(b: Seq<u8>, p: int, n: nat, m: nat)
    requires
        n <= m,
        events_at(b, p, n) is Err,
    ensures
        events_at(b, p, m) == events_at(b, p, n),
    decreases m - n,
{
    if m > n {
        lemma_events_at_err(b, p, n, (m - 1) as nat);
    }
}

/// The first credential at or after `i` with this id and signing key.
pub open spec fn find_cred(cs: Seq<CredentialView>, id: Seq<u8>, pk: Seq<u8>, i: int) -> Option<int>
    decreases cs.len() - i,
{
    if i < 0 || i >= cs.len() {
        None
    } else if cred_id(cs[i]) == id && cs[i].ed25519_pub == pk {
        Some(i)
    } else {
        find_cred(cs, id, pk, i + 1)
    }
}

/// The last propose, accept and proceed among the first `k` events, once
/// each event's signer credential was found in the bundle and checked.
pub open spec fn bundle_scan(b: BundleView, k: int) -> Result<(Option<int>, Option<int>, Option<int>), Error>
    decreases k,
{
    if k <= 0 {
        Ok((None, None, None))
    } else {
        match bundle_scan(b, k - 1) {
            Err(e) => Err(e),
            Ok((p, a, q)) => {
                let e = b.events[k - 1];
                match find_cred(b.creds, e.signer_cred_id, e.signer_pub, 0) {
                    None => Err(Error::SignerCredentialMissingFromBundle),
                    Some(ci) => match cred_parent_result(b.creds[ci]) {
                        Err(x) => Err(x),
                        Ok(_) => if e.typ == T_PROPOSE {
                            Ok((Some(k - 1), a, q))
                        } else if e.typ == T_ACCEPT {
                            Ok((p, Some(k - 1), q))
                        } else if e.typ == T_PROCEED {
                            Ok((p, a, Some(k - 1)))
                        } else {
                            Err(Error::UnexpectedEventInBundle)
                        },
                    },
                }
            },
        }
    }
}

/// The credential a bundle holds for an event's signer.
pub open spec fn signer_cred(b: BundleView, e: EventView) -> CredentialView {
    b.creds[find_cred(b.creds, e.signer_cred_id, e.signer_pub, 0)->0]
}

/// Whether a bundle proves a receipt: exactly a propose, an accept by a
/// second party (another credential of another principal) and a proceed by
/// the proposer, all for one proposal, each signed under a credential in the
/// bundle; and, when the content is given, the content the proposal
/// committed to.
pub open spec fn verify_bundle_result(b: BundleView, content: Option<Seq<u8>>) -> Result<(), Error> {
    if b.events.len() != 3 {
        Err(Error::BundleNeedsThreeEvents)
    } else {
        match bundle_scan(b, 3) {
            Err(e) => Err(e),
            Ok((p, a, q)) => if p is None {
                Err(Error::MissingPropose)
            } else if a is None {
                Err(Error::MissingAccept)
            } else if q is None {
                Err(Error::MissingProceed)
            } else {
                let pe = b.events[p->0];
                let ae = b.events[a->0];
                let qe = b.events[q->0];
                match proposal_result(pe.body) {
                    Err(e) => Err(e),
                    Ok((pid, hash)) => match id_body_result(ae.body) {
                        Err(e) => Err(e),
                        Ok(ap) => match id_body_result(qe.body) {
                            Err(e) => Err(e),
                            Ok(pp) => if ap != pid || pp != pid {
                                Err(Error::ProposalIdMismatch)
                            } else if pe.signer_cred_id == ae.signer_cred_id || cred_principal(signer_cred(b, pe))
                                == cred_principal(signer_cred(b, ae)) {
                                Err(Error::AcceptMustBeSecondParty)
                            } else if qe.signer_cred_id != pe.signer_cred_id {
                                Err(Error::ProceedMustBeProposer)
                            } else if content matches Some(c) && sha256_of(c) != hash {
                                Err(Error::ContentHashMismatch)
                            } else {
                                Ok(())
                            },
                        },
                    },
                }
            },
        }
    }
}

pub open spec fn opt_bytes(o: Option<&[u8]>) -> Option<Seq<u8>> {
    match o {
        Some(c) => Some(c@),
        None => None,
    }
}

fn find_signer_cred(creds: &Vec<Credential>, id: &[u8; 32], pk: &[u8; 32]) -> (r: Option<usize>)
    ensures
        find_cred(creds@.map_values(|c: Credential| c@), id@, pk@, 0) == match r {
            Some(i) => Some(i as int),
            None => None::<int>,
        },
        r matches Some(i) ==> i < creds@.len(),
{
    let ghost cs = creds@.map_values(|c: Credential| c@);
    let mut i: usize = 0;
    while i < creds.len()
        invariant
            i <= creds@.len(),
            cs == creds@.map_values(|c: Credential| c@),
            find_cred(cs, id@, pk@, 0) == find_cred(cs, id@, pk@, i as int),
        decreases creds@.len() - i,
    {
        let cid = creds[i].id();
        if eq32(&cid, id) && eq32(&creds[i].ed25519_pub, pk) {
            return Some(i);
        }
        i = i + 1;
    }
    None
}

pub fn verify_bundle(bundle: &Bundle, content: Option<&[u8]>) -> (res: Result<(), Error>)
    ensures
        res == verify_bundle_result(bundle@, opt_bytes(content)),
{
    if bundle.events.len() != 3 {
        return Err(Error::BundleNeedsThreeEvents);
    }
    let ghost bv = bundle@;
    let mut propose: Option<usize> = None;
    let mut accept: Option<usize> = None;
    let mut proceed: Option<usize> = None;
    let mut k: usize = 0;
    while k < 3
        invariant
            k <= 3,
            bundle.events@.len() == 3,
            bv == bundle@,
            bundle_scan(bv, k as int) == Ok::<(Option<int>, Option<int>, Option<int>), Error>(
                (
                    match propose { Some(x) => Some(x as int), None => None },
                    match accept { Some(x) => Some(x as int), None => None },
                    match proceed { Some(x) => Some(x as int), None => None },
                ),
            ),
            propose matches Some(x) ==> x < 3,
            accept matches Some(x) ==> x < 3,
            proceed matches Some(x) ==> x < 3,
        decreases 3 - k,
    {
        let event = &bundle.events[k];
        proof {
            assert(bv.creds =~= bundle.creds@.map_values(|c: Credential| c@));
            assert(bv.events[k as int] == event@);
        }
        let ci = match find_signer_cred(&bundle.creds, &event.signer_cred_id, &event.signer_pub) {
            Some(ci) => ci,
            None => {
                proof {
                    lemma_bundle_scan_err(bv, (k + 1) as int, 3);
                }
                return Err(Error::SignerCredentialMissingFromBundle);
            },
        };
        proof {
            assert(bv.creds[ci as int] == bundle.creds@[ci as int]@);
        }
        match bundle.creds[ci].verify_parent() {
            Ok(_) => {},
            Err(e) => {
                proof {
                    assert(find_cred(bv.creds, bv.events[k as int].signer_cred_id, bv.events[k as int].signer_pub, 0) == Some(ci as int));
                    assert(cred_parent_result(bv.creds[ci as int]) == Err::<(), Error>(e));
                    assert(bundle_scan(bv, k as int) is Ok);
                    assert(bundle_scan(bv, (k + 1) as int) == Err::<(Option<int>, Option<int>, Option<int>), Error>(e));
                    lemma_bundle_scan_err(bv, (k + 1) as int, 3);
                }
                return Err(e);
            },
        }
        if event.typ == T_PROPOSE {
            propose = Some(k);
        } else if event.typ == T_ACCEPT {
            accept = Some(k);
        } else if event.typ == T_PROCEED {
            proceed = Some(k);
        } else {
            proof {
                lemma_bundle_scan_err(bv, (k + 1) as int, 3);
            }
            return Err(Error::UnexpectedEventInBundle);
        }
        k = k + 1;
    }
    let p = match propose {
        Some(p) => p,
        None => return Err(Error::MissingPropose),
    };
    let a = match accept {
        Some(a) => a,
        None => return Err(Error::MissingAccept),
    };
    let q = match proceed {
        Some(q) => q,
        None => return Err(Error::MissingProceed),
    };
    let pe = &bundle.events[p];
    let ae = &bundle.events[a];
    let qe = &bundle.events[q];
    let (pid, hash) = parse_proposal(pe.body.as_slice())?;
    let ap = parse_id_body(ae.body.as_slice())?;
    let pp = parse_id_body(qe.body.as_slice())?;
    if !eq32(&ap, &pid) || !eq32(&pp, &pid) {
        return Err(Error::ProposalIdMismatch);
    }
    if eq32(&pe.signer_cred_id, &ae.signer_cred_id) {
        return Err(Error::AcceptMustBeSecondParty);
    }
    proof {
        lemma_bundle_scan_found(bv, 3);
    }
    let pci = match find_signer_cred(&bundle.creds, &pe.signer_cred_id, &pe.signer_pub) {
        Some(i) => i,
        None => return Err(Error::SignerCredentialMissingFromBundle),
    };
    let aci = match find_signer_cred(&bundle.creds, &ae.signer_cred_id, &ae.signer_pub) {
        Some(i) => i,
        None => return Err(Error::SignerCredentialMissingFromBundle),
    };
    proof {
        assert(bv.creds =~= bundle.creds@.map_values(|c: Credential| c@));
        assert(bv.creds[pci as int] == bundle.creds@[pci as int]@);
        assert(bv.creds[aci as int] == bundle.creds@[aci as int]@);
    }
    if eq32(&bundle.creds[pci].principal_id(), &bundle.creds[aci].principal_id()) {
        return Err(Error::AcceptMustBeSecondParty);
    }
    if !eq32(&qe.signer_cred_id, &pe.signer_cred_id) {
        return Err(Error::ProceedMustBeProposer);
    }
    match content {
        Some(bytes) => {
            if !eq32(&sha256(bytes), &hash) {
                return Err(Error::ContentHashMismatch);
            }
        },
        None => {},
    }
    Ok(())
}

/// Every event the scan picked has its signer's credential in the bundle.
proof fn lemma_bundle_scan_found(b: BundleView, k: int)
    requires
        0 <= k <= b.events.len(),
        bundle_scan(b, k) is Ok,
    ensures
        ({
            let (p, a, q) = bundle_scan(b, k)->Ok_0;
            &&& p matches Some(x) ==> 0 <= x < k && find_cred(b.creds, b.events[x].signer_cred_id, b.events[x].signer_pub, 0) is Some
            &&& a matches Some(x) ==> 0 <= x < k && find_cred(b.creds, b.events[x].signer_cred_id, b.events[x].signer_pub, 0) is Some
            &&& q matches Some(x) ==> 0 <= x < k && find_cred(b.creds, b.events[x].signer_cred_id, b.events[x].signer_pub, 0) is Some
        }),
    decreases k,
{
    if k > 0 {
        lemma_bundle_scan_found(b, k - 1);
    }
}

/// What the scan of the first `k` events of a bundle finds: every one of them
/// is a propose, an accept or a proceed, and the index it keeps for each kind
/// holds an event of that kind.
proof fn lemma_bundle_scan_kinds(b: BundleView, k: int)
    requires
        0 <= k <= b.events.len(),
        bundle_scan(b, k) is Ok,
    ensures
        forall|i: int| 0 <= i < k ==> (#[trigger] b.events[i]).typ == T_PROPOSE || b.events[i].typ == T_ACCEPT
            || b.events[i].typ == T_PROCEED,
        bundle_scan(b, k)->Ok_0.0 matches Some(x) ==> 0 <= x < k && b.events[x].typ == T_PROPOSE,
        bundle_scan(b, k)->Ok_0.1 matches Some(x) ==> 0 <= x < k && b.events[x].typ == T_ACCEPT,
        bundle_scan(b, k)->Ok_0.2 matches Some(x) ==> 0 <= x < k && b.events[x].typ == T_PROCEED,
    decreases k,
{
    if k > 0 {
        lemma_bundle_scan_kinds(b, k - 1);
    }
}

/// Each of the first `k` events that a scan got past has its signer's
/// credential in the bundle, checked against its root.
proof fn lemma_bundle_scan_checked(b: BundleView, k: int)
    requires
        0 <= k <= b.events.len(),
        bundle_scan(b, k) is Ok,
    ensures
        forall|i: int|
            0 <= i < k ==> find_cred(b.creds, (#[trigger] b.events[i]).signer_cred_id, b.events[i].signer_pub, 0) is Some
                && cred_parent_result(signer_cred(b, b.events[i])) is Ok,
    decreases k,
{
    if k > 0 {
        lemma_bundle_scan_checked(b, k - 1);
    }
}

/// A bundle that verifies holds exactly three events, one propose, one
/// accept and one proceed, for one proposal. The proceed is signed under the
/// proposer's credential, the accept under another credential of another
/// principal, and given content hashes to what the propose committed to.
/// Every event's signer credential is in the bundle and checks against its
/// root.
pub proof fn lemma_bundle_verifies_law(b: BundleView, content: Option<Seq<u8>>)
    requires
        verify_bundle_result(b, content) is Ok,
    ensures
        b.events.len() == 3,
        exists|i: int| 0 <= i < 3 && (#[trigger] b.events[i]).typ == T_PROPOSE,
        exists|i: int| 0 <= i < 3 && (#[trigger] b.events[i]).typ == T_ACCEPT,
        exists|i: int| 0 <= i < 3 && (#[trigger] b.events[i]).typ == T_PROCEED,
        forall|i: int| 0 <= i < 3 ==> (#[trigger] b.events[i]).typ == T_PROPOSE || b.events[i].typ == T_ACCEPT
            || b.events[i].typ == T_PROCEED,
        forall|i: int, j: int|
            0 <= i < 3 && 0 <= j < 3 && (#[trigger] b.events[i]).typ == T_PROPOSE && (#[trigger] b.events[j]).typ
                == T_PROCEED ==> b.events[j].signer_cred_id == b.events[i].signer_cred_id,
        forall|i: int, j: int|
            0 <= i < 3 && 0 <= j < 3 && (#[trigger] b.events[i]).typ == T_PROPOSE && (#[trigger] b.events[j]).typ
                == T_ACCEPT ==> b.events[j].signer_cred_id != b.events[i].signer_cred_id && cred_principal(
                signer_cred(b, b.events[j]),
            ) != cred_principal(signer_cred(b, b.events[i])),
        forall|i: int, j: int|
            0 <= i < 3 && 0 <= j < 3 && (#[trigger] b.events[i]).typ == T_PROPOSE && (#[trigger] b.events[j]).typ
                != T_PROPOSE ==> (proposal_result(b.events[i].body) matches Ok((pid, _h)) && id_body_result(
                b.events[j].body,
            ) == Ok::<Seq<u8>, Error>(pid)),
        forall|i: int|
            0 <= i < 3 && (#[trigger] b.events[i]).typ == T_PROPOSE ==> (content matches Some(c) ==> (proposal_result(
                b.events[i].body,
            ) matches Ok((_pid, h)) && sha256_of(c) == h)),
        forall|i: int|
            0 <= i < 3 ==> find_cred(b.creds, (#[trigger] b.events[i]).signer_cred_id, b.events[i].signer_pub, 0) is Some
                && cred_parent_result(signer_cred(b, b.events[i])) is Ok,
{
    lemma_bundle_scan_kinds(b, 3);
    lemma_bundle_scan_checked(b, 3);
    let (p, a, q) = bundle_scan(b, 3)->Ok_0;
    let pi = p->0;
    let ai = a->0;
    let qi = q->0;
    assert(b.events[pi].typ == T_PROPOSE);
    assert(b.events[ai].typ == T_ACCEPT);
    assert(b.events[qi].typ == T_PROCEED);
    assert forall|i: int| 0 <= i < 3 && (#[trigger] b.events[i]).typ == T_PROPOSE implies i == pi by {
        assert(i == pi || i == ai || i == qi);
    }
    assert forall|i: int| 0 <= i < 3 && (#[trigger] b.events[i]).typ == T_ACCEPT implies i == ai by {
        assert(i == pi || i == ai || i == qi);
    }
    assert forall|i: int| 0 <= i < 3 && (#[trigger] b.events[i]).typ == T_PROCEED implies i == qi by {
        assert(i == pi || i == ai || i == qi);
    }
}

proof fn lemma_bundle_scan_err(b: BundleView, k: int, m: int)
    requires
        0 <= k <= m,
        bundle_scan(b, k) is Err,
    ensures
        bundle_scan(b, m) == bundle_scan(b, k),
    decreases m - k,
{
    if m > k {
        lemma_bundle_scan_err(b, k, m - 1);
    }
}

} // verus!
