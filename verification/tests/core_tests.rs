use wire_core::codec::{from_hex, parse_id, to_hex, Reader, Writer};
use wire_core::crypto::{
    now_unix, open, peek_suite, seal, sha256, AgreeSecret, RootSecret, KIND_EPHEMERAL,
    SUITE_CLASSICAL, SUITE_STUB,
};
use wire_core::error::Error;
use wire_core::explain::events;
use wire_core::model::{
    id_body, member_add_body, parse_caps, proposal_body, verify_bundle, Bundle, Credential, Event,
    RuntimeSecret, CAP_ACCEPT, CAP_ALL, CAP_APPEND, CAP_PROPOSE, CAP_SPAWN, T_PROPOSE,
};
use wire_core::pack::{pack_payload, unpack_payload, LZ4, MIN_PACK, RAW};
use wire_core::talk::{hash_bytes, to_text, Talk};
use std::time::Instant;

#[test]
fn hex_roundtrip() {
    let raw = [0u8, 1, 255, 16, 10];
    assert_eq!(from_hex(&to_hex(&raw)).unwrap(), raw);
}

#[test]
fn truncated_lp_fails() {
    let mut w = Writer::new();
    w.lp(b"hello");
    let buf = w.finish();
    for n in 0..buf.len() {
        let mut r = Reader::new(&buf[..n]);
        assert!(r.lp().is_err());
    }
}

#[test]
fn seal_roundtrip_and_suite_stub() {
    let a = AgreeSecret::generate();
    let b = AgreeSecret::generate();
    let sid = [1u8; 32];
    let rid = [2u8; 32];
    let ch = [3u8; 32];
    let env = seal(
        SUITE_CLASSICAL,
        KIND_EPHEMERAL,
        &a,
        &sid,
        &rid,
        &b.public(),
        &ch,
        b"WIRE-PIXEL-MARKER-v1",
    )
    .unwrap();
    assert!(!env.windows(19).any(|w| w == b"WIRE-PIXEL-MARKER-v1"));
    let opened = open(&b, &rid, &env).unwrap();
    assert_eq!(opened.plaintext, b"WIRE-PIXEL-MARKER-v1");
    assert!(seal(SUITE_STUB, KIND_EPHEMERAL, &a, &sid, &rid, &b.public(), &ch, b"x").is_err());
    let mut tagged = env.clone();
    tagged[6] = 0;
    tagged[7] = 2;
    assert_eq!(peek_suite(&tagged).unwrap(), SUITE_STUB);
    assert!(open(&b, &rid, &tagged).is_err());
}

#[test]
fn flipped_ciphertext_fails() {
    let a = AgreeSecret::generate();
    let b = AgreeSecret::generate();
    let id = [9u8; 32];
    let mut env = seal(SUITE_CLASSICAL, KIND_EPHEMERAL, &a, &id, &id, &b.public(), &id, b"payload").unwrap();
    let last = env.len() - 1;
    env[last] ^= 0xff;
    assert!(open(&b, &id, &env).is_err());
}

#[test]
fn explain_is_a_view_and_stays_fast() {
    let runtime = RuntimeSecret::issue(&RootSecret::generate(), 3600, CAP_ALL);
    let mut list = Vec::with_capacity(1000);
    for i in 0..1000u32 {
        let id = sha256(&i.to_be_bytes());
        let hash = sha256(&[i as u8]);
        list.push(Event {
            suite: 1,
            channel_id: [1u8; 32],
            prev: [0u8; 32],
            typ: T_PROPOSE,
            signer_cred_id: runtime.cred_id(),
            signer_pub: runtime.cred.ed25519_pub,
            body: proposal_body(&id, &hash),
            sig: [0u8; 64],
        });
    }
    let started = Instant::now();
    let text = events(&list);
    let elapsed = started.elapsed();
    assert!(text.lines().count() == 1000);
    assert!(text.contains("propose proposal"));
    assert!(elapsed.as_millis() < 200, "explain took {}ms", elapsed.as_millis());
}

#[test]
fn root_does_not_match_runtime_signer_and_suite_stub_rejected() {
    let root = RootSecret::generate();
    let runtime = RuntimeSecret::issue(&root, 3600, CAP_ALL);
    assert_ne!(runtime.cred.ed25519_pub, root.public());
    let event = Event {
        suite: wire_core::crypto::SUITE_STUB,
        channel_id: [1u8; 32],
        prev: [0u8; 32],
        typ: T_PROPOSE,
        signer_cred_id: runtime.cred_id(),
        signer_pub: runtime.cred.ed25519_pub,
        body: proposal_body(&[2u8; 32], &[3u8; 32]),
        sig: [0u8; 64],
    };
    assert!(event.sign(&runtime).is_err());
}

fn signed_by(rt: &RuntimeSecret, channel: [u8; 32], prev: [u8; 32], typ: u16, body: Vec<u8>) -> Event {
    Event {
        suite: SUITE_CLASSICAL,
        channel_id: channel,
        prev,
        typ,
        signer_cred_id: rt.cred_id(),
        signer_pub: rt.cred.ed25519_pub,
        body,
        sig: [0u8; 64],
    }
    .sign(rt)
    .unwrap()
}

#[test]
fn bundle_rejects_mismatched_proposal_and_bad_byte() {
    let root_a = RootSecret::generate();
    let root_b = RootSecret::generate();
    let a = RuntimeSecret::issue(&root_a, 3600, CAP_ALL);
    let b = RuntimeSecret::issue(&root_b, 3600, CAP_ALL);
    let channel = [7u8; 32];
    let proposal = [4u8; 32];
    let content = b"price-10";
    let hash = sha256(content);
    let propose = signed_by(&a, channel, [0u8; 32], T_PROPOSE, proposal_body(&proposal, &hash));
    let accept = signed_by(&b, channel, propose.id(), wire_core::model::T_ACCEPT, id_body(&proposal));
    let proceed = signed_by(&a, channel, accept.id(), wire_core::model::T_PROCEED, id_body(&proposal));
    let bundle = Bundle {
        creds: vec![a.cred.clone(), b.cred.clone()],
        events: vec![propose.clone(), accept.clone(), proceed.clone()],
    };
    verify_bundle(&bundle, Some(content)).unwrap();
    assert!(verify_bundle(&bundle, Some(b"other")).is_err());
    let mut bad = accept.clone();
    bad.body = id_body(&[9u8; 32]);
    bad = bad.sign(&b).unwrap();
    let mismatched = Bundle {
        creds: bundle.creds.clone(),
        events: vec![propose, bad, proceed],
    };
    assert!(verify_bundle(&mismatched, Some(content)).is_err());
    let mut bytes = bundle.encode();
    let last = bytes.len() - 1;
    bytes[last] ^= 0x5a;
    assert!(Bundle::decode(&bytes).is_err());
}

#[test]
fn bundle_needs_two_principals() {
    let root = RootSecret::generate();
    let a = RuntimeSecret::issue(&root, 3600, CAP_ALL);
    let b = RuntimeSecret::issue(&root, 3600, CAP_ALL);
    assert_ne!(a.cred_id(), b.cred_id());
    let channel = [7u8; 32];
    let proposal = [4u8; 32];
    let hash = sha256(b"price-10");
    let propose = signed_by(&a, channel, [0u8; 32], T_PROPOSE, proposal_body(&proposal, &hash));
    let accept = signed_by(&b, channel, propose.id(), wire_core::model::T_ACCEPT, id_body(&proposal));
    let proceed = signed_by(&a, channel, accept.id(), wire_core::model::T_PROCEED, id_body(&proposal));
    let bundle = Bundle { creds: vec![a.cred.clone(), b.cred.clone()], events: vec![propose, accept, proceed] };
    assert!(matches!(verify_bundle(&bundle, None), Err(Error::AcceptMustBeSecondParty)));
}

#[test]
fn small_stays_raw_and_repetitive_shrinks() {
    let small = b"offer-39-bytes-are-left-alone!!";
    assert!(small.len() < MIN_PACK);
    let packed = pack_payload(small);
    assert_eq!(packed[0], RAW);
    assert_eq!(unpack_payload(&packed).unwrap(), small);

    let big = vec![b'A'; 8 * 1024];
    let packed = pack_payload(&big);
    assert_eq!(packed[0], LZ4);
    assert!(packed.len() < big.len());
    let started = Instant::now();
    let plain = unpack_payload(&packed).unwrap();
    assert!(started.elapsed().as_millis() < 20);
    assert_eq!(plain, big);
}

#[test]
fn incompressible_is_not_wrapped() {
    let mut raw = vec![0u8; MIN_PACK];
    for (i, b) in raw.iter_mut().enumerate() {
        *b = (i.wrapping_mul(17)) as u8;
    }
    let packed = pack_payload(&raw);
    assert_eq!(unpack_payload(&packed).unwrap(), raw);
    assert!(packed.len() <= raw.len() + 1);
}

#[test]
fn sizes_stay_minimal_and_text_is_not_stored() {
    let say = Talk::Say("hi".into()).encode();
    assert_eq!(say, vec![0x11, 2, b'h', b'i']);
    let terms = hash_bytes(b"net-30");
    let offer = Talk::Offer { minor: 1000, currency: 840, terms }.encode();
    assert_eq!(offer.len(), 39);
    assert!(!offer.windows(3).any(|w| w == b"USD"));
    assert!(!offer.windows(4).any(|w| w == b"10.00"));
    let text = to_text(&Talk::decode(&offer).unwrap());
    assert_eq!(text, format!("offer 10.00 USD terms sha256:{}", to_hex(&terms)));
    assert!(Talk::decode(&offer[..offer.len() - 1]).is_err());
}

#[test]
fn parse_id_needs_64_hex_digits() {
    assert!(matches!(parse_id("abc"), Err(Error::OddHex)));
    assert!(matches!(parse_id("zz"), Err(Error::BadHex)));
    assert!(matches!(parse_id("abcd"), Err(Error::ExpectedId)));
    let id = [0xabu8; 32];
    assert_eq!(parse_id(&to_hex(&id)).unwrap(), id);
    assert_eq!(from_hex("0AfF").unwrap(), vec![0x0a, 0xff]);
}

#[test]
fn caps_lists() {
    assert_eq!(parse_caps("all").unwrap(), CAP_ALL);
    assert_eq!(parse_caps("append_frame").unwrap(), CAP_APPEND);
    assert_eq!(parse_caps(" propose , accept,").unwrap(), CAP_PROPOSE | CAP_ACCEPT);
    assert_eq!(parse_caps("spawn_member,append_frame").unwrap(), CAP_SPAWN | CAP_APPEND);
    assert!(matches!(parse_caps(""), Err(Error::EmptyCaps)));
    assert!(matches!(parse_caps(" , "), Err(Error::EmptyCaps)));
    match parse_caps("propose, flying ") {
        Err(Error::UnknownCap(name)) => assert_eq!(name, "flying"),
        _ => panic!("expected an unknown cap"),
    }
    assert!(matches!(parse_caps("All"), Err(Error::UnknownCap(_))));
}

#[test]
fn credential_and_runtime_files_roundtrip() {
    let root = RootSecret::generate();
    let rt = RuntimeSecret::issue(&root, 60, CAP_APPEND);
    let bytes = rt.cred.encode();
    assert_eq!(bytes.len(), 218);
    let back = Credential::decode(&bytes).unwrap();
    assert_eq!(back.id(), rt.cred_id());
    assert_eq!(back.principal_id(), root.principal_id());
    let mut bad = bytes.clone();
    bad[100] ^= 1;
    assert!(matches!(Credential::decode(&bad), Err(Error::ParentSignatureRejected)));
    let file = rt.encode();
    let rt2 = RuntimeSecret::decode(&file).unwrap();
    assert_eq!(rt2.cred_id(), rt.cred_id());
    assert!(rt2.cred.not_after >= rt2.cred.not_before);
    let dead = RuntimeSecret::issue(&root, 0, CAP_ALL);
    assert_eq!(dead.cred.not_after, 0);
    assert!(now_unix() > 0);
}

#[test]
fn sha256_known_value() {
    assert_eq!(
        to_hex(&sha256(b"abc")),
        "ba7816bf8f01cfea414140de5dae2223b00361a396177a9cb410ff61f20015ad"
    );
}

#[test]
fn member_add_body_parses_back() {
    let rt = RuntimeSecret::issue(&RootSecret::generate(), 60, CAP_ALL);
    let body = member_add_body(&rt.cred, CAP_APPEND, &[5u8; 32], 7);
    let (cred, caps, token, gen) = wire_core::model::parse_member_add(&body).unwrap();
    assert_eq!(cred.id(), rt.cred_id());
    assert_eq!(caps, CAP_APPEND);
    assert_eq!(token, [5u8; 32]);
    assert_eq!(gen, 7);
    assert!(matches!(wire_core::model::parse_member_add(&body[..body.len() - 1]), Err(Error::Truncated)));
}
