use wire_core::chain::Chain;
use wire_core::crypto::{now_unix, RootSecret, SUITE_CLASSICAL};
use wire_core::error::Error;
use wire_core::model::{
    id_body, member_add_body, proposal_body, Event, RuntimeSecret, CAP_ALL, CAP_APPEND, T_ACCEPT,
    T_CRED_REVOKE, T_MEMBER_ADD, T_PROCEED, T_PROPOSE,
};

fn signed(runtime: &RuntimeSecret, channel: [u8; 32], prev: [u8; 32], typ: u16, body: Vec<u8>) -> Event {
    Event {
        suite: SUITE_CLASSICAL,
        channel_id: channel,
        prev,
        typ,
        signer_cred_id: runtime.cred_id(),
        signer_pub: runtime.cred.ed25519_pub,
        body,
        sig: [0u8; 64],
    }
    .sign(runtime)
    .unwrap()
}

fn genesis(runtime: &RuntimeSecret, channel: [u8; 32]) -> Event {
    let body = member_add_body(&runtime.cred, CAP_ALL, &[0u8; 32], 1);
    signed(runtime, channel, [0u8; 32], T_MEMBER_ADD, body)
}

#[test]
fn chain_detects_fork_and_truncates_without_snapshot() {
    let a = RuntimeSecret::issue(&RootSecret::generate(), 3600, CAP_ALL);
    let b = RuntimeSecret::issue(&RootSecret::generate(), 3600, CAP_ALL);
    let channel = [1u8; 32];
    let g = genesis(&a, channel);
    let gid = g.id();
    let mut chain = Chain::new();
    chain.append(g).unwrap();
    let p1 = signed(&a, channel, gid, T_PROPOSE, proposal_body(&[2u8; 32], &[3u8; 32]));
    let p2 = signed(&b, channel, gid, T_PROPOSE, proposal_body(&[4u8; 32], &[5u8; 32]));
    assert!(chain.screen(&p2, now_unix()).is_err());
    let join = signed(&b, channel, gid, T_MEMBER_ADD, member_add_body(&b.cred, CAP_ALL, &[9u8; 32], 1));
    chain.append(p1.clone()).unwrap();
    chain.append(join).unwrap();
    assert!(chain.fork_detected());
    let tip = p1.id();
    let archive = chain.truncate_below(tip).unwrap();
    assert!(archive.contains(&gid));
    assert!(chain.contains(&tip));
    assert!(chain.fork_detected());
    let loaded = Chain::decode(&chain.encode()).unwrap();
    assert!(loaded.fork_detected());
    assert!(loaded.contains(&tip));
}

#[test]
fn flipped_log_byte_fails_and_sub_cannot_accept() {
    let a = RuntimeSecret::issue(&RootSecret::generate(), 3600, CAP_ALL);
    let sub = RuntimeSecret::issue(&RootSecret::generate(), 3600, CAP_APPEND);
    let channel = [8u8; 32];
    let g = genesis(&a, channel);
    let gid = g.id();
    let mut chain = Chain::new();
    chain.append(g).unwrap();
    let join = signed(&sub, channel, gid, T_MEMBER_ADD, member_add_body(&sub.cred, CAP_APPEND, &[1u8; 32], 1));
    let jid = chain.append(join).unwrap();
    let accept = signed(&sub, channel, jid, T_ACCEPT, id_body(&[2u8; 32]));
    assert!(chain.screen(&accept, now_unix()).is_err());
    let mut bytes = chain.encode();
    bytes[20] ^= 0xff;
    assert!(Chain::decode(&bytes).is_err());
}

#[test]
fn expired_and_revoked_cannot_append() {
    let root = RootSecret::generate();
    let a = RuntimeSecret::issue(&root, 3600, CAP_ALL);
    let dead = RuntimeSecret::issue(&root, 0, CAP_ALL);
    let channel = [3u8; 32];
    let g = genesis(&a, channel);
    let gid = g.id();
    let mut chain = Chain::new();
    chain.append(g).unwrap();
    let join = signed(&dead, channel, gid, T_MEMBER_ADD, member_add_body(&dead.cred, CAP_ALL, &[1u8; 32], 1));
    assert!(chain.screen(&join, now_unix()).is_err());
    let b = RuntimeSecret::issue(&RootSecret::generate(), 3600, CAP_ALL);
    let jb = signed(&b, channel, gid, T_MEMBER_ADD, member_add_body(&b.cred, CAP_ALL, &[1u8; 32], 1));
    let jid = chain.append(jb).unwrap();
    let revoke = signed(&a, channel, jid, T_CRED_REVOKE, id_body(&b.cred_id()));
    chain.screen(&revoke, now_unix()).unwrap();
    let rid = chain.append(revoke).unwrap();
    let propose = signed(&b, channel, rid, T_PROPOSE, proposal_body(&[9u8; 32], &[1u8; 32]));
    assert!(chain.screen(&propose, now_unix()).is_err());
    assert_eq!(chain.receipt_state(&[9u8; 32]), "absent");
}

#[test]
fn saved_log_loads_back_identically() {
    let a = RuntimeSecret::issue(&RootSecret::generate(), 3600, CAP_ALL);
    let b = RuntimeSecret::issue(&RootSecret::generate(), 3600, CAP_ALL);
    let channel = [4u8; 32];
    let mut chain = Chain::new();
    let gid = chain.append(genesis(&a, channel)).unwrap();
    let jid = chain
        .append(signed(&b, channel, gid, T_MEMBER_ADD, member_add_body(&b.cred, CAP_ALL, &[2u8; 32], 1)))
        .unwrap();
    let pid = [6u8; 32];
    let p = chain.append(signed(&a, channel, jid, T_PROPOSE, proposal_body(&pid, &[1u8; 32]))).unwrap();
    assert_eq!(chain.receipt_state(&pid), "proposed");
    let acc = chain.append(signed(&b, channel, p, T_ACCEPT, id_body(&pid))).unwrap();
    chain.append(signed(&a, channel, acc, T_PROCEED, id_body(&pid))).unwrap();
    assert_eq!(chain.receipt_state(&pid), "final");
    let bytes = chain.encode();
    let loaded = Chain::decode(&bytes).unwrap();
    assert_eq!(loaded.encode(), bytes);
    assert_eq!(loaded.len(), 5);
    assert!(!loaded.fork_detected());
    assert_eq!(loaded.sole_tip().unwrap(), chain.sole_tip().unwrap());
    let members = loaded.members().unwrap();
    assert_eq!(members.len(), 2);
    assert!(loaded.revoked().unwrap().is_empty());
}

#[test]
fn append_refuses_unknown_parent_and_empty_log_has_no_tip() {
    let a = RuntimeSecret::issue(&RootSecret::generate(), 3600, CAP_ALL);
    let mut chain = Chain::new();
    assert!(matches!(chain.sole_tip(), Err(Error::EmptyChainHasNoTip)));
    let orphan = signed(&a, [1u8; 32], [7u8; 32], T_PROPOSE, proposal_body(&[1u8; 32], &[1u8; 32]));
    assert!(matches!(chain.append(orphan.clone()), Err(Error::PrevNotInChain)));
    assert!(chain.is_empty());
    let id = chain.insert(orphan, false, true).unwrap();
    assert!(chain.contains(&id));
    assert_eq!(chain.tips(), vec![id]);
    let mut forged = genesis(&a, [1u8; 32]);
    forged.body[0] ^= 1;
    assert!(matches!(chain.append(forged), Err(Error::EventSignatureRejected)));
    assert!(matches!(Chain::decode(b"WLOG"), Err(Error::Truncated)));
    assert!(matches!(Chain::decode(b"NOPE\x00\x01"), Err(Error::NotAChannelLog)));
}

#[test]
fn two_genesis_events_are_a_fork() {
    let a = RuntimeSecret::issue(&RootSecret::generate(), 3600, CAP_ALL);
    let mut chain = Chain::new();
    chain.append(genesis(&a, [1u8; 32])).unwrap();
    chain.append(genesis(&a, [2u8; 32])).unwrap();
    assert!(chain.fork_detected());
    assert!(matches!(chain.sole_tip(), Err(Error::ForkMoreThanOneTip)));
    assert!(matches!(chain.truncate_below([9u8; 32]), Err(Error::CoveredTipNotInHotLog)));
}

#[test]
fn a_second_truncation_is_allowed() {
    let a = RuntimeSecret::issue(&RootSecret::generate(), 3600, CAP_ALL);
    let channel = [6u8; 32];
    let g = genesis(&a, channel);
    let mut chain = Chain::new();
    let mut prev = chain.append(g).unwrap();
    let mut ids = vec![prev];
    for k in 0..4u8 {
        let e = signed(&a, channel, prev, T_PROPOSE, proposal_body(&[k; 32], &[k; 32]));
        prev = chain.append(e).unwrap();
        ids.push(prev);
    }
    let first = chain.truncate_below(ids[2]).unwrap();
    assert_eq!(first.len(), 2);
    assert_eq!(chain.len(), 3);
    let second = chain.truncate_below(ids[4]).unwrap();
    assert_eq!(second.len(), 2);
    assert!(second.contains(&ids[2]) && second.contains(&ids[3]));
    assert_eq!(chain.len(), 1);
    assert!(chain.contains(&ids[4]));
    let reloaded = Chain::decode(&second.encode()).unwrap();
    assert_eq!(reloaded.len(), 2);
    assert!(matches!(chain.truncate_below([9u8; 32]), Err(Error::CoveredTipNotInHotLog)));
    assert_eq!(chain.len(), 1);
}

#[test]
fn cold_log_reads_back_and_event_prefixes_are_refused() {
    let a = RuntimeSecret::issue(&RootSecret::generate(), 3600, CAP_ALL);
    let channel = [5u8; 32];
    let mut chain = Chain::new();
    let mut prev = chain.append(genesis(&a, channel)).unwrap();
    for k in 0..40u8 {
        let e = signed(&a, channel, prev, T_PROPOSE, proposal_body(&[k; 32], &[0u8; 32]));
        prev = chain.append(e).unwrap();
    }
    let cold = chain.encode_cold();
    assert_eq!(&cold[..4], b"WLZ4");
    let raw = wire_core::pack::unpack_stored(&cold).unwrap();
    assert_eq!(raw, chain.encode());
    let back = Chain::decode(&raw).unwrap();
    assert_eq!(back.len(), chain.len());
    let stored = chain.events()[1].encode();
    assert!(Event::decode(&stored).is_ok());
    assert!(Event::decode(&stored[..stored.len() - 1]).is_err());
    let mut longer = stored.clone();
    longer.push(0);
    assert!(Event::decode(&longer).is_err());
}

#[test]
fn truncation_archives_every_ancestor_and_hot_log_loads_back() {
    let a = RuntimeSecret::issue(&RootSecret::generate(), 3600, CAP_ALL);
    let channel = [4u8; 32];
    let mut chain = Chain::new();
    let gid = chain.append(genesis(&a, channel)).unwrap();
    let side = signed(&a, channel, gid, T_PROPOSE, proposal_body(&[7u8; 32], &[7u8; 32]));
    let side_id = side.id();
    let mut prev = gid;
    for k in 0..300u32 {
        let mut seed = [0u8; 32];
        seed[..4].copy_from_slice(&k.to_be_bytes());
        let e = signed(&a, channel, prev, T_PROPOSE, proposal_body(&seed, &[1u8; 32]));
        prev = chain.append(e).unwrap();
    }
    chain.append(side).unwrap();
    assert_eq!(chain.len(), 302);
    assert!(chain.fork_detected());
    let tip = prev;
    let archive = chain.truncate_below(tip).unwrap();
    assert_eq!(archive.len(), 300);
    assert!(archive.contains(&gid));
    assert_eq!(chain.len(), 2);
    assert!(chain.contains(&tip) && chain.contains(&side_id));
    let loaded = Chain::decode(&chain.encode()).unwrap();
    let ids = |c: &Chain| c.events().iter().map(|e| e.id()).collect::<Vec<_>>();
    assert_eq!(ids(&loaded), ids(&chain));
    assert_eq!(loaded.tips(), chain.tips());
    assert_eq!(loaded.encode(), chain.encode());
    assert!(loaded.fork_detected());
    let mut grown = loaded;
    let next = signed(&a, channel, tip, T_PROPOSE, proposal_body(&[8u8; 32], &[8u8; 32]));
    grown.append(next).unwrap();
    let again = Chain::decode(&grown.encode()).unwrap();
    assert_eq!(ids(&again), ids(&grown));
    assert_eq!(again.encode(), grown.encode());
}
