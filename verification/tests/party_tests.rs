use wire_core::chain::Chain;
use wire_core::codec::to_hex;
use wire_core::crypto::{now_unix, random32, RootSecret};
use wire_core::error::Error;
use wire_core::model::{parse_caps, RuntimeSecret};
use wire_core::net::{OP_LIST, ST_ERR};
use wire_core::node::{parse_ttl, require_name};
use wire_core::ops::{
    admit_event, check_handle, check_invite, enroll, invite_accept, invite_mint, new_vault, rotate_handle, token_claim,
    token_matches, Handles,
};
use wire_core::relay::{parse_request, Request};

struct Party {
    root: RootSecret,
    handles: Handles,
    principal: [u8; 32],
    handle: String,
    runtime: RuntimeSecret,
}

fn party(ttl: &str, caps: &str) -> Party {
    let root = RootSecret::generate();
    let (out, handles) = new_vault(&root, &random32());
    let runtime = enroll(&root, parse_ttl(ttl).unwrap(), parse_caps(caps).unwrap());
    Party { root, handles, principal: out.principal, handle: out.handle, runtime }
}

/// `a` mints an invite file under its current handle, `b` accepts it, and
/// `a` takes `b`'s join in, spending the invite's token.
fn join(a: &Party, b: &Party) -> ([u8; 32], Chain, Chain) {
    let now = now_unix();
    check_handle(&a.handles, &a.handle).unwrap();
    let (mut log_a, invite) = invite_mint(&a.handles, &a.runtime, &a.root, now, random32(), random32()).unwrap();
    let file = invite.encode();
    let read = check_invite(&file, now).unwrap();
    let (log_b, join, _inviter) = invite_accept(&read, &b.runtime, now).unwrap();
    let token = token_claim(&join, true).unwrap().unwrap();
    assert!(token_matches(&invite.token, &token));
    admit_event(&mut log_a, join, now).unwrap();
    (read.channel_id, log_a, log_b)
}

#[test]
fn t3_invite_is_a_file_and_relay_has_no_directory() {
    match parse_request(&[OP_LIST]) {
        Request::Reject(resp) => assert_eq!(resp[0], ST_ERR),
        _ => panic!("the relay must refuse a listing"),
    }
    let a = party("1h", "all");
    let b = party("1h", "all");
    let (channel, log_a, log_b) = join(&a, &b);
    assert_eq!(log_a.len(), 2);
    assert_eq!(log_b.len(), 2);
    assert_eq!(to_hex(&channel).len(), 64);
}

#[test]
fn t8_old_handle_cannot_mint() {
    let a = party("1h", "all");
    let old = a.handle.clone();
    let (rotated, handles) = rotate_handle(&a.root, a.handles, &random32());
    assert_eq!(rotated.principal, a.principal);
    let new_handle = rotated.handle.clone();
    assert_ne!(new_handle, old);
    assert!(matches!(check_handle(&handles, &old), Err(Error::StaleHandle)));
    check_handle(&handles, &new_handle).unwrap();
    let (_log, minted) = invite_mint(&handles, &a.runtime, &a.root, now_unix(), random32(), random32()).unwrap();
    assert_eq!(to_hex(&minted.channel_id).len(), 64);
    assert_eq!(minted.handle, new_handle);
}

#[test]
fn two_names_one_principal() {
    let root = RootSecret::generate();
    assert_eq!(require_name(&["--name".to_string(), "buyer".to_string()]).unwrap(), "buyer");
    assert_eq!(require_name(&["--name".to_string(), "seller-agent".to_string()]).unwrap(), "seller-agent");
    let buyer = enroll(&root, parse_ttl("1h").unwrap(), parse_caps("all").unwrap());
    let other = enroll(&root, parse_ttl("1h").unwrap(), parse_caps("append_frame").unwrap());
    assert_eq!(buyer.cred.principal_id(), other.cred.principal_id());
    assert_ne!(buyer.cred_id(), other.cred_id());
    let again = RuntimeSecret::decode(&buyer.encode()).unwrap();
    assert_eq!(buyer.cred_id(), again.cred_id());
}
