use wire_core::chain::Chain;
use wire_core::crypto::{now_unix, open, seal, AgreeSecret, RootSecret, KIND_EPHEMERAL, KIND_LEDGER, SUITE_CLASSICAL};
use wire_core::error::Error;
use wire_core::model::{Invite, RuntimeSecret, CAP_ALL, CAP_APPEND};
use wire_core::ops::{
    check_handle, check_invite, cred_revoke, enroll, export_receipt, invite_accept, invite_mint, ledger_step, new_vault, LedgerStep,
    open_delivery, others, parse_root, poll, receipt, receipt_state, root_bytes, rotate_handle, send_frame,
    share_identity, show_share, token_claim, token_matches, truncate, verify_receipt, Delivery, Handles,
};
use wire_core::pack::pack_payload;

struct Pair {
    a: RuntimeSecret,
    b: RuntimeSecret,
    log_a: Chain,
    log_b: Chain,
    channel: [u8; 32],
}

/// A channel opened by `a` and joined by `b`, with both logs in step.
fn joined_pair() -> Pair {
    let root_a = RootSecret::generate();
    let root_b = RootSecret::generate();
    let (_out, handles) = new_vault(&root_a, &[7u8; 32]);
    let a = enroll(&root_a, 3600, CAP_ALL);
    let b = enroll(&root_b, 3600, CAP_ALL);
    let now = now_unix();
    let channel = [9u8; 32];
    let (mut log_a, invite) = invite_mint(&handles, &a, &root_a, now, channel, [5u8; 32]).unwrap();
    let invite = check_invite(&invite.encode(), now).unwrap();
    let (log_b, join, inviter) = invite_accept(&invite, &b, now).unwrap();
    assert_eq!(inviter.id(), a.cred_id());
    let claimed = token_claim(&join, true).unwrap();
    assert_eq!(claimed, Some([5u8; 32]));
    assert!(token_matches(&[5u8; 32], &claimed.unwrap()));
    wire_core::ops::admit_event(&mut log_a, join, now).unwrap();
    Pair { a, b, log_a, log_b, channel }
}

#[test]
fn vault_files_and_handles_roundtrip() {
    let root = RootSecret::from_bytes(&[3u8; 32]);
    let back = parse_root(&root_bytes(&root)).unwrap();
    assert_eq!(back.to_bytes(), [3u8; 32]);
    assert!(matches!(parse_root(b"nope"), Err(Error::NotAVault)));
    let (out, handles) = new_vault(&root, &[0xabu8; 32]);
    assert_eq!(out.handle, "abababababababababababababababab");
    assert_eq!(out.principal, root.principal_id());
    assert_eq!(handles.gen, 1);
    let again = Handles::decode(&handles.encode()).unwrap();
    assert_eq!(again.current, handles.current);
    assert_eq!(again.gen, 1);
    let (out2, rotated) = rotate_handle(&root, handles, &[0x01u8; 32]);
    assert_eq!(rotated.gen, 2);
    assert_eq!(out2.handle, "01010101010101010101010101010101");
    assert_eq!(rotated.retired, vec!["abababababababababababababababab".to_string()]);
    assert!(check_handle(&rotated, "01010101010101010101010101010101").is_ok());
    assert!(matches!(check_handle(&rotated, "abababababababababababababababab"), Err(Error::StaleHandle)));
}

#[test]
fn invite_from_another_vault_or_expired_is_refused() {
    let root_a = RootSecret::generate();
    let root_b = RootSecret::generate();
    let (_out, handles) = new_vault(&root_a, &[1u8; 32]);
    let stranger = enroll(&root_b, 3600, CAP_ALL);
    let now = now_unix();
    assert!(matches!(
        invite_mint(&handles, &stranger, &root_a, now, [2u8; 32], [3u8; 32]),
        Err(Error::RuntimeNotFromVault)
    ));
    let a = enroll(&root_a, 3600, CAP_ALL);
    let (_log, invite) = invite_mint(&handles, &a, &root_a, now, [2u8; 32], [3u8; 32]).unwrap();
    let bytes = invite.encode();
    assert!(matches!(check_invite(&bytes, now + 86400), Err(Error::InviteExpired)));
    let read: Invite = check_invite(&bytes, now).unwrap();
    assert_eq!(read.expires, now + 86400);
    let dead = enroll(&root_b, 0, CAP_ALL);
    assert!(matches!(invite_accept(&read, &dead, now), Err(Error::CredentialExpired)));
}

#[test]
fn receipt_steps_export_and_verify() {
    let mut p = joined_pair();
    let now = now_unix();
    let content = b"the agreed terms".to_vec();
    let (propose, pid, _hash) =
        receipt(&mut p.log_a, &p.a, &p.channel, "propose", None, Some(&content), [4u8; 32], now).unwrap();
    assert_eq!(pid, [4u8; 32]);
    assert_eq!(receipt_state(&p.log_a, &pid), "proposed");
    wire_core::ops::admit_event(&mut p.log_b, propose, now).unwrap();
    let (accept, _, _) = receipt(&mut p.log_b, &p.b, &p.channel, "accept", Some(pid), None, [0u8; 32], now).unwrap();
    wire_core::ops::admit_event(&mut p.log_a, accept, now).unwrap();
    assert!(matches!(
        receipt(&mut p.log_b, &p.b, &p.channel, "proceed", Some(pid), None, [0u8; 32], now),
        Err(Error::ProceedMustBeProposer)
    ));
    let (proceed, _, _) = receipt(&mut p.log_a, &p.a, &p.channel, "proceed", Some(pid), None, [0u8; 32], now).unwrap();
    wire_core::ops::admit_event(&mut p.log_b, proceed, now).unwrap();
    assert_eq!(receipt_state(&p.log_a, &pid), "final");
    assert_eq!(receipt_state(&p.log_b, &pid), "final");
    let bundle = export_receipt(&p.log_a, &pid).unwrap();
    assert!(verify_receipt(&bundle, Some(&content)).is_ok());
    assert!(verify_receipt(&bundle, None).is_ok());
    assert!(matches!(verify_receipt(&bundle, Some(b"other terms")), Err(Error::ContentHashMismatch)));
    assert!(matches!(export_receipt(&p.log_a, &[8u8; 32]), Err(Error::ArchiveRequired)));
}

#[test]
fn receipt_refuses_bad_steps() {
    let mut p = joined_pair();
    let now = now_unix();
    assert!(matches!(
        receipt(&mut p.log_a, &p.a, &p.channel, "approve", None, None, [0u8; 32], now),
        Err(Error::UnknownReceiptAction(a)) if a == "approve"
    ));
    assert!(matches!(
        receipt(&mut p.log_a, &p.a, &p.channel, "propose", None, None, [0u8; 32], now),
        Err(Error::ProposeRequiresContent)
    ));
    assert!(matches!(
        receipt(&mut p.log_a, &p.a, &p.channel, "accept", None, None, [0u8; 32], now),
        Err(Error::MissingProposal)
    ));
    assert!(matches!(
        receipt(&mut p.log_a, &p.a, &p.channel, "accept", Some([6u8; 32]), None, [0u8; 32], now),
        Err(Error::UnknownProposal)
    ));
    let (_e, pid, _h) =
        receipt(&mut p.log_a, &p.a, &p.channel, "propose", None, Some(b"x"), [6u8; 32], now).unwrap();
    assert!(matches!(
        receipt(&mut p.log_a, &p.a, &p.channel, "proceed", Some(pid), None, [0u8; 32], now),
        Err(Error::ProceedWithoutAccept)
    ));
    assert_eq!(p.log_a.len(), 3);
}

#[test]
fn identity_share_opens_for_the_counterparty_only() {
    let mut p = joined_pair();
    let now = now_unix();
    let others_a = others(&p.log_a, &p.a.cred_id()).unwrap();
    assert_eq!(others_a.len(), 1);
    assert_eq!(others_a[0].id(), p.b.cred_id());
    let share = share_identity(&mut p.log_a, &p.a, &p.channel, b"alice@example.org", &[1u8; 24], now).unwrap();
    wire_core::ops::admit_event(&mut p.log_b, share, now).unwrap();
    assert_eq!(show_share(&p.log_b, &p.b).unwrap(), b"alice@example.org".to_vec());
    assert!(matches!(show_share(&p.log_a, &p.a), Err(Error::NoShareForRuntime)));
}

#[test]
fn frames_go_to_the_other_members() {
    let p = joined_pair();
    let targets = send_frame(&p.log_a, &p.a).unwrap();
    assert_eq!(targets.len(), 1);
    assert_eq!(targets[0].id(), p.b.cred_id());
    let outsider = enroll(&RootSecret::generate(), 3600, CAP_APPEND);
    assert!(matches!(send_frame(&p.log_a, &outsider), Err(Error::NotAMember)));
}

#[test]
fn deliveries_open_as_frames_or_ledger_events() {
    let p = joined_pair();
    let target = &send_frame(&p.log_a, &p.a).unwrap()[0];
    let payload = pack_payload(b"hello there");
    let env = seal(
        SUITE_CLASSICAL,
        KIND_EPHEMERAL,
        &p.a.agree,
        &p.a.cred_id(),
        &target.id(),
        &target.x25519_pub,
        &p.channel,
        &payload,
    )
    .unwrap();
    match open_delivery(&p.b, &env).unwrap() {
        Delivery::Frame(bytes) => assert_eq!(bytes, b"hello there".to_vec()),
        Delivery::Ledger(_) => panic!("expected a frame"),
    }
    let event = p.log_a.events()[1].clone();
    let ledger = seal(
        SUITE_CLASSICAL,
        KIND_LEDGER,
        &p.a.agree,
        &p.a.cred_id(),
        &target.id(),
        &target.x25519_pub,
        &[1u8; 32],
        &event.encode(),
    )
    .unwrap();
    assert!(matches!(open_delivery(&p.b, &ledger), Err(Error::ChannelMismatch)));
    let stranger = AgreeSecret::generate();
    assert!(open(&stranger, &p.b.cred_id(), &env).is_err());
}

#[test]
fn poll_counts_deliveries_and_reports_the_first_failure() {
    let out = poll(vec![Ok(Some(vec![1u8])), Ok(None), Ok(Some(vec![2u8, 3u8]))]).unwrap();
    assert_eq!(out.ephemeral, 2);
    assert_eq!(out.ledger, 1);
    assert_eq!(out.payloads, vec![vec![1u8], vec![2u8, 3u8]]);
    let failed = poll(vec![Ok(None), Err(Error::OpenFailed), Err(Error::ChannelMismatch)]);
    assert!(matches!(failed, Err(Error::OpenFailed)));
}

#[test]
fn revoked_member_and_truncation() {
    let mut p = joined_pair();
    let now = now_unix();
    let revoke = cred_revoke(&mut p.log_a, &p.a, &p.channel, &p.b.cred_id(), now).unwrap();
    assert_eq!(p.log_a.len(), 3);
    assert!(p.log_a.contains(&revoke.id()));
    let archive = truncate(&mut p.log_a).unwrap();
    assert_eq!(archive.len(), 2);
    assert_eq!(p.log_a.len(), 1);
    let mut empty = Chain::new();
    assert!(matches!(truncate(&mut empty), Err(Error::EmptyChain)));
}

#[test]
fn delivered_join_spends_the_awaited_token_once() {
    let root_a = RootSecret::generate();
    let (_out, handles) = new_vault(&root_a, &[7u8; 32]);
    let a = enroll(&root_a, 3600, CAP_ALL);
    let b = enroll(&RootSecret::generate(), 3600, CAP_ALL);
    let now = now_unix();
    let (mut log_a, invite) = invite_mint(&handles, &a, &root_a, now, [9u8; 32], [5u8; 32]).unwrap();
    let (_log_b, join, _inviter) = invite_accept(&invite, &b, now).unwrap();
    assert!(matches!(ledger_step(&log_a, &join, Some(&[6u8; 32])), Err(Error::InviteTokenRejected)));
    assert!(matches!(ledger_step(&log_a, &join, Some(&[5u8; 32])), Ok(LedgerStep::Admit { spend_token: true })));
    assert!(matches!(ledger_step(&log_a, &join, None), Ok(LedgerStep::Admit { spend_token: false })));
    wire_core::ops::admit_event(&mut log_a, join.clone(), now).unwrap();
    assert!(matches!(ledger_step(&log_a, &join, Some(&[6u8; 32])), Ok(LedgerStep::Held)));
}
