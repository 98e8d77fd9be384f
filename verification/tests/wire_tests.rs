use wire_core::codec::to_hex;
use wire_core::error::Error;
use wire_core::metrics::{format_record, format_summary, header, read_file, summarize, Record, ACK, PUSH};
use wire_core::net::{ack_request, parse_pull_reply, pull_request, push_request, status_ok, frame_body_len, frame_prefix};
use wire_core::pack::{pack_cold, unpack_stored};
use wire_core::plugin::{decode_reply, decode_request, encode_reply, encode_request};
use wire_core::relay::{parse_request, push_record, spool_blob, RelayState, Request};
use wire_core::talk::{to_text, Talk};

fn push_of(req: &[u8]) -> wire_core::relay::PushRequest {
    match parse_request(req) {
        Request::Push(p) => p,
        _ => panic!("expected a push"),
    }
}

#[test]
fn relay_requests_are_checked() {
    let reject = |req: &[u8], msg: &str| match parse_request(req) {
        Request::Reject(reply) => {
            let mut want = vec![1u8];
            want.extend_from_slice(msg.as_bytes());
            assert_eq!(reply, want);
        }
        _ => panic!("expected a refusal"),
    };
    reject(&[], "empty");
    reject(&[1u8; 50], "short push");
    reject(&[1u8; 97], "empty envelope");
    reject(&[2u8; 10], "short pull");
    reject(&[3u8; 64], "short ack");
    reject(&[9u8], "no directory");
    reject(&[7u8, 1, 2], "no directory");
}

#[test]
fn pushed_envelope_is_pulled_then_acked_away() {
    let mut state = RelayState::new();
    let a = [1u8; 32];
    let b = [2u8; 32];
    let req = push_request(&a, &b, &[10u8; 32], b"sealed-one");
    let p = push_of(&req);
    assert_eq!(p.envelope, b"sealed-one");
    let rec = push_record(&p, 5);
    assert_eq!(rec.tag, PUSH);
    assert_eq!(rec.cipher_len, 10);
    assert_eq!(rec.suite, 0);
    let blob = spool_blob(7, &p);
    assert_eq!(&blob[..8], &7u64.to_be_bytes());
    assert_eq!(&blob[72..], b"sealed-one");
    state.enqueue(p, 5);
    state.enqueue(push_of(&push_request(&a, &b, &[11u8; 32], b"two")), 6);
    state.enqueue(push_of(&push_request(&b, &a, &[12u8; 32], b"other")), 7);
    let reply = state.pull_reply(&b);
    let items = parse_pull_reply(&reply).unwrap();
    assert_eq!(items, vec![([10u8; 32], b"sealed-one".to_vec()), ([11u8; 32], b"two".to_vec())]);
    match parse_request(&pull_request(&b)) {
        Request::Pull(r) => assert_eq!(r, b),
        _ => panic!("expected a pull"),
    }
    let (r, id) = match parse_request(&ack_request(&b, &[10u8; 32])) {
        Request::Ack(r, id) => (r, id),
        _ => panic!("expected an ack"),
    };
    let found = state.take_ack(&r, &id, 9).unwrap();
    assert_eq!(found.tag, ACK);
    assert_eq!(found.time_ms, 9);
    assert_eq!(found.sender, a);
    assert!(state.take_ack(&r, &id, 10).is_none());
    let items = parse_pull_reply(&state.pull_reply(&b)).unwrap();
    assert_eq!(items, vec![([11u8; 32], b"two".to_vec())]);
    assert_eq!(parse_pull_reply(&state.pull_reply(&a)).unwrap().len(), 1);
    assert!(parse_pull_reply(&state.pull_reply(&[3u8; 32])).unwrap().is_empty());
    assert_eq!(state.queued_count(&b), 1);
    assert_eq!(state.queued_count(&a), 1);
    assert_eq!(state.queued_count(&[3u8; 32]), 0);
}

#[test]
fn client_reads_relay_replies() {
    assert!(status_ok(&[0]).is_ok());
    match status_ok(b"\x01short push") {
        Err(Error::Relay(msg)) => assert_eq!(msg, b"short push"),
        _ => panic!("expected a relay error"),
    }
    assert!(matches!(parse_pull_reply(&[1]), Err(Error::RelayPullRejected)));
    assert!(matches!(parse_pull_reply(&[0, 0, 0]), Err(Error::ShortPullResponse)));
    assert!(matches!(parse_pull_reply(&[0, 0, 0, 0, 1, 5]), Err(Error::TruncatedPullItem)));
    let mut r = vec![0u8, 0, 0, 0, 1];
    r.extend_from_slice(&[4u8; 32]);
    r.extend_from_slice(&[0, 0, 0, 9, 1]);
    assert!(matches!(parse_pull_reply(&r), Err(Error::TruncatedPullEnvelope)));
    assert_eq!(frame_prefix(5).unwrap(), [0, 0, 0, 5]);
    assert!(matches!(frame_prefix(8 * 1024 * 1024 + 1), Err(Error::FrameTooLarge)));
    assert_eq!(frame_body_len(&[0, 0, 1, 0]).unwrap(), 256);
    assert!(matches!(frame_body_len(&[0xff, 0, 0, 0]), Err(Error::FrameTooLarge)));
}

fn record(tag: u8, time_ms: u64, env: u8, kind: u8, len: u32) -> Record {
    Record {
        tag,
        time_ms,
        sender: [1u8; 32],
        recipient: [2u8; 32],
        env_id: [env; 32],
        cipher_len: len,
        suite: 1,
        kind,
        channel: [3u8; 32],
    }
}

#[test]
fn metrics_lines_read_back() {
    let r = record(PUSH, 1234, 5, 1, 99);
    let line = format_record(&r);
    assert_eq!(
        line,
        format!(
            "push time_ms=1234 sender={} recipient={} env={} bytes=99 suite=1 kind=1 channel={}\n",
            to_hex(&[1u8; 32]),
            to_hex(&[2u8; 32]),
            to_hex(&[5u8; 32]),
            to_hex(&[3u8; 32])
        )
    );
    let mut file = String::from(header());
    file.push_str(&line);
    file.push_str("\r\n");
    file.push_str(&format_record(&record(ACK, 1300, 5, 1, 99)));
    let recs = read_file(file.as_bytes()).unwrap();
    assert_eq!(recs.len(), 2);
    assert_eq!(recs[0].time_ms, 1234);
    assert_eq!(recs[1].tag, ACK);
    assert_eq!(recs[0].env_id, [5u8; 32]);
    assert!(matches!(read_file(b"nope\n"), Err(Error::NotAMetricsFile)));
    assert!(matches!(read_file(b""), Err(Error::NotAMetricsFile)));
    assert!(matches!(read_file(&[0xff, 0xfe]), Err(Error::MetricsNotUtf8)));
    assert!(matches!(read_file(b"wire-metrics 1\nput x=1\n"), Err(Error::BadMetricsLine)));
    assert!(matches!(read_file(b"wire-metrics 1\npush x\n"), Err(Error::BadMetricsField)));
    assert!(matches!(read_file(b"wire-metrics 1\npush x=1\n"), Err(Error::UnknownMetricsField)));
    assert!(matches!(read_file(b"wire-metrics 1\npush time_ms=-1\n"), Err(Error::BadTimeMs)));
    assert!(matches!(read_file(b"wire-metrics 1\npush time_ms=1\n"), Err(Error::MissingSender)));
    assert!(matches!(read_file(b"wire-metrics 1\npush sender=00\n"), Err(Error::BadMetricsId)));
    assert!(matches!(read_file(b"wire-metrics 1\npush kind=256\n"), Err(Error::BadKind)));
}

#[test]
fn summary_pairs_pushes_with_acks() {
    let recs = vec![
        record(PUSH, 1000, 1, 1, 100),
        record(PUSH, 1100, 2, 2, 50),
        record(PUSH, 1200, 3, 1, 7),
        record(ACK, 1500, 1, 1, 100),
        record(ACK, 3000, 2, 2, 50),
    ];
    let s = summarize(&recs);
    assert_eq!(s.ephemeral_transfers, 1);
    assert_eq!(s.ephemeral_bytes, 100);
    assert_eq!(s.persisted_transfers, 1);
    assert_eq!(s.persisted_bytes, 50);
    assert_eq!(s.in_flight, 1);
    assert_eq!(s.window_ms, 2000);
    assert_eq!(s.ack_latency_ms_max, 1900);
    assert_eq!(
        format_summary(&s),
        "ephemeral_transfers 1\nephemeral_bytes 100\nephemeral_bytes_per_sec 50\npersisted_transfers 1\npersisted_bytes 50\npersisted_bytes_per_sec 25\nin_flight 1\nwindow_ms 2000\nack_latency_ms_max 1900\n"
    );
    let empty = summarize(&[]);
    assert_eq!(empty.window_ms, 0);
    assert!(format_summary(&empty).contains("ephemeral_bytes_per_sec 0\n"));
}

#[test]
fn talk_messages_roundtrip_and_read_as_text() {
    let msgs = vec![
        Talk::Say("héllo".into()),
        Talk::Offer { minor: 5, currency: 978, terms: [1u8; 32] },
        Talk::Counter { minor: 1234, currency: 392, terms: [2u8; 32] },
        Talk::Agree { terms: [3u8; 32] },
        Talk::BlobRef { size: 4096, hash: [4u8; 32] },
        Talk::Offer { minor: 77, currency: 1, terms: [5u8; 32] },
    ];
    for m in &msgs {
        assert_eq!(&Talk::decode(&m.encode()).unwrap(), m);
    }
    assert_eq!(to_text(&msgs[0]), "say héllo");
    assert!(to_text(&msgs[1]).starts_with("offer 0.05 EUR terms sha256:0101"));
    assert!(to_text(&msgs[2]).starts_with("counter 1234 JPY terms sha256:"));
    assert!(to_text(&msgs[4]).starts_with("blob 4096 bytes sha256:0404"));
    assert!(to_text(&msgs[5]).starts_with("offer 77 currency 1 terms"));
    assert!(matches!(Talk::decode(&[0x16]), Err(Error::UnknownTalkTag)));
    assert!(matches!(Talk::decode(&[0x11, 1, 0xff]), Err(Error::TalkSayUtf8)));
    assert!(matches!(Talk::decode(&[0x11, 0, 0]), Err(Error::TrailingBytes)));
    let long = "x".repeat(300);
    assert_eq!(Talk::Say(long).encode().len(), 257);
}

#[test]
fn cold_files_read_back() {
    let raw = vec![b'z'; 4096];
    let cold = pack_cold(&raw);
    assert_eq!(&cold[..4], b"WLZ4");
    assert!(cold.len() < raw.len());
    assert_eq!(unpack_stored(&cold).unwrap(), raw);
    let small = b"WLOG-short".to_vec();
    assert_eq!(pack_cold(&small), small);
    assert_eq!(unpack_stored(&small).unwrap(), small);
    assert!(matches!(unpack_stored(b"WLZ4\xff"), Err(Error::Lz4DecompressFailed)));
    assert!(matches!(wire_core::pack::unpack_payload(&[]), Err(Error::EmptyPackedPayload)));
    assert!(matches!(wire_core::pack::unpack_payload(&[9, 1]), Err(Error::BadPayloadPacking)));
}

#[test]
fn plugin_frames_roundtrip() {
    let args = vec!["receipt".to_string(), "propose".to_string(), "--name".to_string(), "dé".to_string()];
    let blobs = vec![b"one".to_vec(), Vec::new()];
    let req = encode_request(&args, &blobs);
    assert_eq!(decode_request(&req).unwrap(), (args, blobs.clone()));
    let reply = decode_reply(&encode_reply(false, "capability denied", &blobs)).unwrap();
    assert!(!reply.ok);
    assert_eq!(reply.text, "capability denied");
    assert_eq!(reply.blobs, blobs);
    assert!(decode_reply(&encode_reply(true, "ok\n", &[])).unwrap().ok);
    assert!(matches!(decode_request(&[0, 2, 0, 0, 0, 0]), Err(Error::BadPluginRequest)));
    assert!(matches!(decode_request(&[0, 1, 0, 0, 0, 1, 0, 0, 0, 1, 0xff, 0, 0, 0, 0]), Err(Error::PluginArgUtf8)));
    let mut trailing = encode_request(&[], &[]);
    trailing.push(0);
    assert!(matches!(decode_request(&trailing), Err(Error::TrailingBytes)));
}
