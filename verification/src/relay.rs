use vstd::prelude::*;

use crate::codec::{be32, be64, lemma_be32, u32_of};
use crate::crypto::{peek_clear, peek_clear_result, zeros32};
use crate::error::Error;
use crate::metrics::{Record, RecordView, ACK, PUSH};
use crate::net::{pull_items_at, pull_reply_result, OP_ACK, OP_PULL, OP_PUSH, ST_ERR, ST_OK};
use vstd::string::StringSliceAdditionalSpecFns;

verus! {

/// A relay keeps sealed envelopes for their recipients until acked. This
/// module decides what the relay does with each request; the server around
/// it moves the bytes, keeps the spool files and appends the metrics lines.
/// An envelope waiting for its recipient.
pub struct Pending {
    pub recipient: [u8; 32],
    pub env_id: [u8; 32],
    pub sender: [u8; 32],
    pub envelope: Vec<u8>,
    pub arrival_ms: u64,
    pub suite: u16,
    pub kind: u8,
    pub channel: [u8; 32],
}

pub struct PendingView {
    pub recipient: Seq<u8>,
    pub env_id: Seq<u8>,
    pub sender: Seq<u8>,
    pub envelope: Seq<u8>,
    pub arrival_ms: u64,
    pub suite: u16,
    pub kind: u8,
    pub channel: Seq<u8>,
}

impl View for Pending {
    type V = PendingView;

    open spec fn view(&self) -> PendingView {
        PendingView {
            recipient: self.recipient@,
            env_id: self.env_id@,
            sender: self.sender@,
            envelope: self.envelope@,
            arrival_ms: self.arrival_ms,
            suite: self.suite,
            kind: self.kind,
            channel: self.channel@,
        }
    }
}

/// A well-formed push: who sends, to whom, under which id, and the sealed
/// envelope.
pub struct PushRequest {
    pub sender: [u8; 32],
    pub recipient: [u8; 32],
    pub env_id: [u8; 32],
    pub envelope: Vec<u8>,
}

/// What a request asks of the relay.
pub enum Request {
    Push(PushRequest),
    Pull([u8; 32]),
    Ack([u8; 32], [u8; 32]),
    /// The request is refused with this reply.
    Reject(Vec<u8>),
}

/// An error reply: `ST_ERR`, then the message.
pub open spec fn error_reply_bytes(msg: &str) -> Seq<u8> {
    seq![ST_ERR] + msg.spec_bytes()
}

pub fn error_reply(msg: &str) -> (out: Vec<u8>)
    ensures
        out@ == error_reply_bytes(msg),
{
    let mut v: Vec<u8> = Vec::new();
    v.push(ST_ERR);
    let b = msg.as_bytes();
    let mut i: usize = 0;
    while i < b.len()
        invariant
            i <= b@.len(),
            b@ == msg.spec_bytes(),
            v@ == seq![ST_ERR] + b@.subrange(0, i as int),
        decreases b@.len() - i,
    {
        v.push(b[i]);
        i = i + 1;
        assert(v@ =~= seq![ST_ERR] + b@.subrange(0, i as int));
    }
    assert(b@.subrange(0, i as int) =~= b@);
    v
}

/// The reply refusing a request, if the request is refused.
pub open spec fn refusal(req: Seq<u8>) -> Option<Seq<u8>> {
    if req.len() == 0 {
        Some(error_reply_bytes("empty"))
    } else if req[0] == OP_PUSH {
        if req.len() < 97 {
            Some(error_reply_bytes("short push"))
        } else if req.len() == 97 {
            Some(error_reply_bytes("empty envelope"))
        } else {
            None
        }
    } else if req[0] == OP_PULL {
        if req.len() != 33 {
            Some(error_reply_bytes("short pull"))
        } else {
            None
        }
    } else if req[0] == OP_ACK {
        if req.len() != 65 {
            Some(error_reply_bytes("short ack"))
        } else {
            None
        }
    } else {
        Some(error_reply_bytes("no directory"))
    }
}

fn copy32(b: &[u8], at: usize) -> (out: [u8; 32])
    requires
        at <= 65,
        at + 32 <= b@.len(),
    ensures
        out@ == b@.subrange(at as int, at + 32),
{
    crate::codec::array32(vstd::slice::slice_subrange(b, at, at + 32))
}

/// Reads a request frame.
pub fn parse_request(req: &[u8]) -> (r: Request)
    ensures
        match r {
            Request::Reject(reply) => refusal(req@) == Some(reply@),
            Request::Push(p) => refusal(req@) is None && req@[0] == OP_PUSH && p.sender@ == req@.subrange(1, 33)
                && p.recipient@ == req@.subrange(33, 65) && p.env_id@ == req@.subrange(65, 97)
                && p.envelope@ == req@.subrange(97, req@.len() as int),
            Request::Pull(rcp) => refusal(req@) is None && req@[0] == OP_PULL && rcp@ == req@.subrange(1, 33),
            Request::Ack(rcp, id) => refusal(req@) is None && req@[0] == OP_ACK && rcp@ == req@.subrange(1, 33)
                && id@ == req@.subrange(33, 65),
        },
{
    if req.len() == 0 {
        return Request::Reject(error_reply("empty"));
    }
    let op = req[0];
    if op == OP_PUSH {
        if req.len() < 97 {
            return Request::Reject(error_reply("short push"));
        }
        if req.len() == 97 {
            return Request::Reject(error_reply("empty envelope"));
        }
        let envelope = vstd::slice::slice_to_vec(vstd::slice::slice_subrange(req, 97, req.len()));
        Request::Push(
            PushRequest {
                sender: copy32(req, 1),
                recipient: copy32(req, 33),
                env_id: copy32(req, 65),
                envelope,
            },
        )
    } else if op == OP_PULL {
        if req.len() != 33 {
            return Request::Reject(error_reply("short pull"));
        }
        Request::Pull(copy32(req, 1))
    } else if op == OP_ACK {
        if req.len() != 65 {
            return Request::Reject(error_reply("short ack"));
        }
        Request::Ack(copy32(req, 1), copy32(req, 33))
    } else {
        Request::Reject(error_reply("no directory"))
    }
}

/// The spool file of a pushed envelope: the arrival time in seconds, the
/// sender, the recipient and the envelope.
pub open spec fn spool_bytes(arrival_secs: u64, sender: Seq<u8>, recipient: Seq<u8>, envelope: Seq<u8>) -> Seq<u8> {
    be64(arrival_secs) + sender + recipient + envelope
}

pub fn spool_blob(arrival_secs: u64, p: &PushRequest) -> (out: Vec<u8>)
    ensures
        out@ == spool_bytes(arrival_secs, p.sender@, p.recipient@, p.envelope@),
{
    let mut w = crate::codec::Writer::new();
    w.u64(arrival_secs);
    w.arr32(&p.sender);
    w.arr32(&p.recipient);
    w.bytes(p.envelope.as_slice());
    w.finish()
}

/// The suite, kind and channel a relay reads from an envelope's clear
/// header; zeros when the header does not parse.
pub open spec fn clear_fields(envelope: Seq<u8>) -> (u16, u8, Seq<u8>) {
    match peek_clear_result(envelope) {
        Ok((suite, kind, channel)) => (suite, kind, channel),
        Err(_) => (0, 0, zeros32()),
    }
}

fn clear_fields_exec(envelope: &[u8]) -> (r: (u16, u8, [u8; 32]))
    ensures
        clear_fields(envelope@) == (r.0, r.1, r.2@),
{
    match peek_clear(envelope) {
        Ok(h) => (h.suite, h.kind, h.channel_id),
        Err(_) => {
            let z = [0u8; 32];
            proof {
                assert(z@ =~= zeros32());
            }
            (0, 0, z)
        },
    }
}

/// The metrics record of a push.
pub fn push_record(p: &PushRequest, arrival_ms: u64) -> (rec: Record)
    ensures
        rec@ == (RecordView {
            tag: PUSH,
            time_ms: arrival_ms,
            sender: p.sender@,
            recipient: p.recipient@,
            env_id: p.env_id@,
            cipher_len: p.envelope@.len() as u32,
            suite: clear_fields(p.envelope@).0,
            kind: clear_fields(p.envelope@).1,
            channel: clear_fields(p.envelope@).2,
        }),
{
    let (suite, kind, channel) = clear_fields_exec(p.envelope.as_slice());
    Record {
        tag: PUSH,
        time_ms: arrival_ms,
        sender: p.sender,
        recipient: p.recipient,
        env_id: p.env_id,
        cipher_len: p.envelope.len() as u32,
        suite,
        kind,
        channel,
    }
}

// ---------------------------------------------------------------------------
// The queue
// ---------------------------------------------------------------------------

/// The envelopes waiting, in arrival order.
pub struct RelayState {
    pending: Vec<Pending>,
}

impl View for RelayState {
    type V = Seq<PendingView>;

    closed spec fn view(&self) -> Seq<PendingView> {
        self.pending@.map_values(|p: Pending| p@)
    }
}

/// The (id, envelope) pairs waiting for `r`, in arrival order.
pub open spec fn queued_for(ps: Seq<PendingView>, r: Seq<u8>) -> Seq<(Seq<u8>, Seq<u8>)>
    decreases ps.len(),
{
    if ps.len() == 0 {
        Seq::empty()
    } else {
        let rest = queued_for(ps.drop_last(), r);
        if ps.last().recipient == r {
            rest.push((ps.last().env_id, ps.last().envelope))
        } else {
            rest
        }
    }
}

/// The queue once every entry for `r` under `id` is dropped.
pub open spec fn without(ps: Seq<PendingView>, r: Seq<u8>, id: Seq<u8>) -> Seq<PendingView>
    decreases ps.len(),
{
    if ps.len() == 0 {
        Seq::empty()
    } else {
        let rest = without(ps.drop_last(), r, id);
        if ps.last().recipient == r && ps.last().env_id == id {
            rest
        } else {
            rest.push(ps.last())
        }
    }
}

/// The first entry for `r` under `id` at or after `i`.
pub open spec fn first_entry(ps: Seq<PendingView>, r: Seq<u8>, id: Seq<u8>, i: int) -> Option<PendingView>
    decreases ps.len() - i,
{
    if i < 0 || i >= ps.len() {
        None
    } else if ps[i].recipient == r && ps[i].env_id == id {
        Some(ps[i])
    } else {
        first_entry(ps, r, id, i + 1)
    }
}

/// The pairs of a pull reply, each id, length and envelope.
pub open spec fn items_bytes(items: Seq<(Seq<u8>, Seq<u8>)>) -> Seq<u8>
    decreases items.len(),
{
    if items.len() == 0 {
        Seq::empty()
    } else {
        items_bytes(items.drop_last()) + items.last().0 + be32(items.last().1.len() as u32) + items.last().1
    }
}

/// A pull reply: `ST_OK`, the count, the items.
pub open spec fn pull_reply_bytes(items: Seq<(Seq<u8>, Seq<u8>)>) -> Seq<u8> {
    seq![ST_OK] + be32(items.len() as u32) + items_bytes(items)
}

/// What the metrics record of an ack holds: the acked entry's sender,
/// suite, kind, channel and envelope length, at the ack's time.
pub open spec fn ack_record_view(p: PendingView, time_ms: u64) -> RecordView {
    RecordView {
        tag: ACK,
        time_ms,
        sender: p.sender,
        recipient: p.recipient,
        env_id: p.env_id,
        cipher_len: p.envelope.len() as u32,
        suite: p.suite,
        kind: p.kind,
        channel: p.channel,
    }
}

impl RelayState {
    pub fn new() -> (s: Self)
        ensures
            s@ == Seq::<PendingView>::empty(),
    {
        let s = Self { pending: Vec::new() };
        assert(s@ =~= Seq::<PendingView>::empty());
        s
    }

    /// Queues a pushed envelope behind the others.
    pub fn enqueue(&mut self, p: PushRequest, arrival_ms: u64)
        ensures
            final(self)@ == old(self)@.push(
                PendingView {
                    recipient: p.recipient@,
                    env_id: p.env_id@,
                    sender: p.sender@,
                    envelope: p.envelope@,
                    arrival_ms,
                    suite: clear_fields(p.envelope@).0,
                    kind: clear_fields(p.envelope@).1,
                    channel: clear_fields(p.envelope@).2,
                },
            ),
    {
        let (suite, kind, channel) = clear_fields_exec(p.envelope.as_slice());
        let ghost before = self.pending@;
        self.pending.push(
            Pending {
                recipient: p.recipient,
                env_id: p.env_id,
                sender: p.sender,
                envelope: p.envelope,
                arrival_ms,
                suite,
                kind,
                channel,
            },
        );
        assert(self@ =~= before.map_values(|p: Pending| p@).push(self.pending@.last()@));
    }

    /// How many envelopes wait for `recipient`.
    pub fn queued_count(&self, recipient: &[u8; 32]) -> (n: usize)
        ensures
            n == queued_for(self@, recipient@).len(),
    {
        let ghost ps = self@;
        let mut count: usize = 0;
        let mut i: usize = 0;
        while i < self.pending.len()
            invariant
                ps == self@,
                i <= self.pending@.len(),
                count == queued_for(ps.subrange(0, i as int), recipient@).len(),
                count <= i,
            decreases self.pending@.len() - i,
        {
            proof {
                assert(ps.subrange(0, i + 1).drop_last() =~= ps.subrange(0, i as int));
                assert(ps[i as int] == self.pending@[i as int]@);
                lemma_queued_mono(ps, i + 1, recipient@);
            }
            if crate::codec::eq32(&self.pending[i].recipient, recipient) {
                count = count + 1;
            }
            i = i + 1;
        }
        proof {
            assert(ps.subrange(0, i as int) =~= ps);
        }
        count
    }

    /// The reply to a pull by `recipient`: what waits for it, in order.
    pub fn pull_reply(&self, recipient: &[u8; 32]) -> (out: Vec<u8>)
        requires
            queued_for(self@, recipient@).len() <= u32::MAX,
        ensures
            out@ == pull_reply_bytes(queued_for(self@, recipient@)),
    {
        let ghost ps = self@;
        let count = self.queued_count(recipient) as u32;
        let mut w = crate::codec::Writer::new();
        w.u8(ST_OK);
        w.u32(count);
        let ghost head = w@;
        let mut j: usize = 0;
        while j < self.pending.len()
            invariant
                ps == self@,
                j <= self.pending@.len(),
                w@ == head + items_bytes(queued_for(ps.subrange(0, j as int), recipient@)),
            decreases self.pending@.len() - j,
        {
            proof {
                assert(ps.subrange(0, j + 1).drop_last() =~= ps.subrange(0, j as int));
                assert(ps[j as int] == self.pending@[j as int]@);
            }
            let item = &self.pending[j];
            if crate::codec::eq32(&item.recipient, recipient) {
                w.arr32(&item.env_id);
                w.u32(item.envelope.len() as u32);
                w.bytes(item.envelope.as_slice());
                proof {
                    let q = queued_for(ps.subrange(0, j + 1), recipient@);
                    assert(q.drop_last() == queued_for(ps.subrange(0, j as int), recipient@));
                }
            }
            j = j + 1;
        }
        proof {
            assert(ps.subrange(0, j as int) =~= ps);
            assert(w@ =~= pull_reply_bytes(queued_for(ps, recipient@)));
        }
        w.finish()
    }

    /// Drops every entry for `recipient` under `env_id`, and gives back the
    /// metrics record of the first of them, if any, stamped `time_ms`.
    pub fn take_ack(&mut self, recipient: &[u8; 32], env_id: &[u8; 32], time_ms: u64) -> (found: Option<Record>)
        ensures
            final(self)@ == without(old(self)@, recipient@, env_id@),
            match first_entry(old(self)@, recipient@, env_id@, 0) {
                Some(p) => found matches Some(rec) && rec@ == ack_record_view(p, time_ms),
                None => found is None,
            },
    {
        let ghost ps = self@;
        let mut kept: Vec<Pending> = Vec::new();
        let mut found: Option<Record> = None;
        let mut i: usize = 0;
        proof {
            assert(kept@.map_values(|p: Pending| p@) =~= Seq::<PendingView>::empty());
        }
        while i < self.pending.len()
            invariant
                ps == self@,
                ps == old(self)@,
                i <= self.pending@.len(),
                kept@.map_values(|p: Pending| p@) == without(ps.subrange(0, i as int), recipient@, env_id@),
                match first_entry(ps.subrange(0, i as int), recipient@, env_id@, 0) {
                    Some(p) => found matches Some(rec) && rec@ == ack_record_view(p, time_ms),
                    None => found is None,
                },
            decreases self.pending@.len() - i,
        {
            let x = &self.pending[i];
            proof {
                assert(ps[i as int] == x@);
                assert(ps.subrange(0, i + 1) =~= ps.subrange(0, i as int).push(x@));
                assert(ps.subrange(0, i as int).push(x@).drop_last() =~= ps.subrange(0, i as int));
                lemma_first_entry_push(ps.subrange(0, i as int), x@, recipient@, env_id@, 0);
            }
            if crate::codec::eq32(&x.recipient, recipient) && crate::codec::eq32(&x.env_id, env_id) {
                if found.is_none() {
                    found = Some(
                        Record {
                            tag: ACK,
                            time_ms,
                            sender: x.sender,
                            recipient: x.recipient,
                            env_id: x.env_id,
                            cipher_len: x.envelope.len() as u32,
                            suite: x.suite,
                            kind: x.kind,
                            channel: x.channel,
                        },
                    );
                }
            } else {
                let ghost before = kept@;
                kept.push(
                    Pending {
                        recipient: x.recipient,
                        env_id: x.env_id,
                        sender: x.sender,
                        envelope: vstd::slice::slice_to_vec(x.envelope.as_slice()),
                        arrival_ms: x.arrival_ms,
                        suite: x.suite,
                        kind: x.kind,
                        channel: x.channel,
                    },
                );
                proof {
                    assert(kept@.map_values(|p: Pending| p@) =~= before.map_values(|p: Pending| p@).push(x@));
                }
            }
            i = i + 1;
        }
        proof {
            assert(ps.subrange(0, i as int) =~= ps);
        }
        self.pending = kept;
        found
    }
}

proof fn lemma_first_entry_push(s: Seq<PendingView>, x: PendingView, r: Seq<u8>, id: Seq<u8>, j: int)
    requires
        0 <= j <= s.len(),
    ensures
        first_entry(s.push(x), r, id, j) == (match first_entry(s, r, id, j) {
            Some(p) => Some(p),
            None => if x.recipient == r && x.env_id == id {
                Some(x)
            } else {
                None
            },
        }),
    decreases s.len() - j,
{
    if j < s.len() {
        lemma_first_entry_push(s, x, r, id, j + 1);
        assert(s.push(x)[j] == s[j]);
    } else {
        assert(s.push(x)[j] == x);
        assert(first_entry(s.push(x), r, id, j + 1) is None);
        assert(first_entry(s, r, id, j) is None);
    }
}

/// A pushed envelope is the last thing its recipient's next pull gets, and
/// nobody else's pull changes.
pub proof fn lemma_push_then_pull(ps: Seq<PendingView>, p: PendingView, r: Seq<u8>)
    ensures
        queued_for(ps.push(p), p.recipient) == queued_for(ps, p.recipient).push((p.env_id, p.envelope)),
        r != p.recipient ==> queued_for(ps.push(p), r) == queued_for(ps, r),
{
    assert(ps.push(p).drop_last() =~= ps);
}

/// After an ack, the recipient's pulls no longer hold the acked id, and the
/// rest of what waits for it keeps its order.
pub proof fn lemma_ack_then_pull(ps: Seq<PendingView>, r: Seq<u8>, id: Seq<u8>)
    ensures
        forall|k: int| 0 <= k < queued_for(without(ps, r, id), r).len() ==> (#[trigger] queued_for(without(ps, r, id), r)[k]).0 != id,
        forall|r2: Seq<u8>| r2 != r ==> #[trigger] queued_for(without(ps, r, id), r2) == queued_for(ps, r2),
    decreases ps.len(),
{
    if ps.len() > 0 {
        let d = ps.drop_last();
        lemma_ack_then_pull(d, r, id);
        let rest = without(d, r, id);
        let x = ps.last();
        let w = without(ps, r, id);
        if x.recipient == r && x.env_id == id {
            assert(w == rest);
            assert forall|r2: Seq<u8>| r2 != r implies #[trigger] queued_for(w, r2) == queued_for(ps, r2) by {
                assert(queued_for(ps, r2) == queued_for(d, r2));
                assert(queued_for(rest, r2) == queued_for(d, r2));
            }
        } else {
            assert(w == rest.push(x));
            assert(w.drop_last() =~= rest);
            assert(w.last() == x);
            assert forall|k: int| 0 <= k < queued_for(w, r).len() implies (#[trigger] queued_for(w, r)[k]).0 != id by {
                if x.recipient == r {
                    assert(queued_for(w, r) == queued_for(rest, r).push((x.env_id, x.envelope)));
                    if k < queued_for(rest, r).len() {
                        assert(queued_for(w, r)[k] == queued_for(rest, r)[k]);
                    }
                } else {
                    assert(queued_for(w, r) == queued_for(rest, r));
                }
            }
            assert forall|r2: Seq<u8>| r2 != r implies #[trigger] queued_for(w, r2) == queued_for(ps, r2) by {
                assert(queued_for(rest, r2) == queued_for(d, r2));
            }
        }
    }
}

proof fn lemma_queued_mono(ps: Seq<PendingView>, n: int, r: Seq<u8>)
    requires
        0 <= n <= ps.len(),
    ensures
        queued_for(ps.subrange(0, n), r).len() <= queued_for(ps, r).len(),
    decreases ps.len() - n,
{
    if n < ps.len() {
        lemma_queued_mono(ps, n + 1, r);
        assert(ps.subrange(0, n + 1).drop_last() =~= ps.subrange(0, n));
    } else {
        assert(ps.subrange(0, n) =~= ps);
    }
}

proof fn lemma_items_parse(b: Seq<u8>, items: Seq<(Seq<u8>, Seq<u8>)>)
    requires
        b.len() >= 5 + items_bytes(items).len() as int,
        b.subrange(5, 5 + items_bytes(items).len() as int) == items_bytes(items),
        forall|k: int| 0 <= k < items.len() ==> (#[trigger] items[k]).0.len() == 32 && items[k].1.len() <= u32::MAX,
    ensures
        pull_items_at(b, 5, items.len()) == Ok::<(Seq<(Seq<u8>, Seq<u8>)>, int), Error>((items, 5 + items_bytes(items).len() as int)),
    decreases items.len(),
{
    if items.len() == 0 {
        assert(items =~= Seq::<(Seq<u8>, Seq<u8>)>::empty());
    } else {
        let d = items.drop_last();
        let x = items.last();
        let whole = items_bytes(items);
        let li = items_bytes(d).len() as int;
        assert(whole == items_bytes(d) + x.0 + be32(x.1.len() as u32) + x.1);
        lemma_be32(x.1.len() as u32);
        assert(b.subrange(5, 5 + li) =~= whole.subrange(0, li));
        assert(whole.subrange(0, li) =~= items_bytes(d));
        assert forall|k: int| 0 <= k < d.len() implies (#[trigger] d[k]).0.len() == 32 && d[k].1.len() <= u32::MAX by {
            assert(d[k] == items[k]);
        }
        lemma_items_parse(b, d);
        let i = 5 + li;
        assert(items[items.len() - 1] == x);
        assert(b.subrange(i, i + 32) =~= whole.subrange(li, li + 32));
        assert(whole.subrange(li, li + 32) =~= x.0);
        assert(b.subrange(i + 32, i + 36) =~= whole.subrange(li + 32, li + 36));
        assert(whole.subrange(li + 32, li + 36) =~= be32(x.1.len() as u32));
        assert(b.subrange(i + 36, i + 36 + x.1.len()) =~= whole.subrange(li + 36, whole.len() as int));
        assert(whole.subrange(li + 36, whole.len() as int) =~= x.1);
        assert(d.push(x) =~= items);
    }
}

/// What the relay answers a pull with, the client reads back exactly.
pub proof fn lemma_pull_reply_roundtrip(items: Seq<(Seq<u8>, Seq<u8>)>)
    requires
        items.len() <= u32::MAX,
        forall|k: int| 0 <= k < items.len() ==> (#[trigger] items[k]).0.len() == 32 && items[k].1.len() <= u32::MAX,
    ensures
        pull_reply_result(pull_reply_bytes(items)) == Ok::<Seq<(Seq<u8>, Seq<u8>)>, Error>(items),
{
    let b = pull_reply_bytes(items);
    lemma_be32(items.len() as u32);
    assert(b.subrange(1, 5) =~= be32(items.len() as u32));
    assert(b.subrange(5, 5 + items_bytes(items).len() as int) =~= items_bytes(items));
    lemma_items_parse(b, items);
}

} // verus!
