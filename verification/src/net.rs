use vstd::prelude::*;

use crate::codec::{array32, be32, lemma_be32, u32_of};
use crate::error::Error;
use vstd::string::StringSliceAdditionalSpecFns;

verus! {

pub const OP_PUSH: u8 = 1;

pub const OP_PULL: u8 = 2;

pub const OP_ACK: u8 = 3;

pub const OP_LIST: u8 = 9;

pub const ST_OK: u8 = 0;

pub const ST_ERR: u8 = 1;

/// The largest frame body, 8 MiB.
pub const MAX_FRAME: usize = 8388608;

/// The length prefix of a frame: the body's length as a big-endian `u32`.
pub fn frame_prefix(len: usize) -> (res: Result<[u8; 4], Error>)
    ensures
        match res {
            Ok(p) => len <= MAX_FRAME && p@ == be32(len as u32),
            Err(e) => len > MAX_FRAME && e == Error::FrameTooLarge,
        },
{
    if len > MAX_FRAME {
        return Err(Error::FrameTooLarge);
    }
    let v = len as u32;
    let p = [(v >> 24u32) as u8, (v >> 16u32) as u8, (v >> 8u32) as u8, v as u8];
    proof {
        assert(p@ =~= be32(v));
    }
    Ok(p)
}

/// The body length a frame prefix announces.
pub fn frame_body_len(prefix: &[u8; 4]) -> (res: Result<usize, Error>)
    ensures
        match res {
            Ok(n) => n == u32_of(prefix@) && n <= MAX_FRAME,
            Err(e) => u32_of(prefix@) > MAX_FRAME && e == Error::FrameTooLarge,
        },
{
    let n = ((prefix[0] as u32) << 24u32) | ((prefix[1] as u32) << 16u32) | ((prefix[2] as u32)
        << 8u32) | (prefix[3] as u32);
    proof {
        assert(n == u32_of(prefix@));
    }
    if n as usize > MAX_FRAME {
        return Err(Error::FrameTooLarge);
    }
    Ok(n as usize)
}

/// A frame's length prefix announces the length it was written for: every
/// length up to the frame limit reads back, and every longer one is refused
/// on both sides.
pub proof fn lemma_frame_length_roundtrip(len: nat)
    requires
        len <= MAX_FRAME,
    ensures
        u32_of(be32(len as u32)) == len,
        u32_of(be32(len as u32)) <= MAX_FRAME,
{
    crate::codec::lemma_be32(len as u32);
}

fn push_all(out: &mut Vec<u8>, b: &[u8])
    ensures
        final(out)@ == old(out)@ + b@,
{
    let mut i: usize = 0;
    while i < b.len()
        invariant
            i <= b@.len(),
            out@ == old(out)@ + b@.subrange(0, i as int),
        decreases b@.len() - i,
    {
        out.push(b[i]);
        i = i + 1;
        assert(out@ =~= old(out)@ + b@.subrange(0, i as int));
    }
    assert(b@.subrange(0, i as int) =~= b@);
}

/// A push request: the opcode, sender, recipient and envelope id, then the
/// envelope.
pub open spec fn push_request_bytes(sender: Seq<u8>, recipient: Seq<u8>, env_id: Seq<u8>, envelope: Seq<u8>) -> Seq<u8> {
    seq![OP_PUSH] + sender + recipient + env_id + envelope
}

pub fn push_request(sender: &[u8; 32], recipient: &[u8; 32], env_id: &[u8; 32], envelope: &[u8]) -> (out: Vec<u8>)
    ensures
        out@ == push_request_bytes(sender@, recipient@, env_id@, envelope@),
{
    let mut req: Vec<u8> = Vec::new();
    req.push(OP_PUSH);
    push_all(&mut req, sender);
    push_all(&mut req, recipient);
    push_all(&mut req, env_id);
    push_all(&mut req, envelope);
    proof {
        assert(req@ =~= push_request_bytes(sender@, recipient@, env_id@, envelope@));
    }
    req
}

pub fn pull_request(recipient: &[u8; 32]) -> (out: Vec<u8>)
    ensures
        out@ == seq![OP_PULL] + recipient@,
{
    let mut req: Vec<u8> = Vec::new();
    req.push(OP_PULL);
    push_all(&mut req, recipient);
    proof {
        assert(req@ =~= seq![OP_PULL] + recipient@);
    }
    req
}

pub fn ack_request(recipient: &[u8; 32], env_id: &[u8; 32]) -> (out: Vec<u8>)
    ensures
        out@ == seq![OP_ACK] + recipient@ + env_id@,
{
    let mut req: Vec<u8> = Vec::new();
    req.push(OP_ACK);
    push_all(&mut req, recipient);
    push_all(&mut req, env_id);
    proof {
        assert(req@ =~= seq![OP_ACK] + recipient@ + env_id@);
    }
    req
}

/// A relay reply that starts with `ST_OK` is success; any other reply is
/// the relay's error, whose message is the rest of the reply.
pub fn status_ok(resp: &[u8]) -> (res: Result<(), Error>)
    ensures
        match res {
            Ok(_) => resp@.len() > 0 && resp@[0] == ST_OK,
            Err(Error::Relay(msg)) => !(resp@.len() > 0 && resp@[0] == ST_OK) && msg@ == (if resp@.len() > 0 {
                resp@.subrange(1, resp@.len() as int)
            } else {
                Seq::empty()
            }),
            Err(_) => false,
        },
{
    if resp.len() > 0 && resp[0] == ST_OK {
        return Ok(());
    }
    let mut msg: Vec<u8> = Vec::new();
    if resp.len() > 0 {
        let mut i: usize = 1;
        while i < resp.len()
            invariant
                1 <= i <= resp@.len(),
                msg@ == resp@.subrange(1, i as int),
            decreases resp@.len() - i,
        {
            msg.push(resp[i]);
            i = i + 1;
            assert(msg@ =~= resp@.subrange(1, i as int));
        }
    } else {
        assert(msg@ =~= Seq::<u8>::empty());
    }
    Err(Error::Relay(msg))
}

/// The items of a pull reply from position `p` on: each an envelope id,
/// the envelope's length and the envelope.
pub open spec fn pull_items_at(b: Seq<u8>, p: int, n: nat) -> Result<(Seq<(Seq<u8>, Seq<u8>)>, int), Error>
    decreases n,
{
    if n == 0 {
        Ok((Seq::empty(), p))
    } else {
        match pull_items_at(b, p, (n - 1) as nat) {
            Err(e) => Err(e),
            Ok((items, i)) => if i + 36 > b.len() {
                Err(Error::TruncatedPullItem)
            } else {
                let l = u32_of(b.subrange(i + 32, i + 36)) as int;
                if i + 36 + l > b.len() {
                    Err(Error::TruncatedPullEnvelope)
                } else {
                    Ok((items.push((b.subrange(i, i + 32), b.subrange(i + 36, i + 36 + l))), i + 36 + l))
                }
            },
        }
    }
}

/// What a client reads from a pull reply: `ST_OK`, a count, then that many
/// items. Bytes after the last item are not looked at.
pub open spec fn pull_reply_result(b: Seq<u8>) -> Result<Seq<(Seq<u8>, Seq<u8>)>, Error> {
    if !(b.len() > 0 && b[0] == ST_OK) {
        Err(Error::RelayPullRejected)
    } else if b.len() < 5 {
        Err(Error::ShortPullResponse)
    } else {
        match pull_items_at(b, 5, u32_of(b.subrange(1, 5)) as nat) {
            Err(e) => Err(e),
            Ok((items, _)) => Ok(items),
        }
    }
}

pub open spec fn pairs_view(v: Seq<([u8; 32], Vec<u8>)>) -> Seq<(Seq<u8>, Seq<u8>)> {
    v.map_values(|x: ([u8; 32], Vec<u8>)| (x.0@, x.1@))
}

proof fn lemma_pull_items_err(b: Seq<u8>, p: int, n: nat, m: nat)
    requires
        n <= m,
        pull_items_at(b, p, n) is Err,
    ensures
        pull_items_at(b, p, m) == pull_items_at(b, p, n),
    decreases m - n,
{
    if m > n {
        lemma_pull_items_err(b, p, n, (m - 1) as nat);
    }
}

/// Reads the envelopes of a pull reply.
pub fn parse_pull_reply(resp: &[u8]) -> (res: Result<Vec<([u8; 32], Vec<u8>)>, Error>)
    ensures
        match res {
            Ok(v) => pull_reply_result(resp@) == Ok::<Seq<(Seq<u8>, Seq<u8>)>, Error>(pairs_view(v@)),
            Err(e) => pull_reply_result(resp@) == Err::<Seq<(Seq<u8>, Seq<u8>)>, Error>(e),
        },
{
    let ghost b = resp@;
    if !(resp.len() > 0 && resp[0] == ST_OK) {
        return Err(Error::RelayPullRejected);
    }
    if resp.len() < 5 {
        return Err(Error::ShortPullResponse);
    }
    let count = ((resp[1] as u32) << 24u32) | ((resp[2] as u32) << 16u32) | ((resp[3] as u32) << 8u32)
        | (resp[4] as u32);
    proof {
        assert(count == u32_of(b.subrange(1, 5)));
    }
    let mut out: Vec<([u8; 32], Vec<u8>)> = Vec::new();
    let mut i: usize = 5;
    let mut k: u32 = 0;
    proof {
        assert(pairs_view(out@) =~= Seq::<(Seq<u8>, Seq<u8>)>::empty());
    }
    while k < count
        invariant
            b == resp@,
            b.len() >= 5,
            b[0] == ST_OK,
            count == u32_of(b.subrange(1, 5)),
            k <= count,
            i <= b.len(),
            pull_items_at(b, 5, k as nat) == Ok::<(Seq<(Seq<u8>, Seq<u8>)>, int), Error>((pairs_view(out@), i as int)),
        decreases count - k,
    {
        if resp.len() - i < 36 {
            proof {
                lemma_pull_items_err(b, 5, (k + 1) as nat, count as nat);
            }
            return Err(Error::TruncatedPullItem);
        }
        let id = array32(vstd::slice::slice_subrange(resp, i, i + 32));
        let n = ((resp[i + 32] as u32) << 24u32) | ((resp[i + 33] as u32) << 16u32) | ((resp[i + 34] as u32)
            << 8u32) | (resp[i + 35] as u32);
        proof {
            assert(b.subrange(i + 32, i + 36)[0] == b[i + 32]);
            assert(b.subrange(i + 32, i + 36)[1] == b[i + 33]);
            assert(b.subrange(i + 32, i + 36)[2] == b[i + 34]);
            assert(b.subrange(i + 32, i + 36)[3] == b[i + 35]);
            assert(n == u32_of(b.subrange(i + 32, i + 36)));
        }
        let start = i + 36;
        if (n as usize) > resp.len() - start {
            proof {
                lemma_pull_items_err(b, 5, (k + 1) as nat, count as nat);
            }
            return Err(Error::TruncatedPullEnvelope);
        }
        let end = start + n as usize;
        let env = vstd::slice::slice_to_vec(vstd::slice::slice_subrange(resp, start, end));
        let ghost before = out@;
        out.push((id, env));
        proof {
            assert(pairs_view(out@) =~= pairs_view(before).push((id@, env@)));
        }
        i = end;
        k = k + 1;
    }
    Ok(out)
}

} // verus!
