use vstd::prelude::*;

use crate::codec::{be16, be32, lemma_be16, lemma_be32, lemma_lp_at, lp_at, lp_bytes, u16_of, u32_of, Reader, Writer};
use crate::error::Error;
use crate::text::utf8_decode;
use vstd::string::StringSliceAdditionalSpecFns;
use vstd::utf8::{decode_utf8, encode_utf8, valid_utf8};

verus! {

broadcast use vstd::utf8::group_utf8_lib;

/// A node's answer to a plugin request.
pub struct Reply {
    pub ok: bool,
    pub text: String,
    pub blobs: Vec<Vec<u8>>,
}

pub open spec fn strings_view(v: Seq<String>) -> Seq<Seq<char>> {
    v.map_values(|s: String| s@)
}

pub open spec fn blobs_view(v: Seq<Vec<u8>>) -> Seq<Seq<u8>> {
    v.map_values(|b: Vec<u8>| b@)
}

/// Strings as UTF-8, each behind its length.
pub open spec fn strings_lp(ss: Seq<Seq<char>>) -> Seq<u8>
    decreases ss.len(),
{
    if ss.len() == 0 {
        Seq::empty()
    } else {
        strings_lp(ss.drop_last()) + lp_bytes(encode_utf8(ss.last()))
    }
}

/// Byte strings, each behind its length.
pub open spec fn blobs_lp(bs: Seq<Seq<u8>>) -> Seq<u8>
    decreases bs.len(),
{
    if bs.len() == 0 {
        Seq::empty()
    } else {
        blobs_lp(bs.drop_last()) + lp_bytes(bs.last())
    }
}

/// A request: version 1, the arguments, the blobs.
pub open spec fn request_bytes(args: Seq<Seq<char>>, blobs: Seq<Seq<u8>>) -> Seq<u8> {
    be16(1) + be32(args.len() as u32) + strings_lp(args) + be32(blobs.len() as u32) + blobs_lp(blobs)
}

/// A reply: 0 for success or 1, the text, the blobs.
pub open spec fn reply_bytes(ok: bool, text: Seq<char>, blobs: Seq<Seq<u8>>) -> Seq<u8> {
    seq![if ok { 0u8 } else { 1u8 }] + lp_bytes(encode_utf8(text)) + be32(blobs.len() as u32) + blobs_lp(blobs)
}

/// `n` length-prefixed UTF-8 strings from position `p`; `bad` is the error
/// for one that is not UTF-8.
pub open spec fn strings_at(b: Seq<u8>, p: int, n: nat, bad: Error) -> Result<(Seq<Seq<char>>, int), Error>
    decreases n,
{
    if n == 0 {
        Ok((Seq::empty(), p))
    } else {
        match strings_at(b, p, (n - 1) as nat, bad) {
            Err(e) => Err(e),
            Ok((ss, q)) => match lp_at(b, q) {
                Err(e) => Err(e),
                Ok((item, r)) => if valid_utf8(item) {
                    Ok((ss.push(decode_utf8(item)), r))
                } else {
                    Err(bad)
                },
            },
        }
    }
}

/// `n` length-prefixed byte strings from position `p`.
pub open spec fn blobs_at(b: Seq<u8>, p: int, n: nat) -> Result<(Seq<Seq<u8>>, int), Error>
    decreases n,
{
    if n == 0 {
        Ok((Seq::empty(), p))
    } else {
        match blobs_at(b, p, (n - 1) as nat) {
            Err(e) => Err(e),
            Ok((bs, q)) => match lp_at(b, q) {
                Err(e) => Err(e),
                Ok((item, r)) => Ok((bs.push(item), r)),
            },
        }
    }
}

/// What decoding a request gives.
pub open spec fn request_result(b: Seq<u8>) -> Result<(Seq<Seq<char>>, Seq<Seq<u8>>), Error> {
    if b.len() < 2 {
        Err(Error::Truncated)
    } else if u16_of(b.subrange(0, 2)) != 1 {
        Err(Error::BadPluginRequest)
    } else if b.len() < 6 {
        Err(Error::Truncated)
    } else {
        match strings_at(b, 6, u32_of(b.subrange(2, 6)) as nat, Error::PluginArgUtf8) {
            Err(e) => Err(e),
            Ok((args, p)) => if p + 4 > b.len() {
                Err(Error::Truncated)
            } else {
                match blobs_at(b, p + 4, u32_of(b.subrange(p, p + 4)) as nat) {
                    Err(e) => Err(e),
                    Ok((blobs, q)) => if q != b.len() {
                        Err(Error::TrailingBytes)
                    } else {
                        Ok((args, blobs))
                    },
                }
            },
        }
    }
}

/// What decoding a reply gives.
pub open spec fn reply_result(b: Seq<u8>) -> Result<(bool, Seq<char>, Seq<Seq<u8>>), Error> {
    if b.len() < 1 {
        Err(Error::Truncated)
    } else {
        match lp_at(b, 1) {
            Err(e) => Err(e),
            Ok((t, p)) => if !valid_utf8(t) {
                Err(Error::PluginReplyUtf8)
            } else if p + 4 > b.len() {
                Err(Error::Truncated)
            } else {
                match blobs_at(b, p + 4, u32_of(b.subrange(p, p + 4)) as nat) {
                    Err(e) => Err(e),
                    Ok((blobs, q)) => if q != b.len() {
                        Err(Error::TrailingBytes)
                    } else {
                        Ok((b[0] == 0, decode_utf8(t), blobs))
                    },
                }
            },
        }
    }
}

pub(crate) fn write_strings(w: &mut Writer, items: &[String])
    ensures
        final(w)@ == old(w)@ + strings_lp(strings_view(items@)),
{
    let ghost ss = strings_view(items@);
    let mut i: usize = 0;
    while i < items.len()
        invariant
            ss == strings_view(items@),
            i <= items@.len(),
            w@ == old(w)@ + strings_lp(ss.subrange(0, i as int)),
        decreases items@.len() - i,
    {
        let bytes = items[i].as_str().as_bytes();
        w.lp(bytes);
        proof {
            let q = ss.subrange(0, i + 1);
            assert(q.drop_last() =~= ss.subrange(0, i as int));
            assert(q.last() == items@[i as int]@);
        }
        i = i + 1;
    }
    assert(ss.subrange(0, i as int) =~= ss);
}

fn write_blobs(w: &mut Writer, items: &[Vec<u8>])
    ensures
        final(w)@ == old(w)@ + blobs_lp(blobs_view(items@)),
{
    let ghost bs = blobs_view(items@);
    let mut i: usize = 0;
    while i < items.len()
        invariant
            bs == blobs_view(items@),
            i <= items@.len(),
            w@ == old(w)@ + blobs_lp(bs.subrange(0, i as int)),
        decreases items@.len() - i,
    {
        w.lp(items[i].as_slice());
        proof {
            let q = bs.subrange(0, i + 1);
            assert(q.drop_last() =~= bs.subrange(0, i as int));
            assert(q.last() == items@[i as int]@);
        }
        i = i + 1;
    }
    assert(bs.subrange(0, i as int) =~= bs);
}

pub fn encode_request(args: &[String], blobs: &[Vec<u8>]) -> (out: Vec<u8>)
    ensures
        out@ == request_bytes(strings_view(args@), blobs_view(blobs@)),
{
    let mut w = Writer::new();
    w.u16(1);
    w.u32(args.len() as u32);
    write_strings(&mut w, args);
    w.u32(blobs.len() as u32);
    write_blobs(&mut w, blobs);
    proof {
        assert(w@ =~= request_bytes(strings_view(args@), blobs_view(blobs@)));
    }
    w.finish()
}

pub fn encode_reply(ok: bool, text: &str, blobs: &[Vec<u8>]) -> (out: Vec<u8>)
    ensures
        out@ == reply_bytes(ok, text@, blobs_view(blobs@)),
{
    let mut w = Writer::new();
    w.u8(if ok { 0 } else { 1 });
    w.lp(text.as_bytes());
    w.u32(blobs.len() as u32);
    write_blobs(&mut w, blobs);
    proof {
        assert(w@ =~= reply_bytes(ok, text@, blobs_view(blobs@)));
    }
    w.finish()
}

pub proof fn lemma_strings_at_len(b: Seq<u8>, p: int, n: nat, bad: Error)
    ensures
        strings_at(b, p, n, bad) matches Ok((ss, _)) ==> ss.len() == n,
    decreases n,
{
    if n > 0 {
        lemma_strings_at_len(b, p, (n - 1) as nat, bad);
    }
}

proof fn lemma_strings_err(b: Seq<u8>, p: int, n: nat, m: nat, bad: Error)
    requires
        n <= m,
        strings_at(b, p, n, bad) is Err,
    ensures
        strings_at(b, p, m, bad) == strings_at(b, p, n, bad),
    decreases m - n,
{
    if m > n {
        lemma_strings_err(b, p, n, (m - 1) as nat, bad);
    }
}

proof fn lemma_blobs_err(b: Seq<u8>, p: int, n: nat, m: nat)
    requires
        n <= m,
        blobs_at(b, p, n) is Err,
    ensures
        blobs_at(b, p, m) == blobs_at(b, p, n),
    decreases m - n,
{
    if m > n {
        lemma_blobs_err(b, p, n, (m - 1) as nat);
    }
}

pub(crate) fn read_strings(r: &mut Reader, n: u32, bad: Error) -> (res: Result<Vec<String>, Error>)
    requires
        0 <= old(r).pos(),
    ensures
        final(r).data() == old(r).data(),
        match res {
            Ok(v) => strings_at(old(r).data(), old(r).pos(), n as nat, bad) == Ok::<(Seq<Seq<char>>, int), Error>(
                (strings_view(v@), final(r).pos()),
            ),
            Err(e) => strings_at(old(r).data(), old(r).pos(), n as nat, bad) == Err::<(Seq<Seq<char>>, int), Error>(e),
        },
{
    let ghost b = r.data();
    let ghost p = r.pos();
    let mut out: Vec<String> = Vec::new();
    let mut i: u32 = 0;
    proof {
        assert(strings_view(out@) =~= Seq::<Seq<char>>::empty());
    }
    while i < n
        invariant
            r.data() == b,
            b == old(r).data(),
            p == old(r).pos(),
            i <= n,
            strings_at(b, p, i as nat, bad) == Ok::<(Seq<Seq<char>>, int), Error>((strings_view(out@), r.pos())),
        decreases n - i,
    {
        let item = match r.lp() {
            Ok(x) => x,
            Err(e) => {
                proof {
                    lemma_strings_err(b, p, (i + 1) as nat, n as nat, bad);
                }
                return Err(e);
            },
        };
        let s = match utf8_decode(vstd::slice::slice_to_vec(item)) {
            Some(s) => s,
            None => {
                proof {
                    lemma_strings_err(b, p, (i + 1) as nat, n as nat, bad);
                }
                return Err(bad);
            },
        };
        let ghost before = out@;
        out.push(s);
        proof {
            assert(strings_view(out@) =~= strings_view(before).push(s@));
        }
        i = i + 1;
    }
    Ok(out)
}

fn read_blobs(r: &mut Reader, n: u32) -> (res: Result<Vec<Vec<u8>>, Error>)
    requires
        0 <= old(r).pos(),
    ensures
        final(r).data() == old(r).data(),
        match res {
            Ok(v) => blobs_at(old(r).data(), old(r).pos(), n as nat) == Ok::<(Seq<Seq<u8>>, int), Error>(
                (blobs_view(v@), final(r).pos()),
            ),
            Err(e) => blobs_at(old(r).data(), old(r).pos(), n as nat) == Err::<(Seq<Seq<u8>>, int), Error>(e),
        },
{
    let ghost b = r.data();
    let ghost p = r.pos();
    let mut out: Vec<Vec<u8>> = Vec::new();
    let mut i: u32 = 0;
    proof {
        assert(blobs_view(out@) =~= Seq::<Seq<u8>>::empty());
    }
    while i < n
        invariant
            r.data() == b,
            b == old(r).data(),
            p == old(r).pos(),
            i <= n,
            blobs_at(b, p, i as nat) == Ok::<(Seq<Seq<u8>>, int), Error>((blobs_view(out@), r.pos())),
        decreases n - i,
    {
        let item = match r.lp() {
            Ok(x) => x,
            Err(e) => {
                proof {
                    lemma_blobs_err(b, p, (i + 1) as nat, n as nat);
                }
                return Err(e);
            },
        };
        let v = vstd::slice::slice_to_vec(item);
        let ghost before = out@;
        out.push(v);
        proof {
            assert(blobs_view(out@) =~= blobs_view(before).push(v@));
        }
        i = i + 1;
    }
    Ok(out)
}

pub fn decode_request(bytes: &[u8]) -> (res: Result<(Vec<String>, Vec<Vec<u8>>), Error>)
    ensures
        match res {
            Ok((a, b)) => request_result(bytes@) == Ok::<(Seq<Seq<char>>, Seq<Seq<u8>>), Error>(
                (strings_view(a@), blobs_view(b@)),
            ),
            Err(e) => request_result(bytes@) == Err::<(Seq<Seq<char>>, Seq<Seq<u8>>), Error>(e),
        },
{
    let mut r = Reader::new(bytes);
    let version = r.u16()?;
    proof {
        lemma_be16(version);
    }
    if version != 1 {
        return Err(Error::BadPluginRequest);
    }
    let argc = r.u32()?;
    proof {
        lemma_be32(argc);
    }
    let args = read_strings(&mut r, argc, Error::PluginArgUtf8)?;
    let n = r.u32()?;
    proof {
        lemma_be32(n);
    }
    let blobs = read_blobs(&mut r, n)?;
    r.finish()?;
    Ok((args, blobs))
}

pub fn decode_reply(bytes: &[u8]) -> (res: Result<Reply, Error>)
    ensures
        match res {
            Ok(rp) => reply_result(bytes@) == Ok::<(bool, Seq<char>, Seq<Seq<u8>>), Error>(
                (rp.ok, rp.text@, blobs_view(rp.blobs@)),
            ),
            Err(e) => reply_result(bytes@) == Err::<(bool, Seq<char>, Seq<Seq<u8>>), Error>(e),
        },
{
    let ghost b = bytes@;
    let mut r = Reader::new(bytes);
    let status = r.u8()?;
    let t = r.lp()?;
    let text = match utf8_decode(vstd::slice::slice_to_vec(t)) {
        Some(s) => s,
        None => return Err(Error::PluginReplyUtf8),
    };
    let n = r.u32()?;
    proof {
        lemma_be32(n);
    }
    let blobs = read_blobs(&mut r, n)?;
    r.finish()?;
    proof {
        assert(b.subrange(0, 1)[0] == b[0]);
    }
    Ok(Reply { ok: status == 0, text, blobs })
}

pub(crate) proof fn lemma_strings_roundtrip(b: Seq<u8>, p: int, ss: Seq<Seq<char>>, bad: Error)
    requires
        0 <= p,
        p + strings_lp(ss).len() <= b.len(),
        b.subrange(p, p + strings_lp(ss).len()) == strings_lp(ss),
        forall|i: int| 0 <= i < ss.len() ==> (#[trigger] encode_utf8(ss[i])).len() <= u32::MAX,
    ensures
        strings_at(b, p, ss.len(), bad) == Ok::<(Seq<Seq<char>>, int), Error>((ss, p + strings_lp(ss).len())),
    decreases ss.len(),
{
    if ss.len() == 0 {
        assert(ss =~= Seq::<Seq<char>>::empty());
    } else {
        let init = ss.drop_last();
        let x = ss.last();
        let item = encode_utf8(x);
        let whole = strings_lp(ss);
        let li = strings_lp(init).len() as int;
        lemma_be32(item.len() as u32);
        assert(whole == strings_lp(init) + lp_bytes(item));
        assert(b.subrange(p, p + li) =~= whole.subrange(0, li));
        assert(whole.subrange(0, li) =~= strings_lp(init));
        assert forall|i: int| 0 <= i < init.len() implies (#[trigger] encode_utf8(init[i])).len() <= u32::MAX by {
            assert(init[i] == ss[i]);
        }
        lemma_strings_roundtrip(b, p, init, bad);
        assert(encode_utf8(ss[ss.len() - 1]) == item);
        let q = p + li;
        assert(b.subrange(q, q + 4 + item.len()) =~= whole.subrange(li, whole.len() as int));
        assert(whole.subrange(li, whole.len() as int) =~= lp_bytes(item));
        lemma_lp_at(b, q, item);
        assert(init.push(x) =~= ss);
    }
}

proof fn lemma_blobs_roundtrip(b: Seq<u8>, p: int, bs: Seq<Seq<u8>>)
    requires
        0 <= p,
        p + blobs_lp(bs).len() <= b.len(),
        b.subrange(p, p + blobs_lp(bs).len()) == blobs_lp(bs),
        forall|i: int| 0 <= i < bs.len() ==> (#[trigger] bs[i]).len() <= u32::MAX,
    ensures
        blobs_at(b, p, bs.len()) == Ok::<(Seq<Seq<u8>>, int), Error>((bs, p + blobs_lp(bs).len())),
    decreases bs.len(),
{
    if bs.len() == 0 {
        assert(bs =~= Seq::<Seq<u8>>::empty());
    } else {
        let init = bs.drop_last();
        let item = bs.last();
        let whole = blobs_lp(bs);
        let li = blobs_lp(init).len() as int;
        lemma_be32(item.len() as u32);
        assert(whole == blobs_lp(init) + lp_bytes(item));
        assert(b.subrange(p, p + li) =~= whole.subrange(0, li));
        assert(whole.subrange(0, li) =~= blobs_lp(init));
        assert forall|i: int| 0 <= i < init.len() implies (#[trigger] init[i]).len() <= u32::MAX by {
            assert(init[i] == bs[i]);
        }
        lemma_blobs_roundtrip(b, p, init);
        assert(bs[bs.len() - 1] == item);
        let q = p + li;
        assert(b.subrange(q, q + 4 + item.len()) =~= whole.subrange(li, whole.len() as int));
        assert(whole.subrange(li, whole.len() as int) =~= lp_bytes(item));
        lemma_lp_at(b, q, item);
        assert(init.push(item) =~= bs);
    }
}

/// A request decodes to the arguments and blobs it was encoded from.
pub proof fn lemma_request_roundtrip(args: Seq<Seq<char>>, blobs: Seq<Seq<u8>>)
    requires
        args.len() <= u32::MAX,
        blobs.len() <= u32::MAX,
        forall|i: int| 0 <= i < args.len() ==> (#[trigger] encode_utf8(args[i])).len() <= u32::MAX,
        forall|i: int| 0 <= i < blobs.len() ==> (#[trigger] blobs[i]).len() <= u32::MAX,
    ensures
        request_result(request_bytes(args, blobs)) == Ok::<(Seq<Seq<char>>, Seq<Seq<u8>>), Error>((args, blobs)),
{
    let b = request_bytes(args, blobs);
    let sl = strings_lp(args).len() as int;
    let bl = blobs_lp(blobs).len() as int;
    lemma_be16(1);
    lemma_be32(args.len() as u32);
    lemma_be32(blobs.len() as u32);
    assert(b.subrange(0, 2) =~= be16(1));
    assert(b.subrange(2, 6) =~= be32(args.len() as u32));
    assert(b.subrange(6, 6 + sl) =~= strings_lp(args));
    lemma_strings_roundtrip(b, 6, args, Error::PluginArgUtf8);
    assert(b.subrange(6 + sl, 10 + sl) =~= be32(blobs.len() as u32));
    assert(b.subrange(10 + sl, 10 + sl + bl) =~= blobs_lp(blobs));
    lemma_blobs_roundtrip(b, 10 + sl, blobs);
}

/// A reply decodes to the status, text and blobs it was encoded from.
pub proof fn lemma_reply_roundtrip(ok: bool, text: Seq<char>, blobs: Seq<Seq<u8>>)
    requires
        encode_utf8(text).len() <= u32::MAX,
        blobs.len() <= u32::MAX,
        forall|i: int| 0 <= i < blobs.len() ==> (#[trigger] blobs[i]).len() <= u32::MAX,
    ensures
        reply_result(reply_bytes(ok, text, blobs)) == Ok::<(bool, Seq<char>, Seq<Seq<u8>>), Error>((ok, text, blobs)),
{
    let b = reply_bytes(ok, text, blobs);
    let t = encode_utf8(text);
    let bl = blobs_lp(blobs).len() as int;
    let tl = t.len() as int;
    lemma_be32(t.len() as u32);
    lemma_be32(blobs.len() as u32);
    assert(b.subrange(1, 5 + tl) =~= lp_bytes(t));
    lemma_lp_at(b, 1, t);
    assert(b.subrange(5 + tl, 9 + tl) =~= be32(blobs.len() as u32));
    assert(b.subrange(9 + tl, 9 + tl + bl) =~= blobs_lp(blobs));
    lemma_blobs_roundtrip(b, 9 + tl, blobs);
}

} // verus!
