use vstd::prelude::*;

use crate::codec::{all_hex, from_hex, hex_bytes, hex_result, hex_value, lemma_hex_bytes_shape, lemma_hex_roundtrip, push_hex, unhex};
use crate::error::Error;
use crate::text::{
    ascii_chars, chars_match, chars_of, dec, digits_value, trim_range, ws_skip, find_char, is_ascii_bytes, is_whitespace, is_ws, lemma_ascii_utf8,
    lemma_dec_ascii, next_char, parse_uint, parse_uint_bytes, push_dec, string_of_utf8, utf8_decode,
};
use vstd::string::{StrSliceExecFns, StringSliceAdditionalSpecFns};
use vstd::utf8::{decode_utf8, encode_utf8, valid_utf8};

verus! {

pub const PUSH: u8 = 1;

pub const ACK: u8 = 2;

/// One line of the relay's metrics file: an envelope was pushed or acked.
#[derive(Clone, Copy)]
pub struct Record {
    pub tag: u8,
    pub time_ms: u64,
    pub sender: [u8; 32],
    pub recipient: [u8; 32],
    pub env_id: [u8; 32],
    pub cipher_len: u32,
    pub suite: u16,
    pub kind: u8,
    pub channel: [u8; 32],
}

pub struct RecordView {
    pub tag: u8,
    pub time_ms: u64,
    pub sender: Seq<u8>,
    pub recipient: Seq<u8>,
    pub env_id: Seq<u8>,
    pub cipher_len: u32,
    pub suite: u16,
    pub kind: u8,
    pub channel: Seq<u8>,
}

impl View for Record {
    type V = RecordView;

    open spec fn view(&self) -> RecordView {
        RecordView {
            tag: self.tag,
            time_ms: self.time_ms,
            sender: self.sender@,
            recipient: self.recipient@,
            env_id: self.env_id@,
            cipher_len: self.cipher_len,
            suite: self.suite,
            kind: self.kind,
            channel: self.channel@,
        }
    }
}

broadcast use vstd::utf8::group_utf8_lib;

/// The first line of a metrics file.
pub fn header() -> (out: &'static str)
    ensures
        out@ == "wire-metrics 1\n"@,
{
    "wire-metrics 1\n"
}

/// Appends the UTF-8 bytes of `s`.
pub fn push_str_bytes(out: &mut Vec<u8>, s: &str)
    ensures
        final(out)@ == old(out)@ + s.spec_bytes(),
        valid_utf8(old(out)@) ==> valid_utf8(final(out)@),
{
    let b = s.as_bytes();
    let mut i: usize = 0;
    while i < b.len()
        invariant
            b@ == s.spec_bytes(),
            i <= b@.len(),
            out@ == old(out)@ + b@.subrange(0, i as int),
        decreases b@.len() - i,
    {
        out.push(b[i]);
        i = i + 1;
        assert(out@ =~= old(out)@ + b@.subrange(0, i as int));
    }
    assert(b@.subrange(0, i as int) =~= b@);
    proof {
        assert(valid_utf8(encode_utf8(s@)));
        if valid_utf8(old(out)@) {
            assert(valid_utf8(old(out)@ + s.spec_bytes()));
        }
    }
}

/// Appends the decimal digits of `v`.
pub fn append_dec(out: &mut Vec<u8>, v: u64)
    ensures
        final(out)@ == old(out)@ + dec(v as nat),
        valid_utf8(old(out)@) ==> valid_utf8(final(out)@),
{
    push_dec(out, v);
    proof {
        lemma_dec_utf8(v as nat);
        if valid_utf8(old(out)@) {
            assert(valid_utf8(old(out)@ + dec(v as nat)));
        }
    }
}

/// Appends the hex digits of `b`.
pub fn append_hex(out: &mut Vec<u8>, b: &[u8])
    ensures
        final(out)@ == old(out)@ + hex_bytes(b@),
        valid_utf8(old(out)@) ==> valid_utf8(final(out)@),
{
    push_hex(out, b);
    proof {
        lemma_hex_utf8(b@);
        if valid_utf8(old(out)@) {
            assert(valid_utf8(old(out)@ + hex_bytes(b@)));
        }
    }
}

pub proof fn lemma_dec_utf8(n: nat)
    ensures
        valid_utf8(dec(n)),
{
    lemma_dec_ascii(n);
    lemma_ascii_utf8(dec(n));
}

pub proof fn lemma_hex_utf8(b: Seq<u8>)
    ensures
        valid_utf8(hex_bytes(b)),
{
    lemma_hex_bytes_shape(b);
    lemma_ascii_utf8(hex_bytes(b));
}

/// A metrics line: `push` or `ack`, then `key=value` fields, times and
/// sizes in decimal, ids in hex, and a newline.
pub open spec fn record_line(r: RecordView) -> Seq<u8> {
    (if r.tag == ACK { "ack".spec_bytes() } else { "push".spec_bytes() }) + " time_ms=".spec_bytes() + dec(
        r.time_ms as nat,
    ) + " sender=".spec_bytes() + hex_bytes(r.sender) + " recipient=".spec_bytes() + hex_bytes(
        r.recipient,
    ) + " env=".spec_bytes() + hex_bytes(r.env_id) + " bytes=".spec_bytes() + dec(r.cipher_len as nat)
        + " suite=".spec_bytes() + dec(r.suite as nat) + " kind=".spec_bytes() + dec(r.kind as nat)
        + " channel=".spec_bytes() + hex_bytes(r.channel) + "\n".spec_bytes()
}

pub fn format_record(rec: &Record) -> (out: String)
    ensures
        encode_utf8(out@) == record_line(rec@),
{
    let mut b: Vec<u8> = Vec::new();
    proof {
        assert(b@ =~= Seq::<u8>::empty());
        assert(valid_utf8(b@)) by {
            assert(encode_utf8(Seq::<char>::empty()) =~= Seq::<u8>::empty());
        }
    }
    if rec.tag == ACK {
        push_str_bytes(&mut b, "ack");
    } else {
        push_str_bytes(&mut b, "push");
    }
    push_str_bytes(&mut b, " time_ms=");
    append_dec(&mut b, rec.time_ms);
    push_str_bytes(&mut b, " sender=");
    append_hex(&mut b, &rec.sender);
    push_str_bytes(&mut b, " recipient=");
    append_hex(&mut b, &rec.recipient);
    push_str_bytes(&mut b, " env=");
    append_hex(&mut b, &rec.env_id);
    push_str_bytes(&mut b, " bytes=");
    append_dec(&mut b, rec.cipher_len as u64);
    push_str_bytes(&mut b, " suite=");
    append_dec(&mut b, rec.suite as u64);
    push_str_bytes(&mut b, " kind=");
    append_dec(&mut b, rec.kind as u64);
    push_str_bytes(&mut b, " channel=");
    append_hex(&mut b, &rec.channel);
    push_str_bytes(&mut b, "\n");
    proof {
        assert(b@ =~= record_line(rec@));
    }
    string_of_utf8(b)
}

// ---------------------------------------------------------------------------
// Reading a metrics file
// ---------------------------------------------------------------------------

/// The end of the token that starts at `i`: the next whitespace or `e`.
pub open spec fn token_end(s: Seq<char>, i: int, e: int) -> int
    decreases e - i,
{
    if i >= e {
        e
    } else if is_ws(s[i]) {
        i
    } else {
        token_end(s, i + 1, e)
    }
}

/// The first index in `i..e` holding `c`, or `e`.
pub open spec fn find_in(s: Seq<char>, i: int, e: int, c: char) -> int
    decreases e - i,
{
    if i >= e {
        e
    } else if s[i] == c {
        i
    } else {
        find_in(s, i + 1, e, c)
    }
}

pub proof fn lemma_token_bounds(s: Seq<char>, i: int, e: int)
    requires
        i <= e,
    ensures
        i <= token_end(s, i, e) <= e,
        i < e && !is_ws(s[i]) ==> token_end(s, i, e) > i,
    decreases e - i,
{
    if i < e && !is_ws(s[i]) {
        lemma_token_bounds(s, i + 1, e);
    }
}

pub proof fn lemma_skip_bounds(s: Seq<char>, i: int, e: int)
    requires
        i <= e,
    ensures
        i <= ws_skip(s, i, e) <= e,
        ws_skip(s, i, e) < e ==> !is_ws(s[ws_skip(s, i, e)]),
    decreases e - i,
{
    if i < e && is_ws(s[i]) {
        lemma_skip_bounds(s, i + 1, e);
    }
}

pub proof fn lemma_find_bounds(s: Seq<char>, i: int, e: int, c: char)
    requires
        i <= e,
    ensures
        i <= find_in(s, i, e, c) <= e,
    decreases e - i,
{
    if i < e && s[i] != c {
        lemma_find_bounds(s, i + 1, e, c);
    }
}

/// The fields of a metrics line read so far.
pub struct Fields {
    pub time_ms: Option<u64>,
    pub sender: Option<Seq<u8>>,
    pub recipient: Option<Seq<u8>>,
    pub env_id: Option<Seq<u8>>,
    pub cipher_len: Option<u32>,
    pub suite: Option<u16>,
    pub kind: Option<u8>,
    pub channel: Option<Seq<u8>>,
}

pub open spec fn no_fields() -> Fields {
    Fields {
        time_ms: None,
        sender: None,
        recipient: None,
        env_id: None,
        cipher_len: None,
        suite: None,
        kind: None,
        channel: None,
    }
}

/// A 32-byte id in hex.
pub open spec fn id_value(b: Seq<u8>) -> Result<Seq<u8>, Error> {
    match hex_result(b) {
        Err(e) => Err(e),
        Ok(v) => if v.len() != 32 {
            Err(Error::BadMetricsId)
        } else {
            Ok(v)
        },
    }
}

/// Reading one `key=value` field; a later field with the same key wins.
pub open spec fn field_step(f: Fields, key: Seq<char>, value: Seq<char>) -> Result<Fields, Error> {
    let vb = encode_utf8(value);
    if key == "time_ms"@ {
        match parse_uint(vb, u64::MAX as nat) {
            None => Err(Error::BadTimeMs),
            Some(x) => Ok(Fields { time_ms: Some(x as u64), ..f }),
        }
    } else if key == "sender"@ {
        match id_value(vb) {
            Err(e) => Err(e),
            Ok(x) => Ok(Fields { sender: Some(x), ..f }),
        }
    } else if key == "recipient"@ {
        match id_value(vb) {
            Err(e) => Err(e),
            Ok(x) => Ok(Fields { recipient: Some(x), ..f }),
        }
    } else if key == "env"@ {
        match id_value(vb) {
            Err(e) => Err(e),
            Ok(x) => Ok(Fields { env_id: Some(x), ..f }),
        }
    } else if key == "bytes"@ {
        match parse_uint(vb, u32::MAX as nat) {
            None => Err(Error::BadBytes),
            Some(x) => Ok(Fields { cipher_len: Some(x as u32), ..f }),
        }
    } else if key == "suite"@ {
        match parse_uint(vb, u16::MAX as nat) {
            None => Err(Error::BadSuite),
            Some(x) => Ok(Fields { suite: Some(x as u16), ..f }),
        }
    } else if key == "kind"@ {
        match parse_uint(vb, u8::MAX as nat) {
            None => Err(Error::BadKind),
            Some(x) => Ok(Fields { kind: Some(x as u8), ..f }),
        }
    } else if key == "channel"@ {
        match id_value(vb) {
            Err(e) => Err(e),
            Ok(x) => Ok(Fields { channel: Some(x), ..f }),
        }
    } else {
        Err(Error::UnknownMetricsField)
    }
}

/// The whitespace-separated `key=value` fields of `s[i..e]`, read in order.
pub open spec fn fields_scan(s: Seq<char>, i: int, e: int, f: Fields) -> Result<Fields, Error>
    decreases e - i,
{
    if i > e {
        Ok(f)
    } else {
        let a = ws_skip(s, i, e);
        if a >= e {
            Ok(f)
        } else {
            proof {
                lemma_skip_bounds(s, i, e);
                lemma_token_bounds(s, a, e);
            }
            let b = token_end(s, a, e);
            let q = find_in(s, a, b, '=');
            if q >= b {
                Err(Error::BadMetricsField)
            } else {
                match field_step(f, s.subrange(a, q), s.subrange(q + 1, b)) {
                    Err(x) => Err(x),
                    Ok(f2) => fields_scan(s, b, e, f2),
                }
            }
        }
    }
}

/// The record the fields make, once each was given.
pub open spec fn finish_record(tag: u8, f: Fields) -> Result<RecordView, Error> {
    if f.time_ms is None {
        Err(Error::MissingTimeMs)
    } else if f.sender is None {
        Err(Error::MissingSender)
    } else if f.recipient is None {
        Err(Error::MissingRecipient)
    } else if f.env_id is None {
        Err(Error::MissingEnv)
    } else if f.cipher_len is None {
        Err(Error::MissingBytes)
    } else if f.suite is None {
        Err(Error::MissingSuite)
    } else if f.kind is None {
        Err(Error::MissingKind)
    } else if f.channel is None {
        Err(Error::MissingChannel)
    } else {
        Ok(
            RecordView {
                tag,
                time_ms: f.time_ms->0,
                sender: f.sender->0,
                recipient: f.recipient->0,
                env_id: f.env_id->0,
                cipher_len: f.cipher_len->0,
                suite: f.suite->0,
                kind: f.kind->0,
                channel: f.channel->0,
            },
        )
    }
}

/// What the metrics line `s[lo..e]` says.
pub open spec fn line_result(s: Seq<char>, lo: int, e: int) -> Result<RecordView, Error> {
    let a = ws_skip(s, lo, e);
    if a >= e {
        Err(Error::BadMetricsLine)
    } else {
        let b = token_end(s, a, e);
        let t = s.subrange(a, b);
        if t != "push"@ && t != "ack"@ {
            Err(Error::BadMetricsLine)
        } else {
            let tag = if t == "push"@ {
                PUSH
            } else {
                ACK
            };
            match fields_scan(s, b, e, no_fields()) {
                Err(x) => Err(x),
                Ok(f) => finish_record(tag, f),
            }
        }
    }
}

/// Where the line that ends at `k` stops: a `\r` before its `\n` is not
/// part of it.
pub open spec fn line_cut(s: Seq<char>, i: int, k: int) -> int {
    if k < s.len() && k > i && s[k - 1] == '\r' {
        k - 1
    } else {
        k
    }
}

/// The records of the lines from index `i` on; empty lines are skipped.
pub open spec fn lines_result(s: Seq<char>, i: int, acc: Seq<RecordView>) -> Result<Seq<RecordView>, Error>
    decreases s.len() - i,
{
    if i >= s.len() {
        Ok(acc)
    } else {
        let k = next_char(s, i, '\n');
        proof {
            crate::model::lemma_next_char_bounds(s, i, '\n');
        }
        let e = line_cut(s, i, k);
        let next = if e == i {
            Ok(acc)
        } else {
            match line_result(s, i, e) {
                Err(x) => Err(x),
                Ok(r) => Ok(acc.push(r)),
            }
        };
        match next {
            Err(x) => Err(x),
            Ok(acc2) => if k >= s.len() {
                Ok(acc2)
            } else {
                lines_result(s, k + 1, acc2)
            },
        }
    }
}

/// What reading a metrics file gives: it must be UTF-8 and start with the
/// header line.
pub open spec fn read_result(b: Seq<u8>) -> Result<Seq<RecordView>, Error> {
    if !valid_utf8(b) {
        Err(Error::MetricsNotUtf8)
    } else {
        let s = decode_utf8(b);
        let k = next_char(s, 0, '\n');
        let head = if s.len() == 0 {
            Seq::empty()
        } else {
            s.subrange(0, line_cut(s, 0, k))
        };
        if head != "wire-metrics 1"@ {
            Err(Error::NotAMetricsFile)
        } else {
            lines_result(s, k + 1, Seq::empty())
        }
    }
}

pub open spec fn records_view(v: Seq<Record>) -> Seq<RecordView> {
    v.map_values(|r: Record| r@)
}

fn skip_ws_exec(cs: &Vec<char>, i: usize, e: usize) -> (a: usize)
    requires
        i <= e <= cs@.len(),
    ensures
        a == ws_skip(cs@, i as int, e as int),
        i <= a <= e,
{
    let mut a = i;
    while a < e && is_whitespace(cs[a])
        invariant
            i <= a <= e <= cs@.len(),
            ws_skip(cs@, i as int, e as int) == ws_skip(cs@, a as int, e as int),
        decreases e - a,
    {
        a = a + 1;
    }
    a
}

fn token_end_exec(cs: &Vec<char>, i: usize, e: usize) -> (b: usize)
    requires
        i <= e <= cs@.len(),
    ensures
        b == token_end(cs@, i as int, e as int),
        i <= b <= e,
{
    let mut b = i;
    while b < e && !is_whitespace(cs[b])
        invariant
            i <= b <= e <= cs@.len(),
            token_end(cs@, i as int, e as int) == token_end(cs@, b as int, e as int),
        decreases e - b,
    {
        b = b + 1;
    }
    b
}

fn find_in_exec(cs: &Vec<char>, i: usize, e: usize, c: char) -> (q: usize)
    requires
        i <= e <= cs@.len(),
    ensures
        q == find_in(cs@, i as int, e as int, c),
        i <= q <= e,
{
    let mut q = i;
    while q < e && cs[q] != c
        invariant
            i <= q <= e <= cs@.len(),
            find_in(cs@, i as int, e as int, c) == find_in(cs@, q as int, e as int, c),
        decreases e - q,
    {
        q = q + 1;
    }
    q
}

fn id_exec(v: &str) -> (res: Result<[u8; 32], Error>)
    ensures
        match res {
            Ok(a) => id_value(v.spec_bytes()) == Ok::<Seq<u8>, Error>(a@),
            Err(e) => id_value(v.spec_bytes()) == Err::<Seq<u8>, Error>(e),
        },
{
    let bytes = from_hex(v)?;
    if bytes.len() != 32 {
        return Err(Error::BadMetricsId);
    }
    Ok(crate::codec::array32(bytes.as_slice()))
}

/// Reads the metrics line `text[lo..e]`; `cs` holds the characters of `text`.
fn parse_line(text: &str, cs: &Vec<char>, lo: usize, e: usize) -> (res: Result<Record, Error>)
    requires
        cs@ == text@,
        lo <= e <= cs@.len(),
    ensures
        match res {
            Ok(r) => line_result(cs@, lo as int, e as int) == Ok::<RecordView, Error>(r@),
            Err(x) => line_result(cs@, lo as int, e as int) == Err::<RecordView, Error>(x),
        },
{
    let ghost s = cs@;
    let a = skip_ws_exec(cs, lo, e);
    if a >= e {
        return Err(Error::BadMetricsLine);
    }
    let b = token_end_exec(cs, a, e);
    let push_w = chars_of("push");
    let ack_w = chars_of("ack");
    let tag = if chars_match(cs, a, b, push_w.as_slice()) {
        PUSH
    } else if chars_match(cs, a, b, ack_w.as_slice()) {
        ACK
    } else {
        return Err(Error::BadMetricsLine);
    };
    let mut time_ms: Option<u64> = None;
    let mut sender: Option<[u8; 32]> = None;
    let mut recipient: Option<[u8; 32]> = None;
    let mut env_id: Option<[u8; 32]> = None;
    let mut cipher_len: Option<u32> = None;
    let mut suite: Option<u16> = None;
    let mut kind: Option<u8> = None;
    let mut channel: Option<[u8; 32]> = None;
    let time_w = chars_of("time_ms");
    let sender_w = chars_of("sender");
    let recipient_w = chars_of("recipient");
    let env_w = chars_of("env");
    let bytes_w = chars_of("bytes");
    let suite_w = chars_of("suite");
    let kind_w = chars_of("kind");
    let channel_w = chars_of("channel");
    let mut i = b;
    loop
        invariant
            s == cs@,
            cs@ == text@,
            b <= i <= e <= cs@.len(),
            line_result(s, lo as int, e as int) == match fields_scan(s, b as int, e as int, no_fields()) {
                Err(x) => Err::<RecordView, Error>(x),
                Ok(f) => finish_record(tag, f),
            },
            time_w@ == "time_ms"@,
            sender_w@ == "sender"@,
            recipient_w@ == "recipient"@,
            env_w@ == "env"@,
            bytes_w@ == "bytes"@,
            suite_w@ == "suite"@,
            kind_w@ == "kind"@,
            channel_w@ == "channel"@,
            fields_scan(s, b as int, e as int, no_fields()) == fields_scan(
                s,
                i as int,
                e as int,
                Fields {
                    time_ms,
                    sender: match sender { Some(x) => Some(x@), None => None },
                    recipient: match recipient { Some(x) => Some(x@), None => None },
                    env_id: match env_id { Some(x) => Some(x@), None => None },
                    cipher_len,
                    suite,
                    kind,
                    channel: match channel { Some(x) => Some(x@), None => None },
                },
            ),
        ensures
            fields_scan(s, b as int, e as int, no_fields()) == Ok::<Fields, Error>(
                Fields {
                    time_ms,
                    sender: match sender { Some(x) => Some(x@), None => None },
                    recipient: match recipient { Some(x) => Some(x@), None => None },
                    env_id: match env_id { Some(x) => Some(x@), None => None },
                    cipher_len,
                    suite,
                    kind,
                    channel: match channel { Some(x) => Some(x@), None => None },
                },
            ),
        decreases e - i,
    {
        let ta = skip_ws_exec(cs, i, e);
        if ta >= e {
            break;
        }
        proof {
            lemma_skip_bounds(s, i as int, e as int);
            lemma_token_bounds(s, ta as int, e as int);
        }
        let tb = token_end_exec(cs, ta, e);
        let q = find_in_exec(cs, ta, tb, '=');
        if q >= tb {
            return Err(Error::BadMetricsField);
        }
        let value = text.substring_char(q + 1, tb);
        proof {
            assert(value@ == s.subrange(q + 1, tb as int));
        }
        if chars_match(cs, ta, q, time_w.as_slice()) {
            match parse_uint_bytes(value.as_bytes(), u64::MAX) {
                Some(v) => time_ms = Some(v),
                None => return Err(Error::BadTimeMs),
            }
        } else if chars_match(cs, ta, q, sender_w.as_slice()) {
            sender = Some(id_exec(value)?);
        } else if chars_match(cs, ta, q, recipient_w.as_slice()) {
            recipient = Some(id_exec(value)?);
        } else if chars_match(cs, ta, q, env_w.as_slice()) {
            env_id = Some(id_exec(value)?);
        } else if chars_match(cs, ta, q, bytes_w.as_slice()) {
            match parse_uint_bytes(value.as_bytes(), u32::MAX as u64) {
                Some(v) => cipher_len = Some(v as u32),
                None => return Err(Error::BadBytes),
            }
        } else if chars_match(cs, ta, q, suite_w.as_slice()) {
            match parse_uint_bytes(value.as_bytes(), u16::MAX as u64) {
                Some(v) => suite = Some(v as u16),
                None => return Err(Error::BadSuite),
            }
        } else if chars_match(cs, ta, q, kind_w.as_slice()) {
            match parse_uint_bytes(value.as_bytes(), u8::MAX as u64) {
                Some(v) => kind = Some(v as u8),
                None => return Err(Error::BadKind),
            }
        } else if chars_match(cs, ta, q, channel_w.as_slice()) {
            channel = Some(id_exec(value)?);
        } else {
            return Err(Error::UnknownMetricsField);
        }
        i = tb;
    }
    let time_ms = match time_ms {
        Some(v) => v,
        None => return Err(Error::MissingTimeMs),
    };
    let sender = match sender {
        Some(v) => v,
        None => return Err(Error::MissingSender),
    };
    let recipient = match recipient {
        Some(v) => v,
        None => return Err(Error::MissingRecipient),
    };
    let env_id = match env_id {
        Some(v) => v,
        None => return Err(Error::MissingEnv),
    };
    let cipher_len = match cipher_len {
        Some(v) => v,
        None => return Err(Error::MissingBytes),
    };
    let suite = match suite {
        Some(v) => v,
        None => return Err(Error::MissingSuite),
    };
    let kind = match kind {
        Some(v) => v,
        None => return Err(Error::MissingKind),
    };
    let channel = match channel {
        Some(v) => v,
        None => return Err(Error::MissingChannel),
    };
    Ok(Record { tag, time_ms, sender, recipient, env_id, cipher_len, suite, kind, channel })
}

fn line_cut_exec(cs: &Vec<char>, i: usize, k: usize) -> (e: usize)
    requires
        i <= k <= cs@.len(),
    ensures
        e == line_cut(cs@, i as int, k as int),
        i <= e <= k,
{
    if k < cs.len() && k > i && cs[k - 1] == '\r' {
        k - 1
    } else {
        k
    }
}

/// Reads every record of a metrics file.
pub fn read_file(bytes: &[u8]) -> (res: Result<Vec<Record>, Error>)
    ensures
        match res {
            Ok(v) => read_result(bytes@) == Ok::<Seq<RecordView>, Error>(records_view(v@)),
            Err(e) => read_result(bytes@) == Err::<Seq<RecordView>, Error>(e),
        },
{
    let text = match utf8_decode(vstd::slice::slice_to_vec(bytes)) {
        Some(t) => t,
        None => return Err(Error::MetricsNotUtf8),
    };
    let tx = text.as_str();
    let cs = chars_of(tx);
    let ghost s = cs@;
    let n = cs.len();
    let k0 = find_char(&cs, 0, '\n');
    let head_w = chars_of("wire-metrics 1");
    let head_ok = if n == 0 {
        proof {
            assert(Seq::<char>::empty() != "wire-metrics 1"@) by {
                reveal_strlit("wire-metrics 1");
            }
        }
        false
    } else {
        let hend = line_cut_exec(&cs, 0, k0);
        chars_match(&cs, 0, hend, head_w.as_slice())
    };
    if !head_ok {
        return Err(Error::NotAMetricsFile);
    }
    let mut out: Vec<Record> = Vec::new();
    proof {
        assert(records_view(out@) =~= Seq::<RecordView>::empty());
    }
    if k0 >= n {
        return Ok(out);
    }
    let mut i = k0 + 1;
    loop
        invariant
            s == cs@,
            cs@ == tx@,
            n == cs@.len(),
            i <= n,
            read_result(bytes@) == lines_result(s, i as int, records_view(out@)),
        decreases n - i,
    {
        if i >= n {
            return Ok(out);
        }
        let k = find_char(&cs, i, '\n');
        let e = line_cut_exec(&cs, i, k);
        if e != i {
            let r = parse_line(tx, &cs, i, e)?;
            let ghost before = out@;
            out.push(r);
            proof {
                assert(records_view(out@) =~= records_view(before).push(r@));
            }
        }
        if k >= n {
            return Ok(out);
        }
        i = k + 1;
    }
}

// ---------------------------------------------------------------------------
// Summary
// ---------------------------------------------------------------------------

/// Totals over a metrics file: transfers and bytes acked, by kind
/// (1 ephemeral, 2 persisted), envelopes pushed and never acked, the time
/// the records span, and the longest push-to-ack delay.
#[derive(Clone, Copy)]
pub struct Summary {
    pub ephemeral_transfers: u64,
    pub ephemeral_bytes: u64,
    pub persisted_transfers: u64,
    pub persisted_bytes: u64,
    pub in_flight: u64,
    pub window_ms: u64,
    pub ack_latency_ms_max: u64,
}

/// Whether record `i` is the last push of its envelope id.
pub open spec fn last_push(rs: Seq<RecordView>, i: int) -> bool {
    &&& rs[i].tag == PUSH
    &&& forall|j: int| i < j < rs.len() ==> !(#[trigger] rs[j].tag == PUSH && rs[j].env_id == rs[i].env_id)
}

/// The last ack of `id` among the first `n` records.
pub open spec fn last_ack(rs: Seq<RecordView>, id: Seq<u8>, n: int) -> Option<RecordView>
    decreases n,
{
    if n <= 0 {
        None
    } else if rs[n - 1].tag == ACK && rs[n - 1].env_id == id {
        Some(rs[n - 1])
    } else {
        last_ack(rs, id, n - 1)
    }
}

/// `a - b`, or zero when `b` is larger.
pub open spec fn sat_sub(a: u64, b: u64) -> nat {
    if a >= b {
        (a - b) as nat
    } else {
        0
    }
}

pub struct Tally {
    pub eph_t: nat,
    pub eph_b: nat,
    pub per_t: nat,
    pub per_b: nat,
    pub in_flight: nat,
    pub lat_max: nat,
}

/// The totals over the envelopes whose last push is among the first `n`
/// records, each paired with the last ack of its id anywhere.
pub open spec fn tally(rs: Seq<RecordView>, n: int) -> Tally
    decreases n,
{
    if n <= 0 {
        Tally { eph_t: 0, eph_b: 0, per_t: 0, per_b: 0, in_flight: 0, lat_max: 0 }
    } else {
        let t = tally(rs, n - 1);
        let r = rs[n - 1];
        if !last_push(rs, n - 1) {
            t
        } else {
            match last_ack(rs, r.env_id, rs.len() as int) {
                None => Tally { in_flight: t.in_flight + 1, ..t },
                Some(a) => {
                    let lat = sat_sub(a.time_ms, r.time_ms);
                    let lm = if lat > t.lat_max {
                        lat
                    } else {
                        t.lat_max
                    };
                    if r.kind == 1 {
                        Tally { eph_t: t.eph_t + 1, eph_b: t.eph_b + r.cipher_len as nat, lat_max: lm, ..t }
                    } else if r.kind == 2 {
                        Tally { per_t: t.per_t + 1, per_b: t.per_b + r.cipher_len as nat, lat_max: lm, ..t }
                    } else {
                        Tally { lat_max: lm, ..t }
                    }
                },
            }
        }
    }
}

pub open spec fn min_time(rs: Seq<RecordView>, n: int) -> u64
    decreases n,
{
    if n <= 0 {
        u64::MAX
    } else if rs[n - 1].time_ms < min_time(rs, n - 1) {
        rs[n - 1].time_ms
    } else {
        min_time(rs, n - 1)
    }
}

pub open spec fn max_time(rs: Seq<RecordView>, n: int) -> u64
    decreases n,
{
    if n <= 0 {
        0
    } else if rs[n - 1].time_ms > max_time(rs, n - 1) {
        rs[n - 1].time_ms
    } else {
        max_time(rs, n - 1)
    }
}

/// What summarizing the records gives.
pub open spec fn summary_of(rs: Seq<RecordView>, s: Summary) -> bool {
    let t = tally(rs, rs.len() as int);
    &&& s.ephemeral_transfers == t.eph_t
    &&& s.ephemeral_bytes == t.eph_b
    &&& s.persisted_transfers == t.per_t
    &&& s.persisted_bytes == t.per_b
    &&& s.in_flight == t.in_flight
    &&& s.ack_latency_ms_max == t.lat_max
    &&& s.window_ms == (if rs.len() == 0 {
        0
    } else {
        sat_sub(max_time(rs, rs.len() as int), min_time(rs, rs.len() as int))
    })
}

proof fn lemma_tally_bounds(rs: Seq<RecordView>, n: int)
    requires
        0 <= n <= rs.len(),
    ensures
        tally(rs, n).eph_t + tally(rs, n).per_t + tally(rs, n).in_flight <= n,
        tally(rs, n).eph_b <= n * 0xffff_ffff,
        tally(rs, n).per_b <= n * 0xffff_ffff,
        tally(rs, n).lat_max <= u64::MAX,
    decreases n,
{
    if n > 0 {
        lemma_tally_bounds(rs, n - 1);
    }
}

proof fn lemma_last_ack_prefix(rs: Seq<RecordView>, r: RecordView, id: Seq<u8>, n: int)
    requires
        0 <= n <= rs.len(),
    ensures
        last_ack(rs.push(r), id, n) == last_ack(rs, id, n),
    decreases n,
{
    if n > 0 {
        assert(rs.push(r)[n - 1] == rs[n - 1]);
        lemma_last_ack_prefix(rs, r, id, n - 1);
    }
}

proof fn lemma_last_ack_none(rs: Seq<RecordView>, id: Seq<u8>, n: int)
    requires
        0 <= n <= rs.len(),
        forall|k: int| 0 <= k < n ==> (#[trigger] rs[k]).env_id != id,
    ensures
        last_ack(rs, id, n) is None,
    decreases n,
{
    if n > 0 {
        lemma_last_ack_none(rs, id, n - 1);
    }
}

/// Appending a push of an envelope no record names leaves the totals over
/// the records before it as they were.
proof fn lemma_tally_fresh_push(rs: Seq<RecordView>, r: RecordView, n: int)
    requires
        0 <= n <= rs.len(),
        r.tag == PUSH,
        forall|k: int| 0 <= k < rs.len() ==> (#[trigger] rs[k]).env_id != r.env_id,
    ensures
        tally(rs.push(r), n) == tally(rs, n),
    decreases n,
{
    if n > 0 {
        lemma_tally_fresh_push(rs, r, n - 1);
        let rs2 = rs.push(r);
        let i = n - 1;
        assert(rs2[i] == rs[i]);
        assert(last_push(rs2, i) == last_push(rs, i)) by {
            if last_push(rs, i) {
                assert forall|j: int| i < j < rs2.len() implies !(#[trigger] rs2[j].tag == PUSH && rs2[j].env_id
                    == rs2[i].env_id) by {
                    if j < rs.len() {
                        assert(rs2[j] == rs[j]);
                    } else {
                        assert(rs2[j] == r);
                    }
                }
            }
            if last_push(rs2, i) {
                assert forall|j: int| i < j < rs.len() implies !(#[trigger] rs[j].tag == PUSH && rs[j].env_id
                    == rs[i].env_id) by {
                    assert(rs2[j] == rs[j]);
                }
            }
        }
        assert(rs2[rs.len() as int] == r);
        lemma_last_ack_prefix(rs, r, rs[i].env_id, rs.len() as int);
        assert(last_ack(rs2, rs[i].env_id, rs2.len() as int) == last_ack(rs2, rs[i].env_id, rs.len() as int));
    }
}

/// A push of an envelope that no other record names, with no ack, adds one
/// to the envelopes in flight and nothing to any transfer or byte total or
/// to the longest ack delay, whatever its kind: only acked pushes are
/// transfers.
pub proof fn lemma_unacked_push_law(rs: Seq<RecordView>, r: RecordView, before: Summary, after: Summary)
    requires
        r.tag == PUSH,
        forall|k: int| 0 <= k < rs.len() ==> (#[trigger] rs[k]).env_id != r.env_id,
        summary_of(rs, before),
        summary_of(rs.push(r), after),
    ensures
        after.in_flight == before.in_flight + 1,
        after.persisted_transfers == before.persisted_transfers,
        after.persisted_bytes == before.persisted_bytes,
        after.ephemeral_transfers == before.ephemeral_transfers,
        after.ephemeral_bytes == before.ephemeral_bytes,
        after.ack_latency_ms_max == before.ack_latency_ms_max,
{
    let rs2 = rs.push(r);
    let n = rs.len() as int;
    lemma_tally_fresh_push(rs, r, n);
    assert(rs2[n] == r);
    assert(last_push(rs2, n));
    lemma_last_ack_prefix(rs, r, r.env_id, n);
    lemma_last_ack_none(rs, r.env_id, n);
    assert(last_ack(rs2, r.env_id, n + 1) == last_ack(rs2, r.env_id, n));
}

/// Appending a push of an envelope no earlier record names, then its ack,
/// leaves the totals over the earlier records as they were.
proof fn lemma_tally_push_ack(rs: Seq<RecordView>, r: RecordView, a: RecordView, n: int)
    requires
        0 <= n <= rs.len(),
        r.tag == PUSH,
        a.tag == ACK,
        a.env_id == r.env_id,
        forall|k: int| 0 <= k < rs.len() ==> (#[trigger] rs[k]).env_id != r.env_id,
    ensures
        tally(rs.push(r).push(a), n) == tally(rs, n),
    decreases n,
{
    if n > 0 {
        lemma_tally_push_ack(rs, r, a, n - 1);
        let ys = rs.push(r).push(a);
        let i = n - 1;
        let len = rs.len() as int;
        assert(ys[i] == rs[i]);
        assert(ys[len] == r);
        assert(ys[len + 1] == a);
        assert(last_push(ys, i) == last_push(rs, i)) by {
            if last_push(rs, i) {
                assert forall|j: int| i < j < ys.len() implies !(#[trigger] ys[j].tag == PUSH && ys[j].env_id
                    == ys[i].env_id) by {
                    if j < len {
                        assert(ys[j] == rs[j]);
                    }
                }
            }
            if last_push(ys, i) {
                assert forall|j: int| i < j < len implies !(#[trigger] rs[j].tag == PUSH && rs[j].env_id == rs[i].env_id) by {
                    assert(ys[j] == rs[j]);
                }
            }
        }
        let id = rs[i].env_id;
        lemma_last_ack_prefix(rs.push(r), a, id, len);
        lemma_last_ack_prefix(rs, r, id, len);
        assert(last_ack(ys, id, len + 2) == last_ack(ys, id, len + 1));
        assert(last_ack(ys, id, len + 1) == last_ack(ys, id, len));
    }
}

/// A push of an envelope no earlier record names, followed by its ack, is
/// one transfer of its kind: it adds one to that kind's transfers and its
/// length to that kind's bytes, and nothing to the envelopes in flight; a
/// push of another kind adds to no total. The longest ack delay becomes the
/// larger of the old one and this push's delay.
pub proof fn lemma_acked_push_law(rs: Seq<RecordView>, r: RecordView, a: RecordView, before: Summary, after: Summary)
    requires
        r.tag == PUSH,
        a.tag == ACK,
        a.env_id == r.env_id,
        forall|k: int| 0 <= k < rs.len() ==> (#[trigger] rs[k]).env_id != r.env_id,
        summary_of(rs, before),
        summary_of(rs.push(r).push(a), after),
    ensures
        after.in_flight == before.in_flight,
        r.kind == 1 ==> after.ephemeral_transfers == before.ephemeral_transfers + 1 && after.ephemeral_bytes
            == before.ephemeral_bytes + r.cipher_len && after.persisted_transfers == before.persisted_transfers
            && after.persisted_bytes == before.persisted_bytes,
        r.kind == 2 ==> after.persisted_transfers == before.persisted_transfers + 1 && after.persisted_bytes
            == before.persisted_bytes + r.cipher_len && after.ephemeral_transfers == before.ephemeral_transfers
            && after.ephemeral_bytes == before.ephemeral_bytes,
        r.kind != 1 && r.kind != 2 ==> after.ephemeral_transfers == before.ephemeral_transfers && after.ephemeral_bytes
            == before.ephemeral_bytes && after.persisted_transfers == before.persisted_transfers
            && after.persisted_bytes == before.persisted_bytes,
        after.ack_latency_ms_max == (if a.time_ms >= r.time_ms && a.time_ms - r.time_ms > before.ack_latency_ms_max {
            a.time_ms - r.time_ms
        } else {
            before.ack_latency_ms_max as int
        }),
{
    let ys = rs.push(r).push(a);
    let len = rs.len() as int;
    lemma_tally_push_ack(rs, r, a, len);
    assert(ys[len] == r);
    assert(ys[len + 1] == a);
    assert(last_push(ys, len));
    assert(!last_push(ys, len + 1));
    assert(last_ack(ys, r.env_id, len + 2) == Some(a));
    assert(tally(ys, len + 2) == tally(ys, len + 1));
}

fn is_last_push_exec(records: &[Record], i: usize) -> (r: bool)
    requires
        i < records@.len(),
    ensures
        r == last_push(records_view(records@), i as int),
{
    let ghost rs = records_view(records@);
    if records[i].tag != PUSH {
        return false;
    }
    let mut j = i + 1;
    while j < records.len()
        invariant
            rs == records_view(records@),
            i < j <= records@.len(),
            rs[i as int].tag == PUSH,
            forall|k: int| i < k < j ==> !(#[trigger] rs[k].tag == PUSH && rs[k].env_id == rs[i as int].env_id),
        decreases records@.len() - j,
    {
        if records[j].tag == PUSH && crate::codec::eq32(&records[j].env_id, &records[i].env_id) {
            proof {
                assert(rs[j as int].tag == PUSH && rs[j as int].env_id == rs[i as int].env_id);
            }
            return false;
        }
        j = j + 1;
    }
    true
}

fn last_ack_exec(records: &[Record], id: &[u8; 32]) -> (r: Option<Record>)
    ensures
        match last_ack(records_view(records@), id@, records@.len() as int) {
            Some(a) => r matches Some(x) && x@ == a,
            None => r is None,
        },
{
    let ghost rs = records_view(records@);
    let mut k = records.len();
    while k > 0
        invariant
            rs == records_view(records@),
            k <= records@.len(),
            last_ack(rs, id@, records@.len() as int) == last_ack(rs, id@, k as int),
        decreases k,
    {
        if records[k - 1].tag == ACK && crate::codec::eq32(&records[k - 1].env_id, id) {
            return Some(records[k - 1]);
        }
        k = k - 1;
    }
    None
}

pub fn summarize(records: &[Record]) -> (s: Summary)
    requires
        records@.len() <= u32::MAX,
    ensures
        summary_of(records_view(records@), s),
{
    let ghost rs = records_view(records@);
    let mut first: u64 = u64::MAX;
    let mut last: u64 = 0;
    let mut i: usize = 0;
    while i < records.len()
        invariant
            rs == records_view(records@),
            i <= records@.len(),
            first == min_time(rs, i as int),
            last == max_time(rs, i as int),
        decreases records@.len() - i,
    {
        if records[i].time_ms < first {
            first = records[i].time_ms;
        }
        if records[i].time_ms > last {
            last = records[i].time_ms;
        }
        i = i + 1;
    }
    let mut s = Summary {
        ephemeral_transfers: 0,
        ephemeral_bytes: 0,
        persisted_transfers: 0,
        persisted_bytes: 0,
        in_flight: 0,
        window_ms: if records.len() == 0 {
            0
        } else if last >= first {
            last - first
        } else {
            0
        },
        ack_latency_ms_max: 0,
    };
    let mut i: usize = 0;
    while i < records.len()
        invariant
            rs == records_view(records@),
            records@.len() <= u32::MAX,
            i <= records@.len(),
            s.window_ms == (if rs.len() == 0 {
                0
            } else {
                sat_sub(max_time(rs, rs.len() as int), min_time(rs, rs.len() as int))
            }),
            s.ephemeral_transfers == tally(rs, i as int).eph_t,
            s.ephemeral_bytes == tally(rs, i as int).eph_b,
            s.persisted_transfers == tally(rs, i as int).per_t,
            s.persisted_bytes == tally(rs, i as int).per_b,
            s.in_flight == tally(rs, i as int).in_flight,
            s.ack_latency_ms_max == tally(rs, i as int).lat_max,
        decreases records@.len() - i,
    {
        proof {
            lemma_tally_bounds(rs, i + 1);
            assert((i + 1) * 0xffff_ffff <= u64::MAX) by (nonlinear_arith)
                requires
                    i + 1 <= 0xffff_ffff,
            ;
        }
        if is_last_push_exec(records, i) {
            let push = &records[i];
            match last_ack_exec(records, &push.env_id) {
                None => {
                    s.in_flight = s.in_flight + 1;
                },
                Some(ack) => {
                    let latency = if ack.time_ms >= push.time_ms {
                        ack.time_ms - push.time_ms
                    } else {
                        0
                    };
                    if latency > s.ack_latency_ms_max {
                        s.ack_latency_ms_max = latency;
                    }
                    if push.kind == 1 {
                        s.ephemeral_transfers = s.ephemeral_transfers + 1;
                        s.ephemeral_bytes = s.ephemeral_bytes + push.cipher_len as u64;
                    } else if push.kind == 2 {
                        s.persisted_transfers = s.persisted_transfers + 1;
                        s.persisted_bytes = s.persisted_bytes + push.cipher_len as u64;
                    }
                },
            }
        }
        i = i + 1;
    }
    s
}

/// Bytes per second over a window in milliseconds; zero for an empty window.
pub open spec fn rate_of(bytes: u64, window_ms: u64) -> u64 {
    if window_ms == 0 {
        0
    } else {
        ((if bytes * 1000 > u64::MAX {
            u64::MAX as int
        } else {
            bytes * 1000
        }) / (window_ms as int)) as u64
    }
}

fn rate(bytes: u64, window_ms: u64) -> (r: u64)
    ensures
        r == rate_of(bytes, window_ms),
{
    if window_ms == 0 {
        0
    } else {
        let scaled: u64 = if bytes > u64::MAX / 1000 {
            u64::MAX
        } else {
            bytes * 1000
        };
        scaled / window_ms
    }
}

/// The summary as `name value` lines.
pub open spec fn summary_text(s: Summary) -> Seq<u8> {
    "ephemeral_transfers ".spec_bytes() + dec(s.ephemeral_transfers as nat) + "\nephemeral_bytes ".spec_bytes()
        + dec(s.ephemeral_bytes as nat) + "\nephemeral_bytes_per_sec ".spec_bytes() + dec(
        rate_of(s.ephemeral_bytes, s.window_ms) as nat,
    ) + "\npersisted_transfers ".spec_bytes() + dec(s.persisted_transfers as nat)
        + "\npersisted_bytes ".spec_bytes() + dec(s.persisted_bytes as nat)
        + "\npersisted_bytes_per_sec ".spec_bytes() + dec(rate_of(s.persisted_bytes, s.window_ms) as nat)
        + "\nin_flight ".spec_bytes() + dec(s.in_flight as nat) + "\nwindow_ms ".spec_bytes() + dec(
        s.window_ms as nat,
    ) + "\nack_latency_ms_max ".spec_bytes() + dec(s.ack_latency_ms_max as nat) + "\n".spec_bytes()
}

pub fn format_summary(summary: &Summary) -> (out: String)
    ensures
        encode_utf8(out@) == summary_text(*summary),
{
    let mut b: Vec<u8> = Vec::new();
    proof {
        assert(valid_utf8(b@)) by {
            assert(encode_utf8(Seq::<char>::empty()) =~= Seq::<u8>::empty());
            assert(b@ =~= Seq::<u8>::empty());
        }
    }
    let window = summary.window_ms;
    push_str_bytes(&mut b, "ephemeral_transfers ");
    append_dec(&mut b, summary.ephemeral_transfers);
    push_str_bytes(&mut b, "\nephemeral_bytes ");
    append_dec(&mut b, summary.ephemeral_bytes);
    push_str_bytes(&mut b, "\nephemeral_bytes_per_sec ");
    append_dec(&mut b, rate(summary.ephemeral_bytes, window));
    push_str_bytes(&mut b, "\npersisted_transfers ");
    append_dec(&mut b, summary.persisted_transfers);
    push_str_bytes(&mut b, "\npersisted_bytes ");
    append_dec(&mut b, summary.persisted_bytes);
    push_str_bytes(&mut b, "\npersisted_bytes_per_sec ");
    append_dec(&mut b, rate(summary.persisted_bytes, window));
    push_str_bytes(&mut b, "\nin_flight ");
    append_dec(&mut b, summary.in_flight);
    push_str_bytes(&mut b, "\nwindow_ms ");
    append_dec(&mut b, window);
    push_str_bytes(&mut b, "\nack_latency_ms_max ");
    append_dec(&mut b, summary.ack_latency_ms_max);
    push_str_bytes(&mut b, "\n");
    proof {
        assert(b@ =~= summary_text(*summary));
    }
    string_of_utf8(b)
}

/// Milliseconds since the Unix epoch, or 0 if the clock is before it.
/// Nothing is claimed of the value: it is read from the machine's clock.
#[verifier::external_body]
pub fn now_ms() -> u64 {
    std::time::SystemTime::now().duration_since(std::time::UNIX_EPOCH).map(|d| d.as_millis() as u64).unwrap_or(0)
}

// ---------------------------------------------------------------------------
// What a written metrics file reads back as
// ---------------------------------------------------------------------------

/// A ` key=value` field as a metrics line spells it.
pub open spec fn field_text(kv: (Seq<char>, Seq<char>)) -> Seq<char> {
    seq![' '] + kv.0 + seq!['='] + kv.1
}

pub open spec fn fields_text(fs: Seq<(Seq<char>, Seq<char>)>) -> Seq<char>
    decreases fs.len(),
{
    if fs.len() == 0 {
        Seq::empty()
    } else {
        field_text(fs[0]) + fields_text(fs.drop_first())
    }
}

/// Reading the fields in order, as the line scan does.
pub open spec fn fields_fold(fs: Seq<(Seq<char>, Seq<char>)>, f: Fields) -> Result<Fields, Error>
    decreases fs.len(),
{
    if fs.len() == 0 {
        Ok(f)
    } else {
        match field_step(f, fs[0].0, fs[0].1) {
            Err(x) => Err(x),
            Ok(f2) => fields_fold(fs.drop_first(), f2),
        }
    }
}

/// A non-empty key with neither whitespace nor `=`, and a value without
/// whitespace.
pub open spec fn field_ok(kv: (Seq<char>, Seq<char>)) -> bool {
    &&& kv.0.len() > 0
    &&& forall|j: int| 0 <= j < kv.0.len() ==> !is_ws(#[trigger] kv.0[j]) && kv.0[j] != '='
    &&& forall|j: int| 0 <= j < kv.1.len() ==> !is_ws(#[trigger] kv.1[j])
}

/// The fields a record is written with, in order.
pub open spec fn record_fields(r: RecordView) -> Seq<(Seq<char>, Seq<char>)> {
    seq![
        ("time_ms"@, ascii_chars(dec(r.time_ms as nat))),
        ("sender"@, ascii_chars(hex_bytes(r.sender))),
        ("recipient"@, ascii_chars(hex_bytes(r.recipient))),
        ("env"@, ascii_chars(hex_bytes(r.env_id))),
        ("bytes"@, ascii_chars(dec(r.cipher_len as nat))),
        ("suite"@, ascii_chars(dec(r.suite as nat))),
        ("kind"@, ascii_chars(dec(r.kind as nat))),
        ("channel"@, ascii_chars(hex_bytes(r.channel))),
    ]
}

pub open spec fn tag_text(r: RecordView) -> Seq<char> {
    if r.tag == ACK {
        "ack"@
    } else {
        "push"@
    }
}

/// A record the file can hold: a push or an ack, with 32-byte ids.
pub open spec fn record_ok(r: RecordView) -> bool {
    &&& r.tag == PUSH || r.tag == ACK
    &&& r.sender.len() == 32
    &&& r.recipient.len() == 32
    &&& r.env_id.len() == 32
    &&& r.channel.len() == 32
}

/// The formatted lines of the records, one after another.
pub open spec fn lines_bytes(rs: Seq<RecordView>) -> Seq<u8>
    decreases rs.len(),
{
    if rs.len() == 0 {
        Seq::empty()
    } else {
        record_line(rs[0]) + lines_bytes(rs.drop_first())
    }
}

/// A metrics file as the relay writes it: the header line, then a line per
/// record.
pub open spec fn metrics_file(rs: Seq<RecordView>) -> Seq<u8> {
    encode_utf8("wire-metrics 1\n"@) + lines_bytes(rs)
}

proof fn lemma_token_run(s: Seq<char>, a: int, b: int, e: int)
    requires
        0 <= a <= b <= e <= s.len(),
        forall|j: int| a <= j < b ==> !is_ws(#[trigger] s[j]),
        b == e || is_ws(s[b]),
    ensures
        token_end(s, a, e) == b,
    decreases b - a,
{
    if a < b {
        lemma_token_run(s, a + 1, b, e);
    }
}

proof fn lemma_find_run(s: Seq<char>, a: int, q: int, b: int, c: char)
    requires
        0 <= a <= q < b <= s.len(),
        forall|j: int| a <= j < q ==> #[trigger] s[j] != c,
        s[q] == c,
    ensures
        find_in(s, a, b, c) == q,
    decreases q - a,
{
    if a < q {
        lemma_find_run(s, a + 1, q, b, c);
    }
}

proof fn lemma_next_char_run(s: Seq<char>, i: int, k: int, c: char)
    requires
        0 <= i <= k < s.len(),
        forall|j: int| i <= j < k ==> #[trigger] s[j] != c,
        s[k] == c,
    ensures
        next_char(s, i, c) == k,
    decreases k - i,
{
    if i < k {
        lemma_next_char_run(s, i + 1, k, c);
    }
}

/// The field scan reads one written field and goes on after it.
proof fn lemma_scan_field(s: Seq<char>, i: int, e: int, f: Fields, kv: (Seq<char>, Seq<char>))
    requires
        0 <= i,
        i + field_text(kv).len() <= e <= s.len(),
        s.subrange(i, i + field_text(kv).len()) == field_text(kv),
        field_ok(kv),
        i + field_text(kv).len() == e || is_ws(s[i + field_text(kv).len()]),
    ensures
        fields_scan(s, i, e, f) == match field_step(f, kv.0, kv.1) {
            Err(x) => Err(x),
            Ok(f2) => fields_scan(s, i + field_text(kv).len(), e, f2),
        },
{
    let t = field_text(kv);
    let kl = kv.0.len() as int;
    let vl = kv.1.len() as int;
    let a = i + 1;
    let q = i + 1 + kl;
    let b = i + t.len();
    assert(t.len() == 2 + kl + vl);
    assert forall|j: int| i <= j < b implies s[j] == #[trigger] t[j - i] by {
        assert(s.subrange(i, b)[j - i] == s[j]);
    }
    assert(s[i] == t[0]);
    assert(s[a] == t[1]);
    assert(t[1] == kv.0[0]);
    assert(!is_ws(kv.0[0]));
    assert(is_ws(s[i]));
    assert(ws_skip(s, a, e) == a);
    assert(ws_skip(s, i, e) == a);
    assert forall|j: int| a <= j < b implies !is_ws(#[trigger] s[j]) by {
        let d = j - i;
        assert(s[j] == t[d]);
        if d < 1 + kl {
            assert(t[d] == kv.0[d - 1]);
        } else if d == 1 + kl {
            assert(t[d] == '=');
        } else {
            assert(t[d] == kv.1[d - 2 - kl]);
        }
    }
    lemma_token_run(s, a, b, e);
    assert forall|j: int| a <= j < q implies #[trigger] s[j] != '=' by {
        let d = j - i;
        assert(s[j] == t[d]);
        assert(t[d] == kv.0[d - 1]);
    }
    assert(s[q] == t[1 + kl]);
    lemma_find_run(s, a, q, b, '=');
    assert(s.subrange(a, q) =~= kv.0) by {
        assert forall|j: int| 0 <= j < kl implies s.subrange(a, q)[j] == kv.0[j] by {
            assert(s[a + j] == t[1 + j]);
        }
    }
    assert(s.subrange(q + 1, b) =~= kv.1) by {
        assert forall|j: int| 0 <= j < vl implies s.subrange(q + 1, b)[j] == kv.1[j] by {
            assert(s[q + 1 + j] == t[2 + kl + j]);
        }
    }
}

/// The field scan reads written fields in order.
proof fn lemma_scan_fields(s: Seq<char>, i: int, e: int, fs: Seq<(Seq<char>, Seq<char>)>, f: Fields)
    requires
        0 <= i <= e <= s.len(),
        s.subrange(i, e) == fields_text(fs),
        forall|k: int| 0 <= k < fs.len() ==> field_ok(#[trigger] fs[k]),
    ensures
        fields_scan(s, i, e, f) == fields_fold(fs, f),
    decreases fs.len(),
{
    if fs.len() == 0 {
        assert(i == e);
    } else {
        let t = field_text(fs[0]);
        let rest = fields_text(fs.drop_first());
        assert(fields_text(fs) == t + rest);
        let b = i + t.len();
        assert(s.subrange(i, b) =~= t) by {
            assert forall|j: int| 0 <= j < t.len() implies s.subrange(i, b)[j] == t[j] by {
                assert(s.subrange(i, e)[j] == (t + rest)[j]);
            }
        }
        assert(s.subrange(b, e) =~= rest) by {
            assert forall|j: int| 0 <= j < rest.len() implies s.subrange(b, e)[j] == rest[j] by {
                assert(s.subrange(i, e)[t.len() + j] == (t + rest)[t.len() + j]);
            }
        }
        assert(field_ok(fs[0]));
        if fs.len() > 1 {
            let fs1 = fs.drop_first();
            assert(rest == field_text(fs1[0]) + fields_text(fs1.drop_first()));
            assert(rest[0] == ' ');
            assert(s[b] == s.subrange(b, e)[0]);
        } else {
            assert(rest.len() == 0);
        }
        lemma_scan_field(s, i, e, f, fs[0]);
        match field_step(f, fs[0].0, fs[0].1) {
            Err(_) => {},
            Ok(f2) => {
                assert forall|k: int| 0 <= k < fs.drop_first().len() implies field_ok(#[trigger] fs.drop_first()[k]) by {
                    assert(fs.drop_first()[k] == fs[k + 1]);
                }
                lemma_scan_fields(s, b, e, fs.drop_first(), f2);
            },
        }
    }
}

/// Written fields hold no line break and no carriage return.
proof fn lemma_fields_no_break(fs: Seq<(Seq<char>, Seq<char>)>)
    requires
        forall|k: int| 0 <= k < fs.len() ==> field_ok(#[trigger] fs[k]),
    ensures
        forall|j: int| 0 <= j < fields_text(fs).len() ==> #[trigger] fields_text(fs)[j] != '\n' && fields_text(fs)[j] != '\r',
    decreases fs.len(),
{
    if fs.len() > 0 {
        let t = field_text(fs[0]);
        let kv = fs[0];
        assert(field_ok(kv));
        assert forall|k: int| 0 <= k < fs.drop_first().len() implies field_ok(#[trigger] fs.drop_first()[k]) by {
            assert(fs.drop_first()[k] == fs[k + 1]);
        }
        lemma_fields_no_break(fs.drop_first());
        let rest = fields_text(fs.drop_first());
        assert forall|j: int| 0 <= j < fields_text(fs).len() implies #[trigger] fields_text(fs)[j] != '\n'
            && fields_text(fs)[j] != '\r' by {
            assert(fields_text(fs) == t + rest);
            if j < t.len() {
                let kl = kv.0.len() as int;
                if j == 0 {
                } else if j < 1 + kl {
                    assert(t[j] == kv.0[j - 1]);
                    assert(!is_ws(kv.0[j - 1]));
                } else if j == 1 + kl {
                } else {
                    assert(t[j] == kv.1[j - 2 - kl]);
                    assert(!is_ws(kv.1[j - 2 - kl]));
                }
            } else {
                assert(fields_text(fs)[j] == rest[j - t.len()]);
            }
        }
    }
}

proof fn lemma_digits_of_dec(n: nat)
    ensures
        digits_value(dec(n)) == n,
    decreases n,
{
    lemma_dec_ascii(n);
    if n >= 10 {
        lemma_digits_of_dec(n / 10);
        assert(dec(n).drop_last() =~= dec(n / 10));
        assert(dec(n).last() == (48 + n % 10) as u8);
        assert(n == (n / 10) * 10 + n % 10) by (nonlinear_arith);
    } else {
        assert(dec(n).drop_last() =~= Seq::<u8>::empty());
        assert(digits_value(Seq::<u8>::empty()) == 0);
        assert(dec(n).last() == (48 + n) as u8);
    }
}

/// A decimal value as written reads back.
proof fn lemma_dec_reads_back(n: nat, max: nat)
    requires
        n <= max,
    ensures
        encode_utf8(ascii_chars(dec(n))) == dec(n),
        parse_uint(encode_utf8(ascii_chars(dec(n))), max) == Some(n),
        forall|j: int| 0 <= j < ascii_chars(dec(n)).len() ==> !is_ws(#[trigger] ascii_chars(dec(n))[j]),
{
    lemma_dec_ascii(n);
    lemma_ascii_utf8(dec(n));
    lemma_digits_of_dec(n);
    assert(dec(n)[0] != 43);
    assert forall|j: int| 0 <= j < ascii_chars(dec(n)).len() implies !is_ws(#[trigger] ascii_chars(dec(n))[j]) by {
        let x = dec(n)[j];
        assert(48 <= x <= 57);
        assert((x as char) as u32 == x as u32);
    }
}

/// A 32-byte id as written reads back.
proof fn lemma_id_reads_back(b: Seq<u8>)
    requires
        b.len() == 32,
    ensures
        id_value(encode_utf8(ascii_chars(hex_bytes(b)))) == Ok::<Seq<u8>, Error>(b),
        forall|j: int| 0 <= j < ascii_chars(hex_bytes(b)).len() ==> !is_ws(#[trigger] ascii_chars(hex_bytes(b))[j]),
{
    lemma_hex_roundtrip(b);
    lemma_hex_bytes_shape(b);
    assert forall|j: int| 0 <= j < ascii_chars(hex_bytes(b)).len() implies !is_ws(#[trigger] ascii_chars(hex_bytes(b))[j]) by {
        let x = hex_bytes(b)[j];
        assert(hex_value(x) is Some);
        assert((x as char) as u32 == x as u32);
    }
}

/// The keys a record is written with.
proof fn lemma_record_keys(r: RecordView)
    ensures
        forall|k: int| 0 <= k < record_fields(r).len() ==> {
            let key = (#[trigger] record_fields(r)[k]).0;
            &&& key.len() > 0
            &&& forall|j: int| 0 <= j < key.len() ==> !is_ws(#[trigger] key[j]) && key[j] != '='
        },
{
    reveal_strlit("time_ms");
    reveal_strlit("sender");
    reveal_strlit("recipient");
    reveal_strlit("env");
    reveal_strlit("bytes");
    reveal_strlit("suite");
    reveal_strlit("kind");
    reveal_strlit("channel");
    let fs = record_fields(r);
    assert forall|k: int| 0 <= k < fs.len() implies {
        let key = (#[trigger] fs[k]).0;
        &&& key.len() > 0
        &&& forall|j: int| 0 <= j < key.len() ==> !is_ws(#[trigger] key[j]) && key[j] != '='
    } by {
        if k == 0 {
            assert(fs[k].0 =~= seq!['t', 'i', 'm', 'e', '_', 'm', 's']);
        } else if k == 1 {
            assert(fs[k].0 =~= seq!['s', 'e', 'n', 'd', 'e', 'r']);
        } else if k == 2 {
            assert(fs[k].0 =~= seq!['r', 'e', 'c', 'i', 'p', 'i', 'e', 'n', 't']);
        } else if k == 3 {
            assert(fs[k].0 =~= seq!['e', 'n', 'v']);
        } else if k == 4 {
            assert(fs[k].0 =~= seq!['b', 'y', 't', 'e', 's']);
        } else if k == 5 {
            assert(fs[k].0 =~= seq!['s', 'u', 'i', 't', 'e']);
        } else if k == 6 {
            assert(fs[k].0 =~= seq!['k', 'i', 'n', 'd']);
        } else {
            assert(fs[k].0 =~= seq!['c', 'h', 'a', 'n', 'n', 'e', 'l']);
        }
    }
}

/// The written fields of a record can be read.
proof fn lemma_record_fields_ok(r: RecordView)
    requires
        record_ok(r),
    ensures
        forall|k: int| 0 <= k < record_fields(r).len() ==> field_ok(#[trigger] record_fields(r)[k]),
{
    lemma_record_keys(r);
    lemma_dec_reads_back(r.time_ms as nat, u64::MAX as nat);
    lemma_dec_reads_back(r.cipher_len as nat, u32::MAX as nat);
    lemma_dec_reads_back(r.suite as nat, u16::MAX as nat);
    lemma_dec_reads_back(r.kind as nat, u8::MAX as nat);
    lemma_id_reads_back(r.sender);
    lemma_id_reads_back(r.recipient);
    lemma_id_reads_back(r.env_id);
    lemma_id_reads_back(r.channel);
    let fs = record_fields(r);
    assert forall|k: int| 0 <= k < fs.len() implies field_ok(#[trigger] fs[k]) by {
        let key = fs[k].0;
        assert(key.len() > 0);
    }
}

/// The record with all its fields read so far, in the written order.
pub open spec fn fields_after(r: RecordView, n: int) -> Fields {
    Fields {
        time_ms: if n >= 1 { Some(r.time_ms) } else { None },
        sender: if n >= 2 { Some(r.sender) } else { None },
        recipient: if n >= 3 { Some(r.recipient) } else { None },
        env_id: if n >= 4 { Some(r.env_id) } else { None },
        cipher_len: if n >= 5 { Some(r.cipher_len) } else { None },
        suite: if n >= 6 { Some(r.suite) } else { None },
        kind: if n >= 7 { Some(r.kind) } else { None },
        channel: if n >= 8 { Some(r.channel) } else { None },
    }
}

proof fn lemma_step_time_ms(r: RecordView)
    requires
        record_ok(r),
    ensures
        field_step(fields_after(r, 0), "time_ms"@, ascii_chars(dec(r.time_ms as nat))) == Ok::<Fields, Error>(fields_after(r, 1)),
{
    reveal_strlit("time_ms");
    lemma_dec_reads_back(r.time_ms as nat, u64::MAX as nat);
    assert(fields_after(r, 1) == Fields { time_ms: Some(r.time_ms), ..fields_after(r, 0) });
}

proof fn lemma_step_sender(r: RecordView)
    requires
        record_ok(r),
    ensures
        field_step(fields_after(r, 1), "sender"@, ascii_chars(hex_bytes(r.sender))) == Ok::<Fields, Error>(fields_after(r, 2)),
{
    reveal_strlit("time_ms");
    reveal_strlit("sender");
    assert("sender"@ =~= seq!['s', 'e', 'n', 'd', 'e', 'r']);
    assert("time_ms"@ =~= seq!['t', 'i', 'm', 'e', '_', 'm', 's']);
    assert("sender"@ != "time_ms"@);
    lemma_id_reads_back(r.sender);
    assert(fields_after(r, 2) == Fields { sender: Some(r.sender), ..fields_after(r, 1) });
}

proof fn lemma_step_recipient(r: RecordView)
    requires
        record_ok(r),
    ensures
        field_step(fields_after(r, 2), "recipient"@, ascii_chars(hex_bytes(r.recipient))) == Ok::<Fields, Error>(fields_after(r, 3)),
{
    reveal_strlit("time_ms");
    reveal_strlit("sender");
    reveal_strlit("recipient");
    assert("recipient"@ =~= seq!['r', 'e', 'c', 'i', 'p', 'i', 'e', 'n', 't']);
    assert("time_ms"@ =~= seq!['t', 'i', 'm', 'e', '_', 'm', 's']);
    assert("recipient"@ != "time_ms"@);
    assert("sender"@ =~= seq!['s', 'e', 'n', 'd', 'e', 'r']);
    assert("recipient"@ != "sender"@);
    lemma_id_reads_back(r.recipient);
    assert(fields_after(r, 3) == Fields { recipient: Some(r.recipient), ..fields_after(r, 2) });
}

proof fn lemma_step_env_id(r: RecordView)
    requires
        record_ok(r),
    ensures
        field_step(fields_after(r, 3), "env"@, ascii_chars(hex_bytes(r.env_id))) == Ok::<Fields, Error>(fields_after(r, 4)),
{
    reveal_strlit("time_ms");
    reveal_strlit("sender");
    reveal_strlit("recipient");
    reveal_strlit("env");
    assert("env"@ =~= seq!['e', 'n', 'v']);
    assert("time_ms"@ =~= seq!['t', 'i', 'm', 'e', '_', 'm', 's']);
    assert("env"@ != "time_ms"@);
    assert("sender"@ =~= seq!['s', 'e', 'n', 'd', 'e', 'r']);
    assert("env"@ != "sender"@);
    assert("recipient"@ =~= seq!['r', 'e', 'c', 'i', 'p', 'i', 'e', 'n', 't']);
    assert("env"@ != "recipient"@);
    lemma_id_reads_back(r.env_id);
    assert(fields_after(r, 4) == Fields { env_id: Some(r.env_id), ..fields_after(r, 3) });
}

proof fn lemma_step_cipher_len(r: RecordView)
    requires
        record_ok(r),
    ensures
        field_step(fields_after(r, 4), "bytes"@, ascii_chars(dec(r.cipher_len as nat))) == Ok::<Fields, Error>(fields_after(r, 5)),
{
    reveal_strlit("time_ms");
    reveal_strlit("sender");
    reveal_strlit("recipient");
    reveal_strlit("env");
    reveal_strlit("bytes");
    assert("bytes"@ =~= seq!['b', 'y', 't', 'e', 's']);
    assert("time_ms"@ =~= seq!['t', 'i', 'm', 'e', '_', 'm', 's']);
    assert("bytes"@ != "time_ms"@);
    assert("sender"@ =~= seq!['s', 'e', 'n', 'd', 'e', 'r']);
    assert("bytes"@ != "sender"@);
    assert("recipient"@ =~= seq!['r', 'e', 'c', 'i', 'p', 'i', 'e', 'n', 't']);
    assert("bytes"@ != "recipient"@);
    assert("env"@ =~= seq!['e', 'n', 'v']);
    assert("bytes"@ != "env"@);
    lemma_dec_reads_back(r.cipher_len as nat, u32::MAX as nat);
    assert(fields_after(r, 5) == Fields { cipher_len: Some(r.cipher_len), ..fields_after(r, 4) });
}

proof fn lemma_step_suite(r: RecordView)
    requires
        record_ok(r),
    ensures
        field_step(fields_after(r, 5), "suite"@, ascii_chars(dec(r.suite as nat))) == Ok::<Fields, Error>(fields_after(r, 6)),
{
    reveal_strlit("time_ms");
    reveal_strlit("sender");
    reveal_strlit("recipient");
    reveal_strlit("env");
    reveal_strlit("bytes");
    reveal_strlit("suite");
    assert("suite"@ =~= seq!['s', 'u', 'i', 't', 'e']);
    assert("time_ms"@ =~= seq!['t', 'i', 'm', 'e', '_', 'm', 's']);
    assert("suite"@ != "time_ms"@);
    assert("sender"@ =~= seq!['s', 'e', 'n', 'd', 'e', 'r']);
    assert("suite"@ != "sender"@);
    assert("recipient"@ =~= seq!['r', 'e', 'c', 'i', 'p', 'i', 'e', 'n', 't']);
    assert("suite"@ != "recipient"@);
    assert("env"@ =~= seq!['e', 'n', 'v']);
    assert("suite"@ != "env"@);
    assert("bytes"@ =~= seq!['b', 'y', 't', 'e', 's']);
    assert("suite"@ != "bytes"@);
    lemma_dec_reads_back(r.suite as nat, u16::MAX as nat);
    assert(fields_after(r, 6) == Fields { suite: Some(r.suite), ..fields_after(r, 5) });
}

proof fn lemma_step_kind(r: RecordView)
    requires
        record_ok(r),
    ensures
        field_step(fields_after(r, 6), "kind"@, ascii_chars(dec(r.kind as nat))) == Ok::<Fields, Error>(fields_after(r, 7)),
{
    reveal_strlit("time_ms");
    reveal_strlit("sender");
    reveal_strlit("recipient");
    reveal_strlit("env");
    reveal_strlit("bytes");
    reveal_strlit("suite");
    reveal_strlit("kind");
    assert("kind"@ =~= seq!['k', 'i', 'n', 'd']);
    assert("time_ms"@ =~= seq!['t', 'i', 'm', 'e', '_', 'm', 's']);
    assert("kind"@ != "time_ms"@);
    assert("sender"@ =~= seq!['s', 'e', 'n', 'd', 'e', 'r']);
    assert("kind"@ != "sender"@);
    assert("recipient"@ =~= seq!['r', 'e', 'c', 'i', 'p', 'i', 'e', 'n', 't']);
    assert("kind"@ != "recipient"@);
    assert("env"@ =~= seq!['e', 'n', 'v']);
    assert("kind"@ != "env"@);
    assert("bytes"@ =~= seq!['b', 'y', 't', 'e', 's']);
    assert("kind"@ != "bytes"@);
    assert("suite"@ =~= seq!['s', 'u', 'i', 't', 'e']);
    assert("kind"@ != "suite"@);
    lemma_dec_reads_back(r.kind as nat, u8::MAX as nat);
    assert(fields_after(r, 7) == Fields { kind: Some(r.kind), ..fields_after(r, 6) });
}

proof fn lemma_step_channel(r: RecordView)
    requires
        record_ok(r),
    ensures
        field_step(fields_after(r, 7), "channel"@, ascii_chars(hex_bytes(r.channel))) == Ok::<Fields, Error>(fields_after(r, 8)),
{
    reveal_strlit("time_ms");
    reveal_strlit("sender");
    reveal_strlit("recipient");
    reveal_strlit("env");
    reveal_strlit("bytes");
    reveal_strlit("suite");
    reveal_strlit("kind");
    reveal_strlit("channel");
    assert("channel"@ =~= seq!['c', 'h', 'a', 'n', 'n', 'e', 'l']);
    assert("time_ms"@ =~= seq!['t', 'i', 'm', 'e', '_', 'm', 's']);
    assert("channel"@ != "time_ms"@);
    assert("sender"@ =~= seq!['s', 'e', 'n', 'd', 'e', 'r']);
    assert("channel"@ != "sender"@);
    assert("recipient"@ =~= seq!['r', 'e', 'c', 'i', 'p', 'i', 'e', 'n', 't']);
    assert("channel"@ != "recipient"@);
    assert("env"@ =~= seq!['e', 'n', 'v']);
    assert("channel"@ != "env"@);
    assert("bytes"@ =~= seq!['b', 'y', 't', 'e', 's']);
    assert("channel"@ != "bytes"@);
    assert("suite"@ =~= seq!['s', 'u', 'i', 't', 'e']);
    assert("channel"@ != "suite"@);
    assert("kind"@ =~= seq!['k', 'i', 'n', 'd']);
    assert("channel"@ != "kind"@);
    lemma_id_reads_back(r.channel);
    assert(fields_after(r, 8) == Fields { channel: Some(r.channel), ..fields_after(r, 7) });
}

/// Reading the `k`-th written field of a record sets it.
proof fn lemma_record_step(r: RecordView, k: int)
    requires
        record_ok(r),
        0 <= k < 8,
    ensures
        field_step(fields_after(r, k), record_fields(r)[k].0, record_fields(r)[k].1) == Ok::<Fields, Error>(
            fields_after(r, k + 1),
        ),
{
    if k == 0 {
        lemma_step_time_ms(r);
    } else if k == 1 {
        lemma_step_sender(r);
    } else if k == 2 {
        lemma_step_recipient(r);
    } else if k == 3 {
        lemma_step_env_id(r);
    } else if k == 4 {
        lemma_step_cipher_len(r);
    } else if k == 5 {
        lemma_step_suite(r);
    } else if k == 6 {
        lemma_step_kind(r);
    } else {
        lemma_step_channel(r);
    }
}

/// The written fields of a record read back as that record's fields.
proof fn lemma_record_fields(r: RecordView, k: int)
    requires
        record_ok(r),
        0 <= k <= 8,
    ensures
        fields_fold(record_fields(r).subrange(k, 8), fields_after(r, k)) == Ok::<Fields, Error>(fields_after(r, 8)),
    decreases 8 - k,
{
    let fs = record_fields(r).subrange(k, 8);
    if k < 8 {
        lemma_record_step(r, k);
        assert(fs[0] == record_fields(r)[k]);
        assert(fs.drop_first() =~= record_fields(r).subrange(k + 1, 8));
        lemma_record_fields(r, k + 1);
    }
}

proof fn lemma_lit(s: &str)
    requires
        vstd::utf8::is_ascii_chars(s@),
    ensures
        is_ascii_bytes(s.spec_bytes()),
        ascii_chars(s.spec_bytes()) == s@,
{
    vstd::utf8::is_ascii_chars_encode_utf8(s@);
    let b = s.spec_bytes();
    assert forall|i: int| 0 <= i < b.len() implies #[trigger] b[i] < 128 by {
        assert(s@[i] as u8 == b[i]);
    }
    assert(ascii_chars(b) =~= s@) by {
        assert forall|i: int| 0 <= i < b.len() implies ascii_chars(b)[i] == s@[i] by {
            assert(s@[i] as u8 == b[i]);
        }
    }
}

proof fn lemma_ascii_cat(a: Seq<u8>, b: Seq<u8>)
    requires
        is_ascii_bytes(a),
        is_ascii_bytes(b),
    ensures
        is_ascii_bytes(a + b),
        ascii_chars(a + b) == ascii_chars(a) + ascii_chars(b),
{
    assert forall|i: int| 0 <= i < (a + b).len() implies #[trigger] (a + b)[i] < 128 by {
        if i < a.len() {
            assert((a + b)[i] == a[i]);
        } else {
            assert((a + b)[i] == b[i - a.len()]);
        }
    }
    assert(ascii_chars(a + b) =~= ascii_chars(a) + ascii_chars(b));
}

/// The literal pieces of a metrics line are ASCII and spell their text.
proof fn lemma_line_literals()
    ensures
        is_ascii_bytes("ack".spec_bytes()) && ascii_chars("ack".spec_bytes()) == "ack"@,
        is_ascii_bytes("push".spec_bytes()) && ascii_chars("push".spec_bytes()) == "push"@,
        is_ascii_bytes(" time_ms=".spec_bytes()) && ascii_chars(" time_ms=".spec_bytes()) == " time_ms="@,
        is_ascii_bytes(" sender=".spec_bytes()) && ascii_chars(" sender=".spec_bytes()) == " sender="@,
        is_ascii_bytes(" recipient=".spec_bytes()) && ascii_chars(" recipient=".spec_bytes()) == " recipient="@,
        is_ascii_bytes(" env=".spec_bytes()) && ascii_chars(" env=".spec_bytes()) == " env="@,
        is_ascii_bytes(" bytes=".spec_bytes()) && ascii_chars(" bytes=".spec_bytes()) == " bytes="@,
        is_ascii_bytes(" suite=".spec_bytes()) && ascii_chars(" suite=".spec_bytes()) == " suite="@,
        is_ascii_bytes(" kind=".spec_bytes()) && ascii_chars(" kind=".spec_bytes()) == " kind="@,
        is_ascii_bytes(" channel=".spec_bytes()) && ascii_chars(" channel=".spec_bytes()) == " channel="@,
        is_ascii_bytes("\n".spec_bytes()) && ascii_chars("\n".spec_bytes()) == "\n"@,
        " time_ms="@ == seq![' '] + "time_ms"@ + seq!['='],
        " sender="@ == seq![' '] + "sender"@ + seq!['='],
        " recipient="@ == seq![' '] + "recipient"@ + seq!['='],
        " env="@ == seq![' '] + "env"@ + seq!['='],
        " bytes="@ == seq![' '] + "bytes"@ + seq!['='],
        " suite="@ == seq![' '] + "suite"@ + seq!['='],
        " kind="@ == seq![' '] + "kind"@ + seq!['='],
        " channel="@ == seq![' '] + "channel"@ + seq!['='],
        "\n"@ == seq!['\n'],
{
    reveal_strlit("ack");
    reveal_strlit("push");
    reveal_strlit(" time_ms=");
    reveal_strlit(" sender=");
    reveal_strlit(" recipient=");
    reveal_strlit(" env=");
    reveal_strlit(" bytes=");
    reveal_strlit(" suite=");
    reveal_strlit(" kind=");
    reveal_strlit(" channel=");
    reveal_strlit("\n");
    reveal_strlit("time_ms");
    reveal_strlit("sender");
    reveal_strlit("recipient");
    reveal_strlit("env");
    reveal_strlit("bytes");
    reveal_strlit("suite");
    reveal_strlit("kind");
    reveal_strlit("channel");
    assert("ack"@ =~= seq!['a', 'c', 'k']);
    assert("push"@ =~= seq!['p', 'u', 's', 'h']);
    assert(" time_ms="@ =~= seq![' ', 't', 'i', 'm', 'e', '_', 'm', 's', '=']);
    assert(" sender="@ =~= seq![' ', 's', 'e', 'n', 'd', 'e', 'r', '=']);
    assert(" recipient="@ =~= seq![' ', 'r', 'e', 'c', 'i', 'p', 'i', 'e', 'n', 't', '=']);
    assert(" env="@ =~= seq![' ', 'e', 'n', 'v', '=']);
    assert(" bytes="@ =~= seq![' ', 'b', 'y', 't', 'e', 's', '=']);
    assert(" suite="@ =~= seq![' ', 's', 'u', 'i', 't', 'e', '=']);
    assert(" kind="@ =~= seq![' ', 'k', 'i', 'n', 'd', '=']);
    assert(" channel="@ =~= seq![' ', 'c', 'h', 'a', 'n', 'n', 'e', 'l', '=']);
    assert("\n"@ =~= seq!['\n']);
    assert("time_ms"@ =~= seq!['t', 'i', 'm', 'e', '_', 'm', 's']);
    assert("sender"@ =~= seq!['s', 'e', 'n', 'd', 'e', 'r']);
    assert("recipient"@ =~= seq!['r', 'e', 'c', 'i', 'p', 'i', 'e', 'n', 't']);
    assert("env"@ =~= seq!['e', 'n', 'v']);
    assert("bytes"@ =~= seq!['b', 'y', 't', 'e', 's']);
    assert("suite"@ =~= seq!['s', 'u', 'i', 't', 'e']);
    assert("kind"@ =~= seq!['k', 'i', 'n', 'd']);
    assert("channel"@ =~= seq!['c', 'h', 'a', 'n', 'n', 'e', 'l']);
    lemma_lit("ack");
    lemma_lit("push");
    lemma_lit(" time_ms=");
    lemma_lit(" sender=");
    lemma_lit(" recipient=");
    lemma_lit(" env=");
    lemma_lit(" bytes=");
    lemma_lit(" suite=");
    lemma_lit(" kind=");
    lemma_lit(" channel=");
    lemma_lit("\n");
}

/// The text of the written fields from the `k`-th on.
proof fn lemma_fields_text_step(fs: Seq<(Seq<char>, Seq<char>)>, k: int)
    requires
        0 <= k < fs.len(),
    ensures
        fields_text(fs.subrange(k, fs.len() as int)) == field_text(fs[k]) + fields_text(
            fs.subrange(k + 1, fs.len() as int),
        ),
{
    let t = fs.subrange(k, fs.len() as int);
    assert(t[0] == fs[k]);
    assert(t.drop_first() =~= fs.subrange(k + 1, fs.len() as int));
}

/// A formatted line's text, piece by piece.
pub open spec fn record_text(r: RecordView) -> Seq<char> {
    tag_text(r) + " time_ms="@ + ascii_chars(dec(r.time_ms as nat)) + " sender="@ + ascii_chars(hex_bytes(r.sender)) + " recipient="@ + ascii_chars(hex_bytes(r.recipient)) + " env="@ + ascii_chars(hex_bytes(r.env_id)) + " bytes="@ + ascii_chars(dec(r.cipher_len as nat)) + " suite="@ + ascii_chars(dec(r.suite as nat)) + " kind="@ + ascii_chars(dec(r.kind as nat)) + " channel="@ + ascii_chars(hex_bytes(r.channel)) + "\n"@
}

proof fn lemma_ascii_piece(x: Seq<u8>, lit: Seq<u8>, v: Seq<u8>)
    requires
        is_ascii_bytes(x),
        is_ascii_bytes(lit),
        is_ascii_bytes(v),
    ensures
        is_ascii_bytes(x + lit + v),
        ascii_chars(x + lit + v) == ascii_chars(x) + ascii_chars(lit) + ascii_chars(v),
{
    lemma_ascii_cat(x, lit);
    lemma_ascii_cat(x + lit, v);
}

/// A formatted line is ASCII and spells its text.
proof fn lemma_line_bytes(r: RecordView)
    requires
        record_ok(r),
    ensures
        is_ascii_bytes(record_line(r)),
        ascii_chars(record_line(r)) == record_text(r),
{
    lemma_line_literals();
    lemma_dec_ascii(r.time_ms as nat);
    lemma_dec_ascii(r.cipher_len as nat);
    lemma_dec_ascii(r.suite as nat);
    lemma_dec_ascii(r.kind as nat);
    lemma_hex_bytes_shape(r.sender);
    lemma_hex_bytes_shape(r.recipient);
    lemma_hex_bytes_shape(r.env_id);
    lemma_hex_bytes_shape(r.channel);
    let t = if r.tag == ACK {
        "ack".spec_bytes()
    } else {
        "push".spec_bytes()
    };
    lemma_ascii_piece(t, " time_ms=".spec_bytes(), dec(r.time_ms as nat));
    let b1 = t + " time_ms=".spec_bytes() + dec(r.time_ms as nat);
    lemma_ascii_piece(b1, " sender=".spec_bytes(), hex_bytes(r.sender));
    let b2 = b1 + " sender=".spec_bytes() + hex_bytes(r.sender);
    lemma_ascii_piece(b2, " recipient=".spec_bytes(), hex_bytes(r.recipient));
    let b3 = b2 + " recipient=".spec_bytes() + hex_bytes(r.recipient);
    lemma_ascii_piece(b3, " env=".spec_bytes(), hex_bytes(r.env_id));
    let b4 = b3 + " env=".spec_bytes() + hex_bytes(r.env_id);
    lemma_ascii_piece(b4, " bytes=".spec_bytes(), dec(r.cipher_len as nat));
    let b5 = b4 + " bytes=".spec_bytes() + dec(r.cipher_len as nat);
    lemma_ascii_piece(b5, " suite=".spec_bytes(), dec(r.suite as nat));
    let b6 = b5 + " suite=".spec_bytes() + dec(r.suite as nat);
    lemma_ascii_piece(b6, " kind=".spec_bytes(), dec(r.kind as nat));
    let b7 = b6 + " kind=".spec_bytes() + dec(r.kind as nat);
    lemma_ascii_piece(b7, " channel=".spec_bytes(), hex_bytes(r.channel));
    let b8 = b7 + " channel=".spec_bytes() + hex_bytes(r.channel);
    lemma_ascii_cat(b8, "\n".spec_bytes());
}

proof fn lemma_regroup(x: Seq<char>, p: Seq<char>, v: Seq<char>, g: Seq<char>)
    ensures
        x + p + v + g == x + (p + v + g),
{
    assert(x + p + v + g =~= x + (p + v + g));
}

/// A formatted line spells the tag, the fields and a line break.
proof fn lemma_line_text(r: RecordView)
    requires
        record_ok(r),
    ensures
        is_ascii_bytes(record_line(r)),
        ascii_chars(record_line(r)) == tag_text(r) + fields_text(record_fields(r)) + seq!['\n'],
{
    lemma_line_bytes(r);
    lemma_line_literals();
    let fs = record_fields(r);
    let x0 = tag_text(r);
    let x1 = x0 + " time_ms="@ + ascii_chars(dec(r.time_ms as nat));
    lemma_fields_text_step(fs, 0);
    assert(field_text(fs[0]) =~= " time_ms="@ + ascii_chars(dec(r.time_ms as nat)));
    lemma_regroup(x0, " time_ms="@, ascii_chars(dec(r.time_ms as nat)), fields_text(fs.subrange(1, 8)));
    assert(x1 + fields_text(fs.subrange(1, 8)) == x0 + fields_text(fs.subrange(0, 8)));
    let x2 = x1 + " sender="@ + ascii_chars(hex_bytes(r.sender));
    lemma_fields_text_step(fs, 1);
    assert(field_text(fs[1]) =~= " sender="@ + ascii_chars(hex_bytes(r.sender)));
    lemma_regroup(x1, " sender="@, ascii_chars(hex_bytes(r.sender)), fields_text(fs.subrange(2, 8)));
    assert(x2 + fields_text(fs.subrange(2, 8)) == x1 + fields_text(fs.subrange(1, 8)));
    let x3 = x2 + " recipient="@ + ascii_chars(hex_bytes(r.recipient));
    lemma_fields_text_step(fs, 2);
    assert(field_text(fs[2]) =~= " recipient="@ + ascii_chars(hex_bytes(r.recipient)));
    lemma_regroup(x2, " recipient="@, ascii_chars(hex_bytes(r.recipient)), fields_text(fs.subrange(3, 8)));
    assert(x3 + fields_text(fs.subrange(3, 8)) == x2 + fields_text(fs.subrange(2, 8)));
    let x4 = x3 + " env="@ + ascii_chars(hex_bytes(r.env_id));
    lemma_fields_text_step(fs, 3);
    assert(field_text(fs[3]) =~= " env="@ + ascii_chars(hex_bytes(r.env_id)));
    lemma_regroup(x3, " env="@, ascii_chars(hex_bytes(r.env_id)), fields_text(fs.subrange(4, 8)));
    assert(x4 + fields_text(fs.subrange(4, 8)) == x3 + fields_text(fs.subrange(3, 8)));
    let x5 = x4 + " bytes="@ + ascii_chars(dec(r.cipher_len as nat));
    lemma_fields_text_step(fs, 4);
    assert(field_text(fs[4]) =~= " bytes="@ + ascii_chars(dec(r.cipher_len as nat)));
    lemma_regroup(x4, " bytes="@, ascii_chars(dec(r.cipher_len as nat)), fields_text(fs.subrange(5, 8)));
    assert(x5 + fields_text(fs.subrange(5, 8)) == x4 + fields_text(fs.subrange(4, 8)));
    let x6 = x5 + " suite="@ + ascii_chars(dec(r.suite as nat));
    lemma_fields_text_step(fs, 5);
    assert(field_text(fs[5]) =~= " suite="@ + ascii_chars(dec(r.suite as nat)));
    lemma_regroup(x5, " suite="@, ascii_chars(dec(r.suite as nat)), fields_text(fs.subrange(6, 8)));
    assert(x6 + fields_text(fs.subrange(6, 8)) == x5 + fields_text(fs.subrange(5, 8)));
    let x7 = x6 + " kind="@ + ascii_chars(dec(r.kind as nat));
    lemma_fields_text_step(fs, 6);
    assert(field_text(fs[6]) =~= " kind="@ + ascii_chars(dec(r.kind as nat)));
    lemma_regroup(x6, " kind="@, ascii_chars(dec(r.kind as nat)), fields_text(fs.subrange(7, 8)));
    assert(x7 + fields_text(fs.subrange(7, 8)) == x6 + fields_text(fs.subrange(6, 8)));
    let x8 = x7 + " channel="@ + ascii_chars(hex_bytes(r.channel));
    lemma_fields_text_step(fs, 7);
    assert(field_text(fs[7]) =~= " channel="@ + ascii_chars(hex_bytes(r.channel)));
    lemma_regroup(x7, " channel="@, ascii_chars(hex_bytes(r.channel)), fields_text(fs.subrange(8, 8)));
    assert(x8 + fields_text(fs.subrange(8, 8)) == x7 + fields_text(fs.subrange(7, 8)));
    assert(fields_text(fs.subrange(8, 8)) =~= Seq::<char>::empty()) by {
        assert(fs.subrange(8, 8).len() == 0);
    }
    assert(x8 + Seq::<char>::empty() =~= x8);
    assert(fs.subrange(0, 8) =~= fs);
    assert(record_text(r) == x8 + "\n"@);
}

/// The characters of a text where it stands in a longer one.
proof fn lemma_text_at(s: Seq<char>, lo: int, e: int, t: Seq<char>)
    requires
        0 <= lo <= e <= s.len(),
        s.subrange(lo, e) == t,
    ensures
        e - lo == t.len(),
        forall|d: int| 0 <= d < t.len() ==> s[lo + d] == #[trigger] t[d],
{
    assert forall|d: int| 0 <= d < t.len() implies s[lo + d] == #[trigger] t[d] by {
        assert(s.subrange(lo, e)[d] == s[lo + d]);
    }
}

/// A formatted line, read where it stands in a text, gives its record.
proof fn lemma_line_reads_back(s: Seq<char>, lo: int, e: int, r: RecordView)
    requires
        record_ok(r),
        0 <= lo <= e <= s.len(),
        s.subrange(lo, e) == tag_text(r) + fields_text(record_fields(r)),
    ensures
        line_result(s, lo, e) == Ok::<RecordView, Error>(r),
{
    let tg = tag_text(r);
    let fs = record_fields(r);
    let ft = fields_text(fs);
    let t = tg + ft;
    lemma_text_at(s, lo, e, t);
    reveal_strlit("push");
    reveal_strlit("ack");
    assert("push"@ =~= seq!['p', 'u', 's', 'h']);
    assert("ack"@ =~= seq!['a', 'c', 'k']);
    if r.tag == ACK {
        assert(tg == "ack"@);
    } else {
        assert(tg == "push"@);
    }
    let tl = tg.len() as int;
    let b = lo + tl;
    lemma_fields_text_step(fs, 0);
    assert(fs.subrange(0, fs.len() as int) =~= fs);
    assert(ft[0] == ' ');
    assert(t[0] == tg[0]);
    assert(s[lo] == t[0]);
    assert(ws_skip(s, lo, e) == lo);
    assert forall|j: int| lo <= j < b implies !is_ws(#[trigger] s[j]) by {
        let d = j - lo;
        assert(s[lo + d] == t[d]);
        assert(t[d] == tg[d]);
    }
    assert(t[tl] == ft[0]);
    assert(s[b] == t[tl]);
    lemma_token_run(s, lo, b, e);
    assert(s.subrange(lo, b) =~= tg) by {
        assert forall|j: int| 0 <= j < tl implies s.subrange(lo, b)[j] == tg[j] by {
            assert(s[lo + j] == t[j]);
            assert(t[j] == tg[j]);
        }
    }
    assert(s.subrange(b, e) =~= ft) by {
        assert forall|j: int| 0 <= j < ft.len() implies s.subrange(b, e)[j] == ft[j] by {
            assert(s[lo + (tl + j)] == t[tl + j]);
            assert(t[tl + j] == ft[j]);
        }
    }
    lemma_record_fields_ok(r);
    lemma_record_fields(r, 0);
    assert(fs.subrange(0, 8) =~= fs);
    assert(fields_after(r, 0) == no_fields());
    lemma_scan_fields(s, b, e, fs, no_fields());
}

/// The formatted lines of valid records are ASCII.
proof fn lemma_lines_ascii(rs: Seq<RecordView>)
    requires
        forall|k: int| 0 <= k < rs.len() ==> record_ok(#[trigger] rs[k]),
    ensures
        is_ascii_bytes(lines_bytes(rs)),
    decreases rs.len(),
{
    if rs.len() > 0 {
        assert(record_ok(rs[0]));
        lemma_line_text(rs[0]);
        assert forall|k: int| 0 <= k < rs.drop_first().len() implies record_ok(#[trigger] rs.drop_first()[k]) by {
            assert(rs.drop_first()[k] == rs[k + 1]);
        }
        lemma_lines_ascii(rs.drop_first());
        lemma_ascii_cat(record_line(rs[0]), lines_bytes(rs.drop_first()));
    }
}

/// A formatted line where it stands in a text: the scan finds its end,
/// reads its record, and goes on after its line break.
proof fn lemma_line_in_text(s: Seq<char>, i: int, r: RecordView, tail: Seq<char>)
    requires
        record_ok(r),
        0 <= i <= s.len(),
        s.subrange(i, s.len() as int) == ascii_chars(record_line(r)) + tail,
    ensures
        ({
            let k = i + (tag_text(r) + fields_text(record_fields(r))).len();
            &&& i < k < s.len()
            &&& next_char(s, i, '\n') == k
            &&& line_cut(s, i, k) == k
            &&& line_result(s, i, k) == Ok::<RecordView, Error>(r)
            &&& s.subrange(k + 1, s.len() as int) == tail
        }),
{
    lemma_line_text(r);
    let fs = record_fields(r);
    lemma_record_fields_ok(r);
    lemma_fields_no_break(fs);
    let tg = tag_text(r);
    let body = tg + fields_text(fs);
    let line = body + seq!['\n'];
    let k = i + body.len();
    reveal_strlit("push");
    reveal_strlit("ack");
    assert("push"@ =~= seq!['p', 'u', 's', 'h']);
    assert("ack"@ =~= seq!['a', 'c', 'k']);
    if r.tag == ACK {
        assert(tg == "ack"@);
    } else {
        assert(tg == "push"@);
    }
    lemma_text_at(s, i, s.len() as int, line + tail);
    assert forall|j: int| i <= j < k implies #[trigger] s[j] != '\n' && s[j] != '\r' by {
        let d = j - i;
        assert(s[i + d] == (line + tail)[d]);
        assert((line + tail)[d] == body[d]);
        if d < tg.len() {
            assert(body[d] == tg[d]);
        } else {
            assert(body[d] == fields_text(fs)[d - tg.len()]);
        }
    }
    assert(s[i + body.len()] == (line + tail)[body.len() as int]);
    assert((line + tail)[body.len() as int] == '\n');
    lemma_next_char_run(s, i, k, '\n');
    assert(s[k - 1] != '\r');
    assert(s.subrange(i, k) =~= body) by {
        assert forall|j: int| 0 <= j < body.len() implies s.subrange(i, k)[j] == body[j] by {
            assert(s[i + j] == (line + tail)[j]);
            assert((line + tail)[j] == body[j]);
        }
    }
    lemma_line_reads_back(s, i, k, r);
    assert(s.subrange(k + 1, s.len() as int) =~= tail) by {
        assert forall|j: int| 0 <= j < tail.len() implies s.subrange(k + 1, s.len() as int)[j] == tail[j] by {
            assert(s[i + (line.len() + j)] == (line + tail)[line.len() + j]);
            assert((line + tail)[line.len() + j] == tail[j]);
        }
    }
}

/// The text of the lines is the first line's and then the others'.
proof fn lemma_lines_split(rs: Seq<RecordView>)
    requires
        rs.len() > 0,
        forall|k: int| 0 <= k < rs.len() ==> record_ok(#[trigger] rs[k]),
    ensures
        ascii_chars(lines_bytes(rs)) == ascii_chars(record_line(rs[0])) + ascii_chars(lines_bytes(rs.drop_first())),
{
    let rest = rs.drop_first();
    assert(record_ok(rs[0]));
    assert forall|k: int| 0 <= k < rest.len() implies record_ok(#[trigger] rest[k]) by {
        assert(rest[k] == rs[k + 1]);
    }
    lemma_line_text(rs[0]);
    lemma_lines_ascii(rest);
    lemma_ascii_cat(record_line(rs[0]), lines_bytes(rest));
}

/// The line scan reads formatted lines back as their records.
#[verifier::spinoff_prover]
#[verifier::rlimit(40)]
proof fn lemma_read_lines(s: Seq<char>, i: int, acc: Seq<RecordView>, rs: Seq<RecordView>)
    requires
        0 <= i <= s.len(),
        s.subrange(i, s.len() as int) == ascii_chars(lines_bytes(rs)),
        forall|k: int| 0 <= k < rs.len() ==> record_ok(#[trigger] rs[k]),
    ensures
        lines_result(s, i, acc) == Ok::<Seq<RecordView>, Error>(acc + rs),
    decreases rs.len(),
{
    if rs.len() == 0 {
        assert(lines_bytes(rs) =~= Seq::<u8>::empty());
        assert(ascii_chars(lines_bytes(rs)).len() == 0);
        assert(i == s.len());
        assert(acc + rs =~= acc);
    } else {
        let r = rs[0];
        let rest = rs.drop_first();
        assert(record_ok(r));
        assert forall|k: int| 0 <= k < rest.len() implies record_ok(#[trigger] rest[k]) by {
            assert(rest[k] == rs[k + 1]);
        }
        lemma_lines_split(rs);
        let tail = ascii_chars(lines_bytes(rest));
        lemma_line_in_text(s, i, r, tail);
        let k = i + (tag_text(r) + fields_text(record_fields(r))).len();
        lemma_read_lines(s, k + 1, acc.push(r), rest);
        assert(acc.push(r) + rest =~= acc + rs);
    }
}

/// The header line's characters.
proof fn lemma_header_chars()
    ensures
        "wire-metrics 1\n"@.len() == 15,
        forall|j: int| 0 <= j < 14 ==> #[trigger] "wire-metrics 1\n"@[j] != '\n',
        "wire-metrics 1\n"@[14] == '\n',
        "wire-metrics 1\n"@[13] == '1',
        "wire-metrics 1\n"@.subrange(0, 14) == "wire-metrics 1"@,
        is_ascii_bytes(encode_utf8("wire-metrics 1\n"@)),
        ascii_chars(encode_utf8("wire-metrics 1\n"@)) == "wire-metrics 1\n"@,
{
    reveal_strlit("wire-metrics 1\n");
    reveal_strlit("wire-metrics 1");
    assert("wire-metrics 1\n"@ =~= seq!['w', 'i', 'r', 'e', '-', 'm', 'e', 't', 'r', 'i', 'c', 's', ' ', '1', '\n']);
    assert("wire-metrics 1"@ =~= seq!['w', 'i', 'r', 'e', '-', 'm', 'e', 't', 'r', 'i', 'c', 's', ' ', '1']);
    assert("wire-metrics 1\n"@.subrange(0, 14) =~= "wire-metrics 1"@);
    lemma_lit("wire-metrics 1\n");
}

/// A metrics file is refused unless it is UTF-8 text whose first line is
/// the header `wire-metrics 1`.
pub proof fn lemma_metrics_refuses(b: Seq<u8>)
    ensures
        !valid_utf8(b) ==> read_result(b) == Err::<Seq<RecordView>, Error>(Error::MetricsNotUtf8),
        read_result(b) is Ok ==> valid_utf8(b) && decode_utf8(b).len() >= 14 && decode_utf8(b).subrange(0, 14)
            == "wire-metrics 1"@,
{
    reveal_strlit("wire-metrics 1");
    if read_result(b) is Ok {
        let s = decode_utf8(b);
        let k = next_char(s, 0, '\n');
        crate::model::lemma_next_char_bounds(s, 0, '\n');
        assert("wire-metrics 1"@.len() == 14);
        assert(s.len() > 0);
        let e = line_cut(s, 0, k);
        assert(s.subrange(0, e) == "wire-metrics 1"@);
        assert(e == 14);
    }
}

/// A metrics file written as the header line and then one formatted line
/// per record reads back as exactly those records, in order.
pub proof fn lemma_metrics_roundtrip(rs: Seq<RecordView>)
    requires
        forall|k: int| 0 <= k < rs.len() ==> record_ok(#[trigger] rs[k]),
    ensures
        read_result(metrics_file(rs)) == Ok::<Seq<RecordView>, Error>(rs),
{
    let hc = "wire-metrics 1\n"@;
    lemma_header_chars();
    let h = encode_utf8(hc);
    let lb = lines_bytes(rs);
    lemma_lines_ascii(rs);
    lemma_ascii_cat(h, lb);
    let b = metrics_file(rs);
    lemma_ascii_utf8(b);
    let s = decode_utf8(b);
    let tail = ascii_chars(lb);
    assert(s == hc + tail);
    assert forall|j: int| 0 <= j < 14 implies #[trigger] s[j] != '\n' by {
        assert(s[j] == hc[j]);
    }
    assert(s[14] == hc[14]);
    lemma_next_char_run(s, 0, 14, '\n');
    assert(s[13] == hc[13]);
    assert(line_cut(s, 0, 14) == 14);
    assert(s.subrange(0, 14) =~= hc.subrange(0, 14));
    assert(s.subrange(15, s.len() as int) =~= tail);
    lemma_read_lines(s, 15, Seq::empty(), rs);
    assert(Seq::<RecordView>::empty() + rs =~= rs);
}

} // verus!
