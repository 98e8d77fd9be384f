use vstd::prelude::*;

use crate::codec::{be16, be32, hex_bytes, lemma_be16, lemma_be32, u16_of, u32_of, Reader, Writer};
use crate::crypto::{sha256, sha256_of};
use crate::error::Error;
use crate::metrics::{append_dec, append_hex, push_str_bytes};
use crate::text::{dec, string_of_utf8, utf8_decode};
use vstd::string::StringSliceAdditionalSpecFns;
use vstd::utf8::{decode_utf8, encode_utf8, valid_utf8};

verus! {

broadcast use vstd::utf8::group_utf8_lib;

/// One tag byte: the high nibble is version 1, the low nibble the kind.
pub const SAY: u8 = 17;

pub const OFFER: u8 = 18;

pub const COUNTER: u8 = 19;

pub const AGREE: u8 = 20;

pub const BLOB: u8 = 21;

/// A compact AI-to-AI message. The bytes are the stored form; [`to_text`]
/// is a view of them for a person.
#[derive(Clone, PartialEq, Eq, Debug)]
pub enum Talk {
    Say(String),
    Offer { minor: u32, currency: u16, terms: [u8; 32] },
    Counter { minor: u32, currency: u16, terms: [u8; 32] },
    Agree { terms: [u8; 32] },
    BlobRef { size: u32, hash: [u8; 32] },
}

pub enum TalkView {
    Say(Seq<char>),
    Offer { minor: u32, currency: u16, terms: Seq<u8> },
    Counter { minor: u32, currency: u16, terms: Seq<u8> },
    Agree { terms: Seq<u8> },
    BlobRef { size: u32, hash: Seq<u8> },
}

impl View for Talk {
    type V = TalkView;

    open spec fn view(&self) -> TalkView {
        match self {
            Talk::Say(t) => TalkView::Say(t@),
            Talk::Offer { minor, currency, terms } => TalkView::Offer {
                minor: *minor,
                currency: *currency,
                terms: terms@,
            },
            Talk::Counter { minor, currency, terms } => TalkView::Counter {
                minor: *minor,
                currency: *currency,
                terms: terms@,
            },
            Talk::Agree { terms } => TalkView::Agree { terms: terms@ },
            Talk::BlobRef { size, hash } => TalkView::BlobRef { size: *size, hash: hash@ },
        }
    }
}

/// The UTF-8 bytes of a `say`, cut to 255.
pub open spec fn say_bytes(t: Seq<char>) -> Seq<u8> {
    let b = encode_utf8(t);
    if b.len() > 255 {
        b.subrange(0, 255)
    } else {
        b
    }
}

/// The stored form of a message.
pub open spec fn talk_encoding(t: TalkView) -> Seq<u8> {
    match t {
        TalkView::Say(text) => seq![SAY, say_bytes(text).len() as u8] + say_bytes(text),
        TalkView::Offer { minor, currency, terms } => seq![OFFER] + be32(minor) + be16(currency) + terms,
        TalkView::Counter { minor, currency, terms } => seq![COUNTER] + be32(minor) + be16(currency)
            + terms,
        TalkView::Agree { terms } => seq![AGREE] + terms,
        TalkView::BlobRef { size, hash } => seq![BLOB] + be32(size) + hash,
    }
}

/// What decoding a stored message gives. An unknown tag, a `say` that is
/// not UTF-8, a short body and trailing bytes are each refused.
pub open spec fn talk_decode_result(b: Seq<u8>) -> Result<TalkView, Error> {
    let n = b.len();
    if n < 1 {
        Err(Error::Truncated)
    } else {
        let tag = b[0];
        if tag == SAY {
            if n < 2 {
                Err(Error::Truncated)
            } else {
                let l = b[1] as int;
                if n < 2 + l {
                    Err(Error::Truncated)
                } else if !valid_utf8(b.subrange(2, 2 + l)) {
                    Err(Error::TalkSayUtf8)
                } else if n > 2 + l {
                    Err(Error::TrailingBytes)
                } else {
                    Ok(TalkView::Say(decode_utf8(b.subrange(2, 2 + l))))
                }
            }
        } else if tag == OFFER || tag == COUNTER {
            if n < 39 {
                Err(Error::Truncated)
            } else if n > 39 {
                Err(Error::TrailingBytes)
            } else {
                let minor = u32_of(b.subrange(1, 5));
                let currency = u16_of(b.subrange(5, 7));
                let terms = b.subrange(7, 39);
                if tag == OFFER {
                    Ok(TalkView::Offer { minor, currency, terms })
                } else {
                    Ok(TalkView::Counter { minor, currency, terms })
                }
            }
        } else if tag == AGREE {
            if n < 33 {
                Err(Error::Truncated)
            } else if n > 33 {
                Err(Error::TrailingBytes)
            } else {
                Ok(TalkView::Agree { terms: b.subrange(1, 33) })
            }
        } else if tag == BLOB {
            if n < 37 {
                Err(Error::Truncated)
            } else if n > 37 {
                Err(Error::TrailingBytes)
            } else {
                Ok(TalkView::BlobRef { size: u32_of(b.subrange(1, 5)), hash: b.subrange(5, 37) })
            }
        } else {
            Err(Error::UnknownTalkTag)
        }
    }
}

/// A stored message decodes only at its own length: no strict prefix of it,
/// and nothing it is a strict prefix of, decodes.
pub proof fn lemma_talk_decode_refuses(b: Seq<u8>, x: Seq<u8>)
    requires
        talk_decode_result(b) is Ok,
    ensures
        forall|n: int| 0 <= n < b.len() ==> #[trigger] talk_decode_result(b.subrange(0, n)) is Err,
        x.len() > 0 ==> talk_decode_result(b + x) is Err,
{
    assert forall|n: int| 0 <= n < b.len() implies #[trigger] talk_decode_result(b.subrange(0, n)) is Err by {
        let p = b.subrange(0, n);
        if n >= 1 {
            assert(p[0] == b[0]);
        }
        if n >= 2 {
            assert(p[1] == b[1]);
        }
    }
    let q = b + x;
    assert(q[0] == b[0]);
    if b.len() >= 2 {
        assert(q[1] == b[1]);
    }
}

pub open spec fn talk_sized(t: TalkView) -> bool {
    match t {
        TalkView::Say(_) => true,
        TalkView::Offer { terms, .. } => terms.len() == 32,
        TalkView::Counter { terms, .. } => terms.len() == 32,
        TalkView::Agree { terms } => terms.len() == 32,
        TalkView::BlobRef { hash, .. } => hash.len() == 32,
    }
}

/// Every message decodes from its stored form back to itself, except a
/// `say` longer than 255 bytes, which is stored cut.
pub proof fn lemma_talk_roundtrip(t: TalkView)
    requires
        talk_sized(t),
        t matches TalkView::Say(text) ==> encode_utf8(text).len() <= 255,
    ensures
        talk_decode_result(talk_encoding(t)) == Ok::<TalkView, Error>(t),
{
    let b = talk_encoding(t);
    match t {
        TalkView::Say(text) => {
            let sb = say_bytes(text);
            assert(sb == encode_utf8(text));
            assert(b[1] == sb.len() as u8);
            assert(b.subrange(2, 2 + sb.len() as int) =~= sb);
        },
        TalkView::Offer { minor, currency, terms } => {
            lemma_be32(minor);
            lemma_be16(currency);
            assert(b.subrange(1, 5) =~= be32(minor));
            assert(b.subrange(5, 7) =~= be16(currency));
            assert(b.subrange(7, 39) =~= terms);
        },
        TalkView::Counter { minor, currency, terms } => {
            lemma_be32(minor);
            lemma_be16(currency);
            assert(b.subrange(1, 5) =~= be32(minor));
            assert(b.subrange(5, 7) =~= be16(currency));
            assert(b.subrange(7, 39) =~= terms);
        },
        TalkView::Agree { terms } => {
            assert(b.subrange(1, 33) =~= terms);
        },
        TalkView::BlobRef { size, hash } => {
            lemma_be32(size);
            assert(b.subrange(1, 5) =~= be32(size));
            assert(b.subrange(5, 37) =~= hash);
        },
    }
}

fn write_money(w: &mut Writer, tag: u8, minor: u32, currency: u16, terms: &[u8; 32])
    ensures
        final(w)@ == old(w)@ + seq![tag] + be32(minor) + be16(currency) + terms@,
{
    w.u8(tag);
    w.u32(minor);
    w.u16(currency);
    w.arr32(terms);
    assert(w@ =~= old(w)@ + seq![tag] + be32(minor) + be16(currency) + terms@);
}

impl Talk {
    pub fn encode(&self) -> (out: Vec<u8>)
        ensures
            out@ == talk_encoding(self@),
    {
        let mut w = Writer::new();
        match self {
            Talk::Say(text) => {
                let bytes = text.as_str().as_bytes();
                let n: usize = if bytes.len() < 255 {
                    bytes.len()
                } else {
                    255
                };
                w.u8(SAY);
                w.u8(n as u8);
                w.bytes(vstd::slice::slice_subrange(bytes, 0, n));
                proof {
                    if bytes@.len() <= 255 {
                        assert(bytes@.subrange(0, n as int) =~= bytes@);
                    }
                    assert(w@ =~= talk_encoding(self@));
                }
            },
            Talk::Offer { minor, currency, terms } => {
                write_money(&mut w, OFFER, *minor, *currency, terms);
                assert(w@ =~= talk_encoding(self@));
            },
            Talk::Counter { minor, currency, terms } => {
                write_money(&mut w, COUNTER, *minor, *currency, terms);
                assert(w@ =~= talk_encoding(self@));
            },
            Talk::Agree { terms } => {
                w.u8(AGREE);
                w.arr32(terms);
                assert(w@ =~= talk_encoding(self@));
            },
            Talk::BlobRef { size, hash } => {
                w.u8(BLOB);
                w.u32(*size);
                w.arr32(hash);
                assert(w@ =~= talk_encoding(self@));
            },
        }
        w.finish()
    }

    pub fn decode(bytes: &[u8]) -> (res: Result<Self, Error>)
        ensures
            match res {
                Ok(t) => talk_decode_result(bytes@) == Ok::<TalkView, Error>(t@),
                Err(e) => talk_decode_result(bytes@) == Err::<TalkView, Error>(e),
            },
    {
        let ghost b = bytes@;
        let mut r = Reader::new(bytes);
        let tag = r.u8()?;
        proof {
            assert(b.subrange(0, 1)[0] == b[0]);
        }
        let talk = if tag == SAY {
            let n = r.u8()?;
            proof {
                assert(b.subrange(1, 2)[0] == b[1]);
            }
            let body = r.take(n as usize)?;
            let text = match utf8_decode(vstd::slice::slice_to_vec(body)) {
                Some(t) => t,
                None => return Err(Error::TalkSayUtf8),
            };
            Talk::Say(text)
        } else if tag == OFFER || tag == COUNTER {
            let minor = r.u32()?;
            let currency = r.u16()?;
            let terms = r.arr32()?;
            proof {
                lemma_be32(minor);
                lemma_be16(currency);
            }
            if tag == OFFER {
                Talk::Offer { minor, currency, terms }
            } else {
                Talk::Counter { minor, currency, terms }
            }
        } else if tag == AGREE {
            Talk::Agree { terms: r.arr32()? }
        } else if tag == BLOB {
            let size = r.u32()?;
            let hash = r.arr32()?;
            proof {
                lemma_be32(size);
            }
            Talk::BlobRef { size, hash }
        } else {
            return Err(Error::UnknownTalkTag);
        };
        r.finish()?;
        Ok(talk)
    }
}

pub fn hash_bytes(bytes: &[u8]) -> (out: [u8; 32])
    ensures
        out@ == sha256_of(bytes@),
{
    sha256(bytes)
}

/// Two decimal digits, with a leading zero below ten.
pub open spec fn two_digits(v: nat) -> Seq<u8> {
    seq![(48 + v / 10) as u8, (48 + v % 10) as u8]
}

/// An amount in minor units of an ISO 4217 numeric currency, as a person
/// reads it: USD, EUR, GBP and CAD with two decimals, JPY with none, any
/// other currency as the minor count and the code.
pub open spec fn money_text(minor: u32, currency: u16) -> Seq<u8> {
    let name = if currency == 840 {
        "USD".spec_bytes()
    } else if currency == 978 {
        "EUR".spec_bytes()
    } else if currency == 826 {
        "GBP".spec_bytes()
    } else if currency == 124 {
        "CAD".spec_bytes()
    } else {
        "JPY".spec_bytes()
    };
    if currency == 840 || currency == 978 || currency == 826 || currency == 124 {
        dec((minor / 100) as nat) + ".".spec_bytes() + two_digits((minor % 100) as nat) + " ".spec_bytes() + name
    } else if currency == 392 {
        dec(minor as nat) + " ".spec_bytes() + name
    } else {
        dec(minor as nat) + " currency ".spec_bytes() + dec(currency as nat)
    }
}

pub open spec fn hash_text(h: Seq<u8>) -> Seq<u8> {
    "sha256:".spec_bytes() + hex_bytes(h)
}

/// The line a person reads for a message.
pub open spec fn talk_text(t: TalkView) -> Seq<u8> {
    match t {
        TalkView::Say(text) => "say ".spec_bytes() + encode_utf8(text),
        TalkView::Offer { minor, currency, terms } => "offer ".spec_bytes() + money_text(minor, currency)
            + " terms ".spec_bytes() + hash_text(terms),
        TalkView::Counter { minor, currency, terms } => "counter ".spec_bytes() + money_text(minor, currency)
            + " terms ".spec_bytes() + hash_text(terms),
        TalkView::Agree { terms } => "agree terms ".spec_bytes() + hash_text(terms),
        TalkView::BlobRef { size, hash } => "blob ".spec_bytes() + dec(size as nat) + " bytes ".spec_bytes()
            + hash_text(hash),
    }
}

fn append_money(b: &mut Vec<u8>, minor: u32, currency: u16)
    ensures
        final(b)@ == old(b)@ + money_text(minor, currency),
        valid_utf8(old(b)@) ==> valid_utf8(final(b)@),
{
    let name = if currency == 840 {
        "USD"
    } else if currency == 978 {
        "EUR"
    } else if currency == 826 {
        "GBP"
    } else if currency == 124 {
        "CAD"
    } else {
        "JPY"
    };
    if currency == 840 || currency == 978 || currency == 826 || currency == 124 {
        append_dec(b, (minor / 100) as u64);
        push_str_bytes(b, ".");
        let cents = minor % 100;
        let ghost before = b@;
        b.push(48 + (cents / 10) as u8);
        b.push(48 + (cents % 10) as u8);
        proof {
            assert(b@ =~= before + two_digits(cents as nat));
            crate::text::lemma_ascii_utf8(two_digits(cents as nat));
            if valid_utf8(before) {
                assert(valid_utf8(before + two_digits(cents as nat)));
            }
        }
        push_str_bytes(b, " ");
        push_str_bytes(b, name);
    } else if currency == 392 {
        append_dec(b, minor as u64);
        push_str_bytes(b, " ");
        push_str_bytes(b, name);
    } else {
        append_dec(b, minor as u64);
        push_str_bytes(b, " currency ");
        append_dec(b, currency as u64);
    }
    assert(b@ =~= old(b)@ + money_text(minor, currency));
}

fn append_hash(b: &mut Vec<u8>, h: &[u8; 32])
    ensures
        final(b)@ == old(b)@ + hash_text(h@),
        valid_utf8(old(b)@) ==> valid_utf8(final(b)@),
{
    push_str_bytes(b, "sha256:");
    append_hex(b, h);
    assert(b@ =~= old(b)@ + hash_text(h@));
}

/// A person's view of a message. It is computed from the message, never
/// stored.
pub fn to_text(talk: &Talk) -> (out: String)
    ensures
        encode_utf8(out@) == talk_text(talk@),
{
    let mut b: Vec<u8> = Vec::new();
    proof {
        assert(b@ =~= encode_utf8(Seq::<char>::empty()));
    }
    match talk {
        Talk::Say(text) => {
            push_str_bytes(&mut b, "say ");
            push_str_bytes(&mut b, text.as_str());
        },
        Talk::Offer { minor, currency, terms } => {
            push_str_bytes(&mut b, "offer ");
            append_money(&mut b, *minor, *currency);
            push_str_bytes(&mut b, " terms ");
            append_hash(&mut b, terms);
        },
        Talk::Counter { minor, currency, terms } => {
            push_str_bytes(&mut b, "counter ");
            append_money(&mut b, *minor, *currency);
            push_str_bytes(&mut b, " terms ");
            append_hash(&mut b, terms);
        },
        Talk::Agree { terms } => {
            push_str_bytes(&mut b, "agree terms ");
            append_hash(&mut b, terms);
        },
        Talk::BlobRef { size, hash } => {
            push_str_bytes(&mut b, "blob ");
            append_dec(&mut b, *size as u64);
            push_str_bytes(&mut b, " bytes ");
            append_hash(&mut b, hash);
        },
    }
    proof {
        assert(b@ =~= talk_text(talk@));
    }
    string_of_utf8(b)
}

} // verus!
