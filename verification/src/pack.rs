use vstd::prelude::*;

use crate::error::Error;

verus! {

/// What `lz4_flex::compress_prepend_size` gives for these bytes: the input
/// length as a little-endian `u32`, then an LZ4 block.
pub uninterp spec fn lz4_packed_of(raw: Seq<u8>) -> Seq<u8>;

/// What `lz4_flex::decompress_size_prepended` gives for these bytes, or
/// nothing where it reports an error.
pub uninterp spec fn lz4_unpacked_of(packed: Seq<u8>) -> Option<Seq<u8>>;

/// `lz4_flex::compress_prepend_size`. Its result is a function of the
/// input, and its documentation pairs it with `decompress_size_prepended`,
/// which gives the input back when the input's length fits the `u32` size
/// prefix. Nothing else is claimed of the compressed bytes.
#[verifier::external_body]
fn lz4_compress(raw: &[u8]) -> (out: Vec<u8>)
    ensures
        out@ == lz4_packed_of(raw@),
        raw@.len() <= u32::MAX ==> lz4_unpacked_of(out@) == Some(raw@),
{
    lz4_flex::compress_prepend_size(raw)
}

/// `lz4_flex::decompress_size_prepended`; its error becomes `None`. The
/// call first allocates the size the prefix announces, so a hostile prefix
/// can ask for up to 4 GiB; that is not modelled here.
#[verifier::external_body]
fn lz4_decompress(packed: &[u8]) -> (out: Option<Vec<u8>>)
    ensures
        match out {
            Some(v) => lz4_unpacked_of(packed@) == Some(v@),
            None => lz4_unpacked_of(packed@) is None,
        },
{
    lz4_flex::decompress_size_prepended(packed).ok()
}

/// Payloads shorter than this stay raw: LZ4 would not pay for itself.
pub const MIN_PACK: usize = 256;

pub const RAW: u8 = 0;

pub const LZ4: u8 = 1;

/// How an ephemeral payload is packed: one flag byte, then the raw bytes,
/// or LZ4 when the payload is at least [`MIN_PACK`] long and LZ4 makes it
/// shorter.
pub open spec fn packed_payload(raw: Seq<u8>) -> Seq<u8> {
    if raw.len() >= MIN_PACK && lz4_packed_of(raw).len() < raw.len() {
        seq![LZ4] + lz4_packed_of(raw)
    } else {
        seq![RAW] + raw
    }
}

/// What unpacking gives.
pub open spec fn unpack_result(packed: Seq<u8>) -> Result<Seq<u8>, Error> {
    if packed.len() == 0 {
        Err(Error::EmptyPackedPayload)
    } else if packed[0] == RAW {
        Ok(packed.subrange(1, packed.len() as int))
    } else if packed[0] == LZ4 {
        match lz4_unpacked_of(packed.subrange(1, packed.len() as int)) {
            Some(v) => Ok(v),
            None => Err(Error::Lz4DecompressFailed),
        }
    } else {
        Err(Error::BadPayloadPacking)
    }
}

fn prefix(flag: u8, body: &[u8]) -> (out: Vec<u8>)
    ensures
        out@ == seq![flag] + body@,
{
    let mut out: Vec<u8> = Vec::new();
    out.push(flag);
    let mut i: usize = 0;
    while i < body.len()
        invariant
            i <= body@.len(),
            out@ == seq![flag] + body@.subrange(0, i as int),
        decreases body@.len() - i,
    {
        out.push(body[i]);
        i = i + 1;
        assert(out@ =~= seq![flag] + body@.subrange(0, i as int));
    }
    assert(body@.subrange(0, i as int) =~= body@);
    out
}

/// Packs an ephemeral payload. Unpacking gives the payload back, and the
/// flag byte is all that packing can add.
pub fn pack_payload(raw: &[u8]) -> (out: Vec<u8>)
    ensures
        out@ == packed_payload(raw@),
        raw@.len() <= u32::MAX ==> unpack_result(out@) == Ok::<Seq<u8>, Error>(raw@),
        out@.len() <= raw@.len() + 1,
{
    if raw.len() < MIN_PACK {
        let out = prefix(RAW, raw);
        assert(out@.subrange(1, out@.len() as int) =~= raw@);
        return out;
    }
    let compressed = lz4_compress(raw);
    if compressed.len() >= raw.len() {
        let out = prefix(RAW, raw);
        assert(out@.subrange(1, out@.len() as int) =~= raw@);
        return out;
    }
    let out = prefix(LZ4, compressed.as_slice());
    assert(out@.subrange(1, out@.len() as int) =~= compressed@);
    out
}

pub fn unpack_payload(packed: &[u8]) -> (res: Result<Vec<u8>, Error>)
    ensures
        match res {
            Ok(v) => unpack_result(packed@) == Ok::<Seq<u8>, Error>(v@),
            Err(e) => unpack_result(packed@) == Err::<Seq<u8>, Error>(e),
        },
{
    if packed.len() == 0 {
        return Err(Error::EmptyPackedPayload);
    }
    let rest = vstd::slice::slice_subrange(packed, 1, packed.len());
    if packed[0] == RAW {
        Ok(vstd::slice::slice_to_vec(rest))
    } else if packed[0] == LZ4 {
        match lz4_decompress(rest) {
            Some(v) => Ok(v),
            None => Err(Error::Lz4DecompressFailed),
        }
    } else {
        Err(Error::BadPayloadPacking)
    }
}

/// "WLZ4", the mark of a compressed cold file.
pub open spec fn cold_tag() -> Seq<u8> {
    seq![87u8, 76u8, 90u8, 52u8]
}

/// A cold file (rotated archive, retained copy): `WLZ4` and LZ4 when that is
/// shorter than the raw bytes, else the raw bytes.
pub open spec fn cold_bytes(raw: Seq<u8>) -> Seq<u8> {
    if lz4_packed_of(raw).len() + 4 < raw.len() {
        cold_tag() + lz4_packed_of(raw)
    } else {
        raw
    }
}

/// What reading a stored file gives: a file that starts with `WLZ4` is
/// decompressed, any other is taken as it is.
pub open spec fn stored_result(b: Seq<u8>) -> Result<Seq<u8>, Error> {
    if b.len() >= 4 && b.subrange(0, 4) == cold_tag() {
        match lz4_unpacked_of(b.subrange(4, b.len() as int)) {
            Some(v) => Ok(v),
            None => Err(Error::Lz4DecompressFailed),
        }
    } else {
        Ok(b)
    }
}

/// The cold form of a file. It reads back as the bytes written, unless
/// those bytes start with `WLZ4` themselves and stayed raw.
pub fn pack_cold(raw: &[u8]) -> (out: Vec<u8>)
    ensures
        out@ == cold_bytes(raw@),
        raw@.len() <= u32::MAX && !(raw@.len() >= 4 && raw@.subrange(0, 4) == cold_tag())
            ==> stored_result(out@) == Ok::<Seq<u8>, Error>(raw@),
{
    let compressed = lz4_compress(raw);
    if compressed.len() < raw.len() && raw.len() - compressed.len() > 4 {
        let mut out: Vec<u8> = Vec::new();
        out.push(87);
        out.push(76);
        out.push(90);
        out.push(52);
        let mut i: usize = 0;
        while i < compressed.len()
            invariant
                i <= compressed@.len(),
                out@ == cold_tag() + compressed@.subrange(0, i as int),
            decreases compressed@.len() - i,
        {
            out.push(compressed[i]);
            i = i + 1;
            assert(out@ =~= cold_tag() + compressed@.subrange(0, i as int));
        }
        assert(compressed@.subrange(0, i as int) =~= compressed@);
        assert(out@.subrange(0, 4) =~= cold_tag());
        assert(out@.subrange(4, out@.len() as int) =~= compressed@);
        out
    } else {
        vstd::slice::slice_to_vec(raw)
    }
}

pub fn unpack_stored(bytes: &[u8]) -> (res: Result<Vec<u8>, Error>)
    ensures
        match res {
            Ok(v) => stored_result(bytes@) == Ok::<Seq<u8>, Error>(v@),
            Err(e) => stored_result(bytes@) == Err::<Seq<u8>, Error>(e),
        },
{
    if bytes.len() >= 4 && bytes[0] == 87 && bytes[1] == 76 && bytes[2] == 90 && bytes[3] == 52 {
        proof {
            assert(bytes@.subrange(0, 4) =~= cold_tag());
        }
        match lz4_decompress(vstd::slice::slice_subrange(bytes, 4, bytes.len())) {
            Some(v) => Ok(v),
            None => Err(Error::Lz4DecompressFailed),
        }
    } else {
        proof {
            if bytes@.len() >= 4 && bytes@.subrange(0, 4) == cold_tag() {
                assert(bytes@[0] == bytes@.subrange(0, 4)[0]);
                assert(bytes@[1] == bytes@.subrange(0, 4)[1]);
                assert(bytes@[2] == bytes@.subrange(0, 4)[2]);
                assert(bytes@[3] == bytes@.subrange(0, 4)[3]);
            }
        }
        Ok(vstd::slice::slice_to_vec(bytes))
    }
}

} // verus!
