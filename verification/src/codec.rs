use vstd::prelude::*;

use crate::error::Error;
use crate::text::{ascii_chars, ascii_string, is_ascii_bytes, lemma_ascii_utf8};
use vstd::utf8::*;
use vstd::string::StringSliceAdditionalSpecFns;

verus! {

// ---------------------------------------------------------------------------
// Big-endian integers and length-prefixed byte strings
// ---------------------------------------------------------------------------

/// Two bytes, most significant first.
pub open spec fn be16(v: u16) -> Seq<u8> {
    seq![(v >> 8u16) as u8, v as u8]
}

/// Four bytes, most significant first.
pub open spec fn be32(v: u32) -> Seq<u8> {
    seq![(v >> 24u32) as u8, (v >> 16u32) as u8, (v >> 8u32) as u8, v as u8]
}

/// Eight bytes, most significant first.
pub open spec fn be64(v: u64) -> Seq<u8> {
    seq![
        (v >> 56u64) as u8,
        (v >> 48u64) as u8,
        (v >> 40u64) as u8,
        (v >> 32u64) as u8,
        (v >> 24u64) as u8,
        (v >> 16u64) as u8,
        (v >> 8u64) as u8,
        v as u8,
    ]
}

/// The value of two big-endian bytes.
pub open spec fn u16_of(b: Seq<u8>) -> u16 {
    ((b[0] as u16) << 8u16) | (b[1] as u16)
}

/// The value of four big-endian bytes.
pub open spec fn u32_of(b: Seq<u8>) -> u32 {
    ((b[0] as u32) << 24u32) | ((b[1] as u32) << 16u32) | ((b[2] as u32) << 8u32) | (b[3] as u32)
}

/// The value of eight big-endian bytes.
pub open spec fn u64_of(b: Seq<u8>) -> u64 {
    ((b[0] as u64) << 56u64) | ((b[1] as u64) << 48u64) | ((b[2] as u64) << 40u64) | ((b[3] as u64)
        << 32u64) | ((b[4] as u64) << 24u64) | ((b[5] as u64) << 16u64) | ((b[6] as u64) << 8u64)
        | (b[7] as u64)
}

/// A byte string behind its length as a big-endian `u32`. A string of 4 GiB
/// or more has its length cut to 32 bits, as the writer does.
pub open spec fn lp_bytes(b: Seq<u8>) -> Seq<u8> {
    be32(b.len() as u32) + b
}

/// The length-prefixed string at position `p` of `b`, and the position after it.
pub open spec fn lp_at(b: Seq<u8>, p: int) -> Result<(Seq<u8>, int), Error> {
    if p + 4 > b.len() {
        Err(Error::Truncated)
    } else {
        let l = u32_of(b.subrange(p, p + 4)) as int;
        if p + 4 + l > b.len() {
            Err(Error::Truncated)
        } else {
            Ok((b.subrange(p + 4, p + 4 + l), p + 4 + l))
        }
    }
}

/// A length-prefixed string written at `p` is read back from `p`.
pub proof fn lemma_lp_at(b: Seq<u8>, p: int, s: Seq<u8>)
    requires
        0 <= p,
        s.len() <= u32::MAX,
        p + 4 + s.len() <= b.len(),
        b.subrange(p, p + 4 + s.len()) == lp_bytes(s),
    ensures
        lp_at(b, p) == Ok::<(Seq<u8>, int), Error>((s, p + 4 + s.len())),
{
    lemma_be32(s.len() as u32);
    assert(b.subrange(p, p + 4) =~= lp_bytes(s).subrange(0, 4));
    assert(lp_bytes(s).subrange(0, 4) =~= be32(s.len() as u32));
    assert(b.subrange(p + 4, p + 4 + s.len()) =~= lp_bytes(s).subrange(4, 4 + s.len() as int));
    assert(lp_bytes(s).subrange(4, 4 + s.len() as int) =~= s);
}

pub proof fn lemma_be16(v: u16)
    ensures
        u16_of(be16(v)) == v,
        be16(v).len() == 2,
{
    let b = be16(v);
    let h = (v >> 8u16) as u8;
    let l = v as u8;
    assert(b[0] == h && b[1] == l);
    assert((((h as u16) << 8u16) | (l as u16)) == v) by (bit_vector)
        requires
            h == (v >> 8u16) as u8,
            l == v as u8,
    ;
}

pub proof fn lemma_u16_of(b: Seq<u8>)
    requires
        b.len() == 2,
    ensures
        be16(u16_of(b)) == b,
{
    let b0 = b[0];
    let b1 = b[1];
    let v = u16_of(b);
    assert(v == ((b0 as u16) << 8u16) | (b1 as u16));
    assert((v >> 8u16) as u8 == b0 && v as u8 == b1) by (bit_vector)
        requires
            v == ((b0 as u16) << 8u16) | (b1 as u16),
    ;
    assert(be16(v) =~= b);
}

pub proof fn lemma_be32(v: u32)
    ensures
        u32_of(be32(v)) == v,
        be32(v).len() == 4,
{
    let b = be32(v);
    let b0 = (v >> 24u32) as u8;
    let b1 = (v >> 16u32) as u8;
    let b2 = (v >> 8u32) as u8;
    let b3 = v as u8;
    assert(b[0] == b0 && b[1] == b1 && b[2] == b2 && b[3] == b3);
    assert((((b0 as u32) << 24u32) | ((b1 as u32) << 16u32) | ((b2 as u32) << 8u32) | (b3 as u32))
        == v) by (bit_vector)
        requires
            b0 == (v >> 24u32) as u8,
            b1 == (v >> 16u32) as u8,
            b2 == (v >> 8u32) as u8,
            b3 == v as u8,
    ;
}

pub proof fn lemma_u32_of(b: Seq<u8>)
    requires
        b.len() == 4,
    ensures
        be32(u32_of(b)) == b,
{
    let b0 = b[0];
    let b1 = b[1];
    let b2 = b[2];
    let b3 = b[3];
    let v = u32_of(b);
    assert(v == ((b0 as u32) << 24u32) | ((b1 as u32) << 16u32) | ((b2 as u32) << 8u32) | (
    b3 as u32));
    assert((v >> 24u32) as u8 == b0 && (v >> 16u32) as u8 == b1 && (v >> 8u32) as u8 == b2 && v as u8
        == b3) by (bit_vector)
        requires
            v == ((b0 as u32) << 24u32) | ((b1 as u32) << 16u32) | ((b2 as u32) << 8u32) | (
            b3 as u32),
    ;
    assert(be32(v) =~= b);
}

pub proof fn lemma_be64(v: u64)
    ensures
        u64_of(be64(v)) == v,
        be64(v).len() == 8,
{
    let b = be64(v);
    let b0 = (v >> 56u64) as u8;
    let b1 = (v >> 48u64) as u8;
    let b2 = (v >> 40u64) as u8;
    let b3 = (v >> 32u64) as u8;
    let b4 = (v >> 24u64) as u8;
    let b5 = (v >> 16u64) as u8;
    let b6 = (v >> 8u64) as u8;
    let b7 = v as u8;
    assert(b[0] == b0 && b[1] == b1 && b[2] == b2 && b[3] == b3);
    assert(b[4] == b4 && b[5] == b5 && b[6] == b6 && b[7] == b7);
    assert((((b0 as u64) << 56u64) | ((b1 as u64) << 48u64) | ((b2 as u64) << 40u64) | ((b3 as u64)
        << 32u64) | ((b4 as u64) << 24u64) | ((b5 as u64) << 16u64) | ((b6 as u64) << 8u64) | (
    b7 as u64)) == v) by (bit_vector)
        requires
            b0 == (v >> 56u64) as u8,
            b1 == (v >> 48u64) as u8,
            b2 == (v >> 40u64) as u8,
            b3 == (v >> 32u64) as u8,
            b4 == (v >> 24u64) as u8,
            b5 == (v >> 16u64) as u8,
            b6 == (v >> 8u64) as u8,
            b7 == v as u8,
    ;
}

pub proof fn lemma_u64_of(b: Seq<u8>)
    requires
        b.len() == 8,
    ensures
        be64(u64_of(b)) == b,
{
    let b0 = b[0];
    let b1 = b[1];
    let b2 = b[2];
    let b3 = b[3];
    let b4 = b[4];
    let b5 = b[5];
    let b6 = b[6];
    let b7 = b[7];
    let v = u64_of(b);
    assert(v == ((b0 as u64) << 56u64) | ((b1 as u64) << 48u64) | ((b2 as u64) << 40u64) | ((
    b3 as u64) << 32u64) | ((b4 as u64) << 24u64) | ((b5 as u64) << 16u64) | ((b6 as u64) << 8u64)
        | (b7 as u64));
    assert((v >> 56u64) as u8 == b0 && (v >> 48u64) as u8 == b1 && (v >> 40u64) as u8 == b2 && (v
        >> 32u64) as u8 == b3 && (v >> 24u64) as u8 == b4 && (v >> 16u64) as u8 == b5 && (v
        >> 8u64) as u8 == b6 && v as u8 == b7) by (bit_vector)
        requires
            v == ((b0 as u64) << 56u64) | ((b1 as u64) << 48u64) | ((b2 as u64) << 40u64) | ((
            b3 as u64) << 32u64) | ((b4 as u64) << 24u64) | ((b5 as u64) << 16u64) | ((b6 as u64)
                << 8u64) | (b7 as u64),
    ;
    assert(be64(v) =~= b);
}

// ---------------------------------------------------------------------------
// Writer
// ---------------------------------------------------------------------------

/// Appends fields to a growing byte buffer.
pub struct Writer {
    buf: Vec<u8>,
}

impl View for Writer {
    type V = Seq<u8>;

    closed spec fn view(&self) -> Seq<u8> {
        self.buf@
    }
}

impl Writer {
    pub fn new() -> (w: Self)
        ensures
            w@ == Seq::<u8>::empty(),
    {
        Self { buf: Vec::new() }
    }

    pub fn u8(&mut self, v: u8)
        ensures
            final(self)@ == old(self)@.push(v),
    {
        self.buf.push(v);
    }

    pub fn u16(&mut self, v: u16)
        ensures
            final(self)@ == old(self)@ + be16(v),
    {
        self.buf.push((v >> 8u16) as u8);
        self.buf.push(v as u8);
        assert(self.buf@ =~= old(self)@ + be16(v));
    }

    pub fn u32(&mut self, v: u32)
        ensures
            final(self)@ == old(self)@ + be32(v),
    {
        self.buf.push((v >> 24u32) as u8);
        self.buf.push((v >> 16u32) as u8);
        self.buf.push((v >> 8u32) as u8);
        self.buf.push(v as u8);
        assert(self.buf@ =~= old(self)@ + be32(v));
    }

    pub fn u64(&mut self, v: u64)
        ensures
            final(self)@ == old(self)@ + be64(v),
    {
        self.buf.push((v >> 56u64) as u8);
        self.buf.push((v >> 48u64) as u8);
        self.buf.push((v >> 40u64) as u8);
        self.buf.push((v >> 32u64) as u8);
        self.buf.push((v >> 24u64) as u8);
        self.buf.push((v >> 16u64) as u8);
        self.buf.push((v >> 8u64) as u8);
        self.buf.push(v as u8);
        assert(self.buf@ =~= old(self)@ + be64(v));
    }

    pub fn bytes(&mut self, b: &[u8])
        ensures
            final(self)@ == old(self)@ + b@,
    {
        let n = b.len();
        let mut i: usize = 0;
        while i < n
            invariant
                n == b@.len(),
                i <= n,
                self.buf@ =~= old(self)@ + b@.subrange(0, i as int),
            decreases n - i,
        {
            self.buf.push(b[i]);
            i = i + 1;
            assert(self.buf@ =~= old(self)@ + b@.subrange(0, i as int));
        }
        assert(b@.subrange(0, n as int) =~= b@);
    }

    pub fn arr32(&mut self, b: &[u8; 32])
        ensures
            final(self)@ == old(self)@ + b@,
    {
        self.bytes(b.as_slice());
    }

    /// The length as a `u32`, then the bytes.
    pub fn lp(&mut self, b: &[u8])
        ensures
            final(self)@ == old(self)@ + lp_bytes(b@),
    {
        self.u32(b.len() as u32);
        self.bytes(b);
        assert(self@ =~= old(self)@ + lp_bytes(b@));
    }

    pub fn finish(self) -> (out: Vec<u8>)
        ensures
            out@ == self@,
    {
        self.buf
    }

    pub fn as_slice(&self) -> (out: &[u8])
        ensures
            out@ == self@,
    {
        self.buf.as_slice()
    }
}

// ---------------------------------------------------------------------------
// Reader
// ---------------------------------------------------------------------------

/// Reads fields from the front of a byte slice. Every read either consumes
/// exactly the bytes it needs or fails with [`Error::Truncated`].
pub struct Reader<'a> {
    data: &'a [u8],
    i: usize,
}

/// `new` is `old` after `n` more bytes were consumed.
pub open spec fn advanced(old: Reader, new: Reader, n: int) -> bool {
    &&& new.data() == old.data()
    &&& 0 <= old.pos()
    &&& n >= 0
    &&& old.pos() + n <= old.data().len()
    &&& new.pos() == old.pos() + n
}

/// `n` bytes were not there to read; nothing was consumed.
pub open spec fn short(old: Reader, new: Reader, n: int) -> bool {
    &&& new.data() == old.data()
    &&& 0 <= old.pos() <= old.data().len()
    &&& old.pos() + n > old.data().len()
    &&& new.pos() == old.pos()
}

/// The `n` bytes at the reader's position.
pub open spec fn ahead(r: Reader, n: int) -> Seq<u8> {
    r.data().subrange(r.pos(), r.pos() + n)
}

impl<'a> Reader<'a> {
    #[verifier::type_invariant]
    spec fn inv(&self) -> bool {
        self.i <= self.data@.len()
    }

    /// The whole input.
    pub closed spec fn data(&self) -> Seq<u8> {
        self.data@
    }

    /// How many bytes have been consumed.
    pub closed spec fn pos(&self) -> int {
        self.i as int
    }

    pub fn new(data: &'a [u8]) -> (r: Self)
        ensures
            r.data() == data@,
            r.pos() == 0,
    {
        Self { data, i: 0 }
    }

    pub fn rest(&self) -> (n: usize)
        ensures
            n == self.data().len() - self.pos(),
    {
        proof {
            use_type_invariant(self);
        }
        self.data.len() - self.i
    }

    pub fn take(&mut self, n: usize) -> (res: Result<&'a [u8], Error>)
        ensures
            match res {
                Ok(s) => advanced(*old(self), *final(self), n as int) && s@ == ahead(*old(self), n as int),
                Err(e) => short(*old(self), *final(self), n as int) && e == Error::Truncated,
            },
    {
        proof {
            use_type_invariant(&*self);
        }
        if n > self.data.len() - self.i {
            return Err(Error::Truncated);
        }
        let s = &self.data[self.i..self.i + n];
        self.i = self.i + n;
        Ok(s)
    }

    pub fn u8(&mut self) -> (res: Result<u8, Error>)
        ensures
            match res {
                Ok(v) => advanced(*old(self), *final(self), 1) && seq![v] == ahead(*old(self), 1),
                Err(e) => short(*old(self), *final(self), 1) && e == Error::Truncated,
            },
    {
        let b = self.take(1)?;
        assert(seq![b[0]] =~= b@);
        Ok(b[0])
    }

    pub fn u16(&mut self) -> (res: Result<u16, Error>)
        ensures
            match res {
                Ok(v) => advanced(*old(self), *final(self), 2) && be16(v) == ahead(*old(self), 2),
                Err(e) => short(*old(self), *final(self), 2) && e == Error::Truncated,
            },
    {
        let b = self.take(2)?;
        let v = ((b[0] as u16) << 8u16) | (b[1] as u16);
        proof {
            assert(v == u16_of(b@));
            lemma_u16_of(b@);
        }
        Ok(v)
    }

    pub fn u32(&mut self) -> (res: Result<u32, Error>)
        ensures
            match res {
                Ok(v) => advanced(*old(self), *final(self), 4) && be32(v) == ahead(*old(self), 4),
                Err(e) => short(*old(self), *final(self), 4) && e == Error::Truncated,
            },
    {
        let b = self.take(4)?;
        let v = ((b[0] as u32) << 24u32) | ((b[1] as u32) << 16u32) | ((b[2] as u32) << 8u32) | (
        b[3] as u32);
        proof {
            assert(v == u32_of(b@));
            lemma_u32_of(b@);
        }
        Ok(v)
    }

    pub fn u64(&mut self) -> (res: Result<u64, Error>)
        ensures
            match res {
                Ok(v) => advanced(*old(self), *final(self), 8) && be64(v) == ahead(*old(self), 8),
                Err(e) => short(*old(self), *final(self), 8) && e == Error::Truncated,
            },
    {
        let b = self.take(8)?;
        let v = ((b[0] as u64) << 56u64) | ((b[1] as u64) << 48u64) | ((b[2] as u64) << 40u64) | ((
        b[3] as u64) << 32u64) | ((b[4] as u64) << 24u64) | ((b[5] as u64) << 16u64) | ((
        b[6] as u64) << 8u64) | (b[7] as u64);
        proof {
            assert(v == u64_of(b@));
            lemma_u64_of(b@);
        }
        Ok(v)
    }

    pub fn arr32(&mut self) -> (res: Result<[u8; 32], Error>)
        ensures
            match res {
                Ok(a) => advanced(*old(self), *final(self), 32) && a@ == ahead(*old(self), 32),
                Err(e) => short(*old(self), *final(self), 32) && e == Error::Truncated,
            },
    {
        let b = self.take(32)?;
        Ok(array32(b))
    }

    pub fn arr64(&mut self) -> (res: Result<[u8; 64], Error>)
        ensures
            match res {
                Ok(a) => advanced(*old(self), *final(self), 64) && a@ == ahead(*old(self), 64),
                Err(e) => short(*old(self), *final(self), 64) && e == Error::Truncated,
            },
    {
        let b = self.take(64)?;
        Ok(array64(b))
    }

    pub fn arr24(&mut self) -> (res: Result<[u8; 24], Error>)
        ensures
            match res {
                Ok(a) => advanced(*old(self), *final(self), 24) && a@ == ahead(*old(self), 24),
                Err(e) => short(*old(self), *final(self), 24) && e == Error::Truncated,
            },
    {
        let b = self.take(24)?;
        Ok(array24(b))
    }

    /// A `u32` length, then that many bytes.
    pub fn lp(&mut self) -> (res: Result<&'a [u8], Error>)
        ensures
            final(self).data() == old(self).data(),
            lp_at(old(self).data(), old(self).pos()) == (match res {
                Ok(s) => Ok::<(Seq<u8>, int), Error>((s@, final(self).pos())),
                Err(e) => Err::<(Seq<u8>, int), Error>(e),
            }),
            match res {
                Ok(s) => s@.len() <= u32::MAX && advanced(*old(self), *final(self), 4 + s@.len() as int) && lp_bytes(s@) == ahead(
                    *old(self),
                    4 + s@.len() as int,
                ),
                Err(e) => e == Error::Truncated && (old(self).pos() + 4 > old(self).data().len() || (
                old(self).pos() + 4 + u32_of(ahead(*old(self), 4)) > old(self).data().len()
                    && final(self).pos() == old(self).pos() + 4)),
            },
    {
        let ghost start = *self;
        let n = self.u32()?;
        let ghost mid = *self;
        proof {
            lemma_be32(n);
            assert(u32_of(ahead(start, 4)) == n);
        }
        let s = self.take(n as usize)?;
        proof {
            assert(ahead(start, 4 + s@.len() as int) =~= ahead(start, 4) + ahead(mid, n as int));
            assert(s@ =~= start.data().subrange(start.pos() + 4, start.pos() + 4 + n));
        }
        Ok(s)
    }

    pub fn finish(&self) -> (res: Result<(), Error>)
        ensures
            0 <= self.pos() <= self.data().len(),
            match res {
                Ok(_) => self.pos() == self.data().len(),
                Err(e) => self.pos() != self.data().len() && e == Error::TrailingBytes,
            },
    {
        proof {
            use_type_invariant(self);
        }
        if self.i != self.data.len() {
            return Err(Error::TrailingBytes);
        }
        Ok(())
    }
}

/// A 32-byte array holding the slice.
pub fn array32(b: &[u8]) -> (a: [u8; 32])
    requires
        b@.len() == 32,
    ensures
        a@ == b@,
{
    let mut a = [0u8; 32];
    let mut i: usize = 0;
    while i < 32
        invariant
            b@.len() == 32,
            i <= 32,
            forall|j: int| 0 <= j < i ==> a@[j] == b@[j],
        decreases 32 - i,
    {
        a[i] = b[i];
        i = i + 1;
    }
    assert(a@ =~= b@);
    a
}

/// A 64-byte array holding the slice.
pub fn array64(b: &[u8]) -> (a: [u8; 64])
    requires
        b@.len() == 64,
    ensures
        a@ == b@,
{
    let mut a = [0u8; 64];
    let mut i: usize = 0;
    while i < 64
        invariant
            b@.len() == 64,
            i <= 64,
            forall|j: int| 0 <= j < i ==> a@[j] == b@[j],
        decreases 64 - i,
    {
        a[i] = b[i];
        i = i + 1;
    }
    assert(a@ =~= b@);
    a
}

/// A 24-byte array holding the slice.
pub fn array24(b: &[u8]) -> (a: [u8; 24])
    requires
        b@.len() == 24,
    ensures
        a@ == b@,
{
    let mut a = [0u8; 24];
    let mut i: usize = 0;
    while i < 24
        invariant
            b@.len() == 24,
            i <= 24,
            forall|j: int| 0 <= j < i ==> a@[j] == b@[j],
        decreases 24 - i,
    {
        a[i] = b[i];
        i = i + 1;
    }
    assert(a@ =~= b@);
    a
}


// ---------------------------------------------------------------------------
// Hex
// ---------------------------------------------------------------------------

/// The lowercase hex digit for a value below 16.
pub open spec fn hex_digit(n: u8) -> u8 {
    if n < 10 {
        (48 + n) as u8
    } else {
        (87 + n) as u8
    }
}

/// Two lowercase hex digits per byte, high nibble first.
pub open spec fn hex_bytes(s: Seq<u8>) -> Seq<u8>
    decreases s.len(),
{
    if s.len() == 0 {
        Seq::empty()
    } else {
        hex_bytes(s.drop_last()) + seq![hex_digit(s.last() / 16), hex_digit(s.last() % 16)]
    }
}

/// The value of one hex digit, either case.
pub open spec fn hex_value(b: u8) -> Option<u8> {
    if 48 <= b <= 57 {
        Some((b - 48) as u8)
    } else if 97 <= b <= 102 {
        Some((b - 87) as u8)
    } else if 65 <= b <= 70 {
        Some((b - 55) as u8)
    } else {
        None
    }
}

pub open spec fn all_hex(b: Seq<u8>) -> bool {
    forall|i: int| 0 <= i < b.len() ==> (#[trigger] hex_value(b[i])) is Some
}

/// The bytes spelled by pairs of hex digits.
pub open spec fn unhex(b: Seq<u8>) -> Seq<u8> {
    Seq::new(
        b.len() / 2,
        |k: int| (hex_value(b[2 * k])->0 * 16 + hex_value(b[2 * k + 1])->0) as u8,
    )
}

pub proof fn lemma_hex_bytes_shape(s: Seq<u8>)
    ensures
        hex_bytes(s).len() == 2 * s.len(),
        is_ascii_bytes(hex_bytes(s)),
        all_hex(hex_bytes(s)),
        unhex(hex_bytes(s)) == s,
    decreases s.len(),
{
    if s.len() > 0 {
        let p = s.drop_last();
        lemma_hex_bytes_shape(p);
        let h = hex_bytes(s);
        let x = s.last();
        assert(h == hex_bytes(p) + seq![hex_digit(x / 16), hex_digit(x % 16)]);
        assert forall|i: int| 0 <= i < h.len() implies (#[trigger] hex_value(h[i])) is Some && h[i]
            < 128 by {
            if i >= hex_bytes(p).len() {
            } else {
                assert(h[i] == hex_bytes(p)[i]);
            }
        }
        assert(unhex(h) =~= s) by {
            assert forall|k: int| 0 <= k < s.len() implies unhex(h)[k] == s[k] by {
                if k < p.len() {
                    assert(h[2 * k] == hex_bytes(p)[2 * k]);
                    assert(h[2 * k + 1] == hex_bytes(p)[2 * k + 1]);
                    assert(unhex(hex_bytes(p))[k] == p[k]);
                } else {
                    assert(h[2 * k] == hex_digit(x / 16));
                    assert(h[2 * k + 1] == hex_digit(x % 16));
                }
            }
        }
    } else {
        assert(unhex(hex_bytes(s)) =~= s);
    }
}

/// Hex text decodes back to the bytes it spells: `from_hex(to_hex(b))` is `b`.
pub proof fn lemma_hex_roundtrip(b: Seq<u8>)
    ensures
        encode_utf8(ascii_chars(hex_bytes(b))) == hex_bytes(b),
        hex_bytes(b).len() % 2 == 0,
        all_hex(hex_bytes(b)),
        unhex(hex_bytes(b)) == b,
{
    lemma_hex_bytes_shape(b);
    lemma_ascii_utf8(hex_bytes(b));
}

/// Lowercase hex, two characters per byte.
pub fn to_hex(bytes: &[u8]) -> (out: String)
    ensures
        out@ == ascii_chars(hex_bytes(bytes@)),
{
    let mut buf: Vec<u8> = Vec::new();
    push_hex(&mut buf, bytes);
    proof {
        assert(buf@ =~= hex_bytes(bytes@));
        lemma_hex_bytes_shape(bytes@);
    }
    ascii_string(buf)
}


/// What reading hex text gives: odd length is [`Error::OddHex`], a
/// character that is not a hex digit [`Error::BadHex`].
pub open spec fn hex_result(b: Seq<u8>) -> Result<Seq<u8>, Error> {
    if b.len() % 2 != 0 {
        Err(Error::OddHex)
    } else if !all_hex(b) {
        Err(Error::BadHex)
    } else {
        Ok(unhex(b))
    }
}

/// Appends the lowercase hex digits of `bytes`.
pub fn push_hex(out: &mut Vec<u8>, bytes: &[u8])
    ensures
        final(out)@ == old(out)@ + hex_bytes(bytes@),
{
    let n = bytes.len();
    let mut i: usize = 0;
    while i < n
        invariant
            n == bytes@.len(),
            i <= n,
            out@ == old(out)@ + hex_bytes(bytes@.subrange(0, i as int)),
        decreases n - i,
    {
        let b = bytes[i];
        let hi = b / 16;
        let lo = b % 16;
        out.push(if hi < 10 { 48 + hi } else { 87 + hi });
        out.push(if lo < 10 { 48 + lo } else { 87 + lo });
        proof {
            let p = bytes@.subrange(0, i + 1);
            assert(p.drop_last() =~= bytes@.subrange(0, i as int));
            assert(out@ =~= old(out)@ + hex_bytes(p));
        }
        i = i + 1;
    }
    assert(bytes@.subrange(0, n as int) =~= bytes@);
}

/// Bytes from hex text (either case). Odd length is [`Error::OddHex`]; any
/// other character is [`Error::BadHex`].
pub fn from_hex(s: &str) -> (res: Result<Vec<u8>, Error>)
    ensures
        match res {
            Ok(v) => s.spec_bytes().len() % 2 == 0 && all_hex(s.spec_bytes()) && v@ == unhex(
                s.spec_bytes(),
            ),
            Err(e) => (s.spec_bytes().len() % 2 != 0 && e == Error::OddHex) || (s.spec_bytes().len()
                % 2 == 0 && !all_hex(s.spec_bytes()) && e == Error::BadHex),
        },
{
    let bytes = s.as_bytes();
    let n = bytes.len();
    if n % 2 != 0 {
        return Err(Error::OddHex);
    }
    let mut out: Vec<u8> = Vec::new();
    let mut i: usize = 0;
    while i < n
        invariant
            n == bytes@.len(),
            bytes@ == s.spec_bytes(),
            n % 2 == 0,
            i % 2 == 0,
            i <= n,
            forall|j: int| 0 <= j < i ==> (#[trigger] hex_value(bytes@[j])) is Some,
            out@ == unhex(bytes@.subrange(0, i as int)),
        decreases n - i,
    {
        let hi = match hex_val(bytes[i]) {
            Some(v) => v,
            None => return Err(Error::BadHex),
        };
        let lo = match hex_val(bytes[i + 1]) {
            Some(v) => v,
            None => return Err(Error::BadHex),
        };
        out.push(hi * 16 + lo);
        proof {
            let q = bytes@.subrange(0, i + 2);
            assert(out@ =~= unhex(q));
        }
        i = i + 2;
    }
    assert(bytes@.subrange(0, n as int) =~= bytes@);
    Ok(out)
}

/// A 32-byte id written as 64 hex characters.
pub fn parse_id(s: &str) -> (res: Result<[u8; 32], Error>)
    ensures
        match res {
            Ok(a) => s.spec_bytes().len() == 64 && all_hex(s.spec_bytes()) && a@ == unhex(
                s.spec_bytes(),
            ),
            Err(e) => (s.spec_bytes().len() % 2 != 0 && e == Error::OddHex) || (s.spec_bytes().len()
                % 2 == 0 && !all_hex(s.spec_bytes()) && e == Error::BadHex) || (s.spec_bytes().len()
                % 2 == 0 && all_hex(s.spec_bytes()) && s.spec_bytes().len() != 64 && e
                == Error::ExpectedId),
        },
{
    let v = from_hex(s)?;
    if v.len() != 32 {
        return Err(Error::ExpectedId);
    }
    Ok(array32(v.as_slice()))
}

fn hex_val(b: u8) -> (r: Option<u8>)
    ensures
        r == hex_value(b),
        r matches Some(v) ==> v < 16,
{
    if 48 <= b && b <= 57 {
        Some(b - 48)
    } else if 97 <= b && b <= 102 {
        Some(b - 87)
    } else if 65 <= b && b <= 70 {
        Some(b - 55)
    } else {
        None
    }
}


/// Whether four bytes are the given tag.
pub fn tag_is(s: &[u8], tag: &[u8; 4]) -> (r: bool)
    requires
        s@.len() == 4,
    ensures
        r == (s@ == tag@),
{
    let r = s[0] == tag[0] && s[1] == tag[1] && s[2] == tag[2] && s[3] == tag[3];
    proof {
        if r {
            assert(s@ =~= tag@);
        } else {
            if s@ == tag@ {
                assert(s@[0] == tag@[0] && s@[1] == tag@[1] && s@[2] == tag@[2] && s@[3] == tag@[3]);
            }
        }
    }
    r
}

/// Whether two 32-byte arrays hold the same bytes.
pub fn eq32(a: &[u8; 32], b: &[u8; 32]) -> (r: bool)
    ensures
        r == (a@ == b@),
{
    let mut i: usize = 0;
    while i < 32
        invariant
            i <= 32,
            forall|j: int| 0 <= j < i ==> a@[j] == b@[j],
        decreases 32 - i,
    {
        if a[i] != b[i] {
            return false;
        }
        i = i + 1;
    }
    assert(a@ =~= b@);
    true
}

/// Whether two byte slices hold the same bytes.
pub fn bytes_eq(a: &[u8], b: &[u8]) -> (r: bool)
    ensures
        r == (a@ == b@),
{
    if a.len() != b.len() {
        return false;
    }
    let mut i: usize = 0;
    while i < a.len()
        invariant
            a@.len() == b@.len(),
            i <= a@.len(),
            forall|j: int| 0 <= j < i ==> a@[j] == b@[j],
        decreases a@.len() - i,
    {
        if a[i] != b[i] {
            return false;
        }
        i = i + 1;
    }
    assert(a@ =~= b@);
    true
}

} // verus!
