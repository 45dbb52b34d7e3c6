//! Sequential big-endian wire codec: typed primitive writes and the reads
//! that mirror them.
use vstd::prelude::*;

verus! {

/// Why a read from a wire buffer could not be completed.
#[derive(Debug, Clone, Copy, PartialEq, Eq, Structural)]
pub enum DecodeError {
    /// Fewer bytes remained than the read required.
    Truncated,
}

/// The four big-endian bytes of `x`.
pub open spec fn be_u32(x: u32) -> Seq<u8> {
    seq![(x >> 24u32) as u8, (x >> 16u32) as u8, (x >> 8u32) as u8, x as u8]
}

/// The eight big-endian bytes of `x`.
pub open spec fn be_u64(x: u64) -> Seq<u8> {
    seq![
        (x >> 56u64) as u8, (x >> 48u64) as u8, (x >> 40u64) as u8, (x >> 32u64) as u8,
        (x >> 24u64) as u8, (x >> 16u64) as u8, (x >> 8u64) as u8, x as u8,
    ]
}

/// The integer whose big-endian bytes are the first four of `s`.
pub open spec fn u32_of_be(s: Seq<u8>) -> u32
    recommends
        s.len() >= 4,
{
    ((s[0] as u32) << 24u32) | ((s[1] as u32) << 16u32) | ((s[2] as u32) << 8u32) | (s[3] as u32)
}

/// The integer whose big-endian bytes are the first eight of `s`.
pub open spec fn u64_of_be(s: Seq<u8>) -> u64
    recommends
        s.len() >= 8,
{
    ((s[0] as u64) << 56u64) | ((s[1] as u64) << 48u64) | ((s[2] as u64) << 40u64)
        | ((s[3] as u64) << 32u64) | ((s[4] as u64) << 24u64) | ((s[5] as u64) << 16u64)
        | ((s[6] as u64) << 8u64) | (s[7] as u64)
}

/// Whether `b` is short enough for its length to fit the 4-byte prefix.
pub open spec fn fits_prefix(b: Seq<u8>) -> bool {
    b.len() <= u32::MAX
}

/// A byte string on the wire: its length as four big-endian bytes, then the bytes.
pub open spec fn framed(b: Seq<u8>) -> Seq<u8> {
    be_u32(b.len() as u32) + b
}

/// Reads one byte from the front of `s`; gives the value and what follows it.
pub open spec fn read_u8(s: Seq<u8>) -> Option<(u8, Seq<u8>)> {
    if s.len() >= 1 {
        Some((s[0], s.skip(1)))
    } else {
        None
    }
}

/// Reads a 4-byte big-endian integer from the front of `s`.
pub open spec fn read_u32(s: Seq<u8>) -> Option<(u32, Seq<u8>)> {
    if s.len() >= 4 {
        Some((u32_of_be(s), s.skip(4)))
    } else {
        None
    }
}

/// Reads an 8-byte big-endian integer from the front of `s`.
pub open spec fn read_u64(s: Seq<u8>) -> Option<(u64, Seq<u8>)> {
    if s.len() >= 8 {
        Some((u64_of_be(s), s.skip(8)))
    } else {
        None
    }
}

/// Reads a length-prefixed byte string from the front of `s`.
pub open spec fn read_framed(s: Seq<u8>) -> Option<(Seq<u8>, Seq<u8>)> {
    match read_u32(s) {
        Some((n, r)) => if r.len() >= n {
            Some((r.take(n as int), r.skip(n as int)))
        } else {
            None
        },
        None => None,
    }
}

/// A byte written in front of `rest` reads back as itself, leaving `rest`.
pub proof fn lemma_u8_round_trip(b: u8, rest: Seq<u8>)
    ensures
        read_u8(seq![b] + rest) == Some((b, rest)),
{
    assert((seq![b] + rest).skip(1) =~= rest);
}

/// A 4-byte integer written in front of `rest` reads back as itself, leaving `rest`.
pub proof fn lemma_u32_round_trip(x: u32, rest: Seq<u8>)
    ensures
        read_u32(be_u32(x) + rest) == Some((x, rest)),
{
    let s = be_u32(x) + rest;
    assert(s.skip(4) =~= rest);
    assert(((((x >> 24u32) as u8) as u32) << 24u32) | ((((x >> 16u32) as u8) as u32) << 16u32)
        | ((((x >> 8u32) as u8) as u32) << 8u32) | ((x as u8) as u32) == x) by (bit_vector);
}

/// An 8-byte integer written in front of `rest` reads back as itself, leaving `rest`.
pub proof fn lemma_u64_round_trip(x: u64, rest: Seq<u8>)
    ensures
        read_u64(be_u64(x) + rest) == Some((x, rest)),
{
    let s = be_u64(x) + rest;
    assert(s.skip(8) =~= rest);
    assert(((((x >> 56u64) as u8) as u64) << 56u64) | ((((x >> 48u64) as u8) as u64) << 48u64)
        | ((((x >> 40u64) as u8) as u64) << 40u64) | ((((x >> 32u64) as u8) as u64) << 32u64)
        | ((((x >> 24u64) as u8) as u64) << 24u64) | ((((x >> 16u64) as u8) as u64) << 16u64)
        | ((((x >> 8u64) as u8) as u64) << 8u64) | ((x as u8) as u64) == x) by (bit_vector);
}

/// A length-prefixed byte string written in front of `rest` reads back as
/// itself, leaving `rest`.
pub proof fn lemma_framed_round_trip(b: Seq<u8>, rest: Seq<u8>)
    requires
        fits_prefix(b),
    ensures
        read_framed(framed(b) + rest) == Some((b, rest)),
{
    lemma_u32_round_trip(b.len() as u32, b + rest);
    assert(framed(b) + rest =~= be_u32(b.len() as u32) + (b + rest));
    assert((b + rest).take(b.len() as int) =~= b);
    assert((b + rest).skip(b.len() as int) =~= rest);
}

/// A byte read that succeeds goes the same way with more bytes behind it.
pub proof fn lemma_u8_extend(t: Seq<u8>, u: Seq<u8>)
    ensures
        match read_u8(t) {
            Some((v, r)) => read_u8(t + u) == Some((v, r + u)),
            None => true,
        },
{
    if t.len() >= 1 {
        assert((t + u).skip(1) =~= t.skip(1) + u);
    }
}

/// A 4-byte read that succeeds goes the same way with more bytes behind it.
pub proof fn lemma_u32_extend(t: Seq<u8>, u: Seq<u8>)
    ensures
        match read_u32(t) {
            Some((v, r)) => read_u32(t + u) == Some((v, r + u)),
            None => true,
        },
{
    if t.len() >= 4 {
        assert((t + u).skip(4) =~= t.skip(4) + u);
        assert((t + u)[0] == t[0] && (t + u)[1] == t[1] && (t + u)[2] == t[2] && (t + u)[3]
            == t[3]);
    }
}

/// An 8-byte read that succeeds goes the same way with more bytes behind it.
pub proof fn lemma_u64_extend(t: Seq<u8>, u: Seq<u8>)
    ensures
        match read_u64(t) {
            Some((v, r)) => read_u64(t + u) == Some((v, r + u)),
            None => true,
        },
{
    if t.len() >= 8 {
        assert((t + u).skip(8) =~= t.skip(8) + u);
        assert((t + u)[0] == t[0] && (t + u)[1] == t[1] && (t + u)[2] == t[2] && (t + u)[3]
            == t[3] && (t + u)[4] == t[4] && (t + u)[5] == t[5] && (t + u)[6] == t[6] && (t
            + u)[7] == t[7]);
    }
}

/// A byte-string read that succeeds goes the same way with more bytes behind it.
pub proof fn lemma_framed_extend(t: Seq<u8>, u: Seq<u8>)
    ensures
        match read_framed(t) {
            Some((v, r)) => read_framed(t + u) == Some((v, r + u)),
            None => true,
        },
{
    lemma_u32_extend(t, u);
    match read_u32(t) {
        Some((n, r)) => {
            if r.len() >= n {
                assert((r + u).take(n as int) =~= r.take(n as int));
                assert((r + u).skip(n as int) =~= r.skip(n as int) + u);
            }
        },
        None => {},
    }
}

/// Each read fails on a buffer shorter than the value it reads.
pub proof fn lemma_short_reads_fail(s: Seq<u8>)
    ensures
        s.len() < 1 ==> read_u8(s) is None,
        s.len() < 4 ==> read_u32(s) is None,
        s.len() < 8 ==> read_u64(s) is None,
        forall|b: Seq<u8>| #![auto] s.len() < framed(b).len() && fits_prefix(b)
            && s == framed(b).take(s.len() as int) ==> read_framed(s) is None,
{
    assert forall|b: Seq<u8>| #![auto] s.len() < framed(b).len() && fits_prefix(b)
        && s == framed(b).take(s.len() as int) implies read_framed(s) is None by {
        if s.len() >= 4 {
            assert(s.take(4) =~= be_u32(b.len() as u32));
            lemma_u32_round_trip(b.len() as u32, b);
            assert((be_u32(b.len() as u32) + b).take(4) =~= be_u32(b.len() as u32));
        }
    }
}

/// Accumulates the bytes of an outgoing wire message.
pub struct NativeEncoder {
    buffer: Vec<u8>,
}

impl View for NativeEncoder {
    type V = Seq<u8>;

    closed spec fn view(&self) -> Seq<u8> {
        self.buffer@
    }
}

impl NativeEncoder {
    /// An encoder holding no bytes.
    pub fn new() -> (r: NativeEncoder)
        ensures
            r@ == Seq::<u8>::empty(),
    {
        NativeEncoder { buffer: Vec::new() }
    }

    /// Appends one byte.
    pub fn encode_byte(&mut self, b: u8)
        ensures
            final(self)@ == old(self)@.push(b),
    {
        self.buffer.push(b);
    }

    /// Appends a 4-byte big-endian integer.
    pub fn encode_int32(&mut self, x: u32)
        ensures
            final(self)@ == old(self)@ + be_u32(x),
    {
        self.buffer.push((x >> 24u32) as u8);
        self.buffer.push((x >> 16u32) as u8);
        self.buffer.push((x >> 8u32) as u8);
        self.buffer.push(x as u8);
        assert(self@ =~= old(self)@ + be_u32(x));
    }

    /// Appends an 8-byte big-endian integer.
    pub fn encode_long(&mut self, x: u64)
        ensures
            final(self)@ == old(self)@ + be_u64(x),
    {
        self.buffer.push((x >> 56u64) as u8);
        self.buffer.push((x >> 48u64) as u8);
        self.buffer.push((x >> 40u64) as u8);
        self.buffer.push((x >> 32u64) as u8);
        self.buffer.push((x >> 24u64) as u8);
        self.buffer.push((x >> 16u64) as u8);
        self.buffer.push((x >> 8u64) as u8);
        self.buffer.push(x as u8);
        assert(self@ =~= old(self)@ + be_u64(x));
    }

    /// Appends a byte string after its 4-byte big-endian length.
    pub fn encode_bytes(&mut self, b: &[u8])
        requires
            fits_prefix(b@),
        ensures
            final(self)@ == old(self)@ + framed(b@),
    {
        self.encode_int32(b.len() as u32);
        let ghost start = self@;
        let mut i: usize = 0;
        while i < b.len()
            invariant
                i <= b@.len(),
                self@ == start + b@.take(i as int),
            decreases b@.len() - i,
        {
            self.buffer.push(b[i]);
            i = i + 1;
            assert(self@ =~= start + b@.take(i as int));
        }
        assert(b@.take(i as int) =~= b@);
        assert(self@ =~= old(self)@ + framed(b@));
    }

    /// The bytes written so far.
    pub fn to_bytes(self) -> (r: Vec<u8>)
        ensures
            r@ == self@,
    {
        self.buffer
    }
}

/// A cursor over a wire buffer that reads typed values in order.
pub struct NativeDecoder<'a> {
    data: &'a [u8],
    position: usize,
}

impl<'a> NativeDecoder<'a> {
    /// The cursor never stands past the end of the buffer.
    pub closed spec fn wf(&self) -> bool {
        self.position <= self.data@.len()
    }

    /// The bytes that have not been read yet.
    pub closed spec fn rest(&self) -> Seq<u8> {
        self.data@.subrange(self.position as int, self.data@.len() as int)
    }

    /// The whole buffer being read.
    pub closed spec fn source(&self) -> Seq<u8> {
        self.data@
    }

    /// A decoder at the start of `data`.
    pub fn new(data: &'a [u8]) -> (r: NativeDecoder<'a>)
        ensures
            r.wf(),
            r.rest() == data@,
    {
        let r = NativeDecoder { data, position: 0 };
        assert(r.rest() =~= data@);
        r
    }

    /// Whether every byte has been read.
    pub fn is_done(&self) -> (r: bool)
        requires
            self.wf(),
        ensures
            r == (self.rest().len() == 0),
    {
        self.position == self.data.len()
    }

    /// Reads one byte.
    pub fn decode_byte(&mut self) -> (r: Result<u8, DecodeError>)
        requires
            old(self).wf(),
        ensures
            final(self).wf(),
            final(self).source() == old(self).source(),
            match r {
                Ok(v) => read_u8(old(self).rest()) == Some((v, final(self).rest())),
                Err(_) => read_u8(old(self).rest()) is None && *final(self) == *old(self),
            },
    {
        if self.data.len() - self.position < 1 {
            return Err(DecodeError::Truncated);
        }
        let v = self.data[self.position];
        self.position = self.position + 1;
        assert(old(self).rest().skip(1) =~= self.rest());
        Ok(v)
    }

    /// Reads a 4-byte big-endian integer.
    pub fn decode_int(&mut self) -> (r: Result<u32, DecodeError>)
        requires
            old(self).wf(),
        ensures
            final(self).wf(),
            final(self).source() == old(self).source(),
            match r {
                Ok(v) => read_u32(old(self).rest()) == Some((v, final(self).rest())),
                Err(_) => read_u32(old(self).rest()) is None && *final(self) == *old(self),
            },
    {
        if self.data.len() - self.position < 4 {
            return Err(DecodeError::Truncated);
        }
        let p = self.position;
        let v = ((self.data[p] as u32) << 24u32) | ((self.data[p + 1] as u32) << 16u32)
            | ((self.data[p + 2] as u32) << 8u32) | (self.data[p + 3] as u32);
        self.position = p + 4;
        assert(old(self).rest().skip(4) =~= self.rest());
        Ok(v)
    }

    /// Reads an 8-byte big-endian integer.
    pub fn decode_long(&mut self) -> (r: Result<u64, DecodeError>)
        requires
            old(self).wf(),
        ensures
            final(self).wf(),
            final(self).source() == old(self).source(),
            match r {
                Ok(v) => read_u64(old(self).rest()) == Some((v, final(self).rest())),
                Err(_) => read_u64(old(self).rest()) is None && *final(self) == *old(self),
            },
    {
        if self.data.len() - self.position < 8 {
            return Err(DecodeError::Truncated);
        }
        let p = self.position;
        let d = self.data;
        let v = ((d[p] as u64) << 56u64) | ((d[p + 1] as u64) << 48u64)
            | ((d[p + 2] as u64) << 40u64) | ((d[p + 3] as u64) << 32u64)
            | ((d[p + 4] as u64) << 24u64) | ((d[p + 5] as u64) << 16u64)
            | ((d[p + 6] as u64) << 8u64) | (d[p + 7] as u64);
        self.position = p + 8;
        assert(old(self).rest().skip(8) =~= self.rest());
        Ok(v)
    }

    /// Reads a byte string after its 4-byte big-endian length.
    pub fn decode_bytes(&mut self) -> (r: Result<Vec<u8>, DecodeError>)
        requires
            old(self).wf(),
        ensures
            final(self).wf(),
            final(self).source() == old(self).source(),
            match r {
                Ok(v) => read_framed(old(self).rest()) == Some((v@, final(self).rest())),
                Err(_) => read_framed(old(self).rest()) is None && *final(self) == *old(self),
            },
    {
        if self.data.len() - self.position < 4 {
            return Err(DecodeError::Truncated);
        }
        let q = self.position;
        let n = ((self.data[q] as u32) << 24u32) | ((self.data[q + 1] as u32) << 16u32)
            | ((self.data[q + 2] as u32) << 8u32) | (self.data[q + 3] as u32);
        if ((self.data.len() - q - 4) as u64) < (n as u64) {
            return Err(DecodeError::Truncated);
        }
        assert(old(self).rest().skip(4) =~= self.data@.subrange(q + 4, self.data@.len() as int));
        self.position = q + 4;
        let p = self.position;
        let end = p + n as usize;
        let mut out: Vec<u8> = Vec::new();
        let mut i: usize = p;
        while i < end
            invariant
                p <= i <= end,
                end <= self.data@.len(),
                out@ == self.data@.subrange(p as int, i as int),
            decreases end - i,
        {
            out.push(self.data[i]);
            i = i + 1;
            assert(out@ =~= self.data@.subrange(p as int, i as int));
        }
        self.position = end;
        let ghost mid = self.data@.subrange(p as int, self.data@.len() as int);
        assert(mid.take(n as int) =~= out@);
        assert(mid.skip(n as int) =~= self.rest());
        Ok(out)
    }
}

} // verus!
