//! Requests handed to the runtime and the results it sends back, with their
//! fixed wire layouts.
use vstd::prelude::*;
use vstd::seq_lib::lemma_concat_associative;
use crate::codec::{
    lemma_framed_extend, lemma_u32_extend, lemma_u64_extend, lemma_u8_extend,
    lemma_framed_round_trip, lemma_u32_round_trip, lemma_u64_round_trip, lemma_u8_round_trip,
    be_u32, be_u64, fits_prefix, framed, read_framed, read_u32, read_u64, read_u8, DecodeError,
    NativeDecoder, NativeEncoder,
};

verus! {

/// Tag of a transaction that deploys a new contract.
pub const AVM_CREATE: u8 = 2;

/// Tag of a transaction that calls an existing contract.
pub const AVM_CALL: u8 = 3;

/// One transaction request, with the block it runs in.
#[derive(Debug)]
pub struct TransactionContext {
    pub transaction_type: u8,
    pub address: Vec<u8>,
    pub caller: Vec<u8>,
    pub origin: Vec<u8>,
    pub nonce: u64,
    pub value: Vec<u8>,
    pub data: Vec<u8>,
    pub energy_limit: u64,
    pub energy_price: u64,
    pub transaction_hash: Vec<u8>,
    pub basic_cost: u32,
    pub transaction_timestamp: u64,
    pub block_timestamp: u64,
    pub block_number: u64,
    pub block_energy_limit: u64,
    pub block_coinbase: Vec<u8>,
    pub block_previous_hash: Vec<u8>,
    pub block_difficulty: Vec<u8>,
    pub internal_call_depth: u32,
}

/// The mathematical content of a `TransactionContext`.
pub struct ContextView {
    pub transaction_type: u8,
    pub address: Seq<u8>,
    pub caller: Seq<u8>,
    pub origin: Seq<u8>,
    pub nonce: u64,
    pub value: Seq<u8>,
    pub data: Seq<u8>,
    pub energy_limit: u64,
    pub energy_price: u64,
    pub transaction_hash: Seq<u8>,
    pub basic_cost: u32,
    pub transaction_timestamp: u64,
    pub block_timestamp: u64,
    pub block_number: u64,
    pub block_energy_limit: u64,
    pub block_coinbase: Seq<u8>,
    pub block_previous_hash: Seq<u8>,
    pub block_difficulty: Seq<u8>,
    pub internal_call_depth: u32,
}

impl View for TransactionContext {
    type V = ContextView;

    open spec fn view(&self) -> ContextView {
        ContextView {
            transaction_type: self.transaction_type,
            address: self.address@,
            caller: self.caller@,
            origin: self.origin@,
            nonce: self.nonce,
            value: self.value@,
            data: self.data@,
            energy_limit: self.energy_limit,
            energy_price: self.energy_price,
            transaction_hash: self.transaction_hash@,
            basic_cost: self.basic_cost,
            transaction_timestamp: self.transaction_timestamp,
            block_timestamp: self.block_timestamp,
            block_number: self.block_number,
            block_energy_limit: self.block_energy_limit,
            block_coinbase: self.block_coinbase@,
            block_previous_hash: self.block_previous_hash@,
            block_difficulty: self.block_difficulty@,
            internal_call_depth: self.internal_call_depth,
        }
    }
}

/// Every byte-string field of `c` is short enough for its length prefix.
pub open spec fn context_fits(c: ContextView) -> bool {
    &&& fits_prefix(c.address)
    &&& fits_prefix(c.caller)
    &&& fits_prefix(c.origin)
    &&& fits_prefix(c.value)
    &&& fits_prefix(c.data)
    &&& fits_prefix(c.transaction_hash)
    &&& fits_prefix(c.block_coinbase)
    &&& fits_prefix(c.block_previous_hash)
    &&& fits_prefix(c.block_difficulty)
}

/// The tag, the three parties and the nonce of a context, as they stand on the wire.
pub open spec fn parties_bytes(c: ContextView) -> Seq<u8> {
    seq![c.transaction_type] + (framed(c.address) + (framed(c.caller) + (framed(c.origin)
        + be_u64(c.nonce))))
}

/// The value, payload, energy terms and hash of a context, as they stand on the wire.
pub open spec fn payload_bytes(c: ContextView) -> Seq<u8> {
    framed(c.value) + (framed(c.data) + (be_u64(c.energy_limit) + (be_u64(c.energy_price)
        + framed(c.transaction_hash))))
}

/// The basic cost, the timestamps, the block number and the block energy limit.
pub open spec fn timing_bytes(c: ContextView) -> Seq<u8> {
    be_u32(c.basic_cost) + (be_u64(c.transaction_timestamp) + (be_u64(c.block_timestamp)
        + (be_u64(c.block_number) + be_u64(c.block_energy_limit))))
}

/// The coinbase, the previous hash, the difficulty and the call depth.
pub open spec fn block_bytes(c: ContextView) -> Seq<u8> {
    framed(c.block_coinbase) + (framed(c.block_previous_hash) + (framed(c.block_difficulty)
        + be_u32(c.internal_call_depth)))
}

/// The wire form of a context: its tag byte, then every field in declaration
/// order, integers big-endian and byte strings length-prefixed.
pub open spec fn context_bytes(c: ContextView) -> Seq<u8> {
    parties_bytes(c) + (payload_bytes(c) + (timing_bytes(c) + block_bytes(c)))
}

/// Reads what `parties_bytes` writes.
pub open spec fn read_parties(s: Seq<u8>) -> Option<(u8, Seq<u8>, Seq<u8>, Seq<u8>, u64, Seq<u8>)> {
    match read_u8(s) { None => None, Some((t, s)) =>
    match read_framed(s) { None => None, Some((a, s)) =>
    match read_framed(s) { None => None, Some((c, s)) =>
    match read_framed(s) { None => None, Some((o, s)) =>
    match read_u64(s) { None => None, Some((n, s)) => Some((t, a, c, o, n, s)) }}}}}
}

/// Reads what `payload_bytes` writes.
pub open spec fn read_payload(s: Seq<u8>) -> Option<(Seq<u8>, Seq<u8>, u64, u64, Seq<u8>, Seq<u8>)> {
    match read_framed(s) { None => None, Some((v, s)) =>
    match read_framed(s) { None => None, Some((d, s)) =>
    match read_u64(s) { None => None, Some((l, s)) =>
    match read_u64(s) { None => None, Some((p, s)) =>
    match read_framed(s) { None => None, Some((h, s)) => Some((v, d, l, p, h, s)) }}}}}
}

/// Reads what `timing_bytes` writes.
pub open spec fn read_timing(s: Seq<u8>) -> Option<(u32, u64, u64, u64, u64, Seq<u8>)> {
    match read_u32(s) { None => None, Some((b, s)) =>
    match read_u64(s) { None => None, Some((t, s)) =>
    match read_u64(s) { None => None, Some((bt, s)) =>
    match read_u64(s) { None => None, Some((n, s)) =>
    match read_u64(s) { None => None, Some((l, s)) => Some((b, t, bt, n, l, s)) }}}}}
}

/// Reads what `block_bytes` writes.
pub open spec fn read_block(s: Seq<u8>) -> Option<(Seq<u8>, Seq<u8>, Seq<u8>, u32, Seq<u8>)> {
    match read_framed(s) { None => None, Some((cb, s)) =>
    match read_framed(s) { None => None, Some((ph, s)) =>
    match read_framed(s) { None => None, Some((df, s)) =>
    match read_u32(s) { None => None, Some((dp, s)) => Some((cb, ph, df, dp, s)) }}}}
}

/// Reads a context from the front of `s`, in the order that `context_bytes`
/// writes it; gives the context and the bytes after its last field.
pub open spec fn read_context(s: Seq<u8>) -> Option<(ContextView, Seq<u8>)> {
    match read_parties(s) { None => None, Some((t, a, c, o, n, s)) =>
    match read_payload(s) { None => None, Some((v, d, l, p, h, s)) =>
    match read_timing(s) { None => None, Some((b, ts, bt, bn, bl, s)) =>
    match read_block(s) { None => None, Some((cb, ph, df, dp, s)) =>
    Some((ContextView {
        transaction_type: t, address: a, caller: c, origin: o, nonce: n, value: v, data: d,
        energy_limit: l, energy_price: p, transaction_hash: h, basic_cost: b,
        transaction_timestamp: ts, block_timestamp: bt, block_number: bn,
        block_energy_limit: bl, block_coinbase: cb, block_previous_hash: ph,
        block_difficulty: df, internal_call_depth: dp,
    }, s)) }}}}
}

/// The context at the front of `s`, if one can be read there.
pub open spec fn parse_context(s: Seq<u8>) -> Option<ContextView> {
    match read_context(s) {
        Some((c, _rest)) => Some(c),
        None => None,
    }
}

proof fn lemma_parties_round_trip(c: ContextView, r1: Seq<u8>)
    requires
        context_fits(c),
    ensures
        read_parties(parties_bytes(c) + r1) == Some((c.transaction_type, c.address, c.caller,
            c.origin, c.nonce, r1)),
{
    assert(parties_bytes(c) + r1 =~= seq![c.transaction_type] + (framed(c.address) + (framed(
        c.caller) + (framed(c.origin) + (be_u64(c.nonce) + r1)))));
    lemma_u64_round_trip(c.nonce, r1);
    lemma_framed_round_trip(c.origin, be_u64(c.nonce) + r1);
    lemma_framed_round_trip(c.caller, framed(c.origin) + (be_u64(c.nonce) + r1));
    lemma_framed_round_trip(c.address, framed(c.caller) + (framed(c.origin) + (be_u64(c.nonce)
        + r1)));
    lemma_u8_round_trip(c.transaction_type, framed(c.address) + (framed(c.caller)
        + (framed(c.origin) + (be_u64(c.nonce) + r1))));
}

proof fn lemma_payload_round_trip(c: ContextView, r2: Seq<u8>)
    requires
        context_fits(c),
    ensures
        read_payload(payload_bytes(c) + r2) == Some((c.value, c.data, c.energy_limit,
            c.energy_price, c.transaction_hash, r2)),
{
    assert(payload_bytes(c) + r2 =~= framed(c.value) + (framed(c.data) + (be_u64(c.energy_limit)
        + (be_u64(c.energy_price) + (framed(c.transaction_hash) + r2)))));
    lemma_framed_round_trip(c.transaction_hash, r2);
    lemma_u64_round_trip(c.energy_price, framed(c.transaction_hash) + r2);
    lemma_u64_round_trip(c.energy_limit, be_u64(c.energy_price) + (framed(c.transaction_hash)
        + r2));
    lemma_framed_round_trip(c.data, be_u64(c.energy_limit) + (be_u64(c.energy_price)
        + (framed(c.transaction_hash) + r2)));
    lemma_framed_round_trip(c.value, framed(c.data) + (be_u64(c.energy_limit)
        + (be_u64(c.energy_price) + (framed(c.transaction_hash) + r2))));
}

proof fn lemma_timing_round_trip(c: ContextView, r3: Seq<u8>)
    ensures
        read_timing(timing_bytes(c) + r3) == Some((c.basic_cost, c.transaction_timestamp,
            c.block_timestamp, c.block_number, c.block_energy_limit, r3)),
{
    assert(timing_bytes(c) + r3 =~= be_u32(c.basic_cost) + (be_u64(c.transaction_timestamp)
        + (be_u64(c.block_timestamp) + (be_u64(c.block_number) + (be_u64(c.block_energy_limit)
        + r3)))));
    lemma_u64_round_trip(c.block_energy_limit, r3);
    lemma_u64_round_trip(c.block_number, be_u64(c.block_energy_limit) + r3);
    lemma_u64_round_trip(c.block_timestamp, be_u64(c.block_number) + (be_u64(
        c.block_energy_limit) + r3));
    lemma_u64_round_trip(c.transaction_timestamp, be_u64(c.block_timestamp) + (be_u64(
        c.block_number) + (be_u64(c.block_energy_limit) + r3)));
    lemma_u32_round_trip(c.basic_cost, be_u64(c.transaction_timestamp) + (be_u64(
        c.block_timestamp) + (be_u64(c.block_number) + (be_u64(c.block_energy_limit) + r3))));
}

proof fn lemma_block_round_trip(c: ContextView, rest: Seq<u8>)
    requires
        context_fits(c),
    ensures
        read_block(block_bytes(c) + rest) == Some((c.block_coinbase, c.block_previous_hash,
            c.block_difficulty, c.internal_call_depth, rest)),
{
    assert(block_bytes(c) + rest =~= framed(c.block_coinbase) + (framed(c.block_previous_hash)
        + (framed(c.block_difficulty) + (be_u32(c.internal_call_depth) + rest))));
    lemma_u32_round_trip(c.internal_call_depth, rest);
    lemma_framed_round_trip(c.block_difficulty, be_u32(c.internal_call_depth) + rest);
    lemma_framed_round_trip(c.block_previous_hash, framed(c.block_difficulty) + (be_u32(
        c.internal_call_depth) + rest));
    lemma_framed_round_trip(c.block_coinbase, framed(c.block_previous_hash) + (framed(
        c.block_difficulty) + (be_u32(c.internal_call_depth) + rest)));
}

/// Whatever follows an encoded context, reading it back gives the context
/// and leaves what follows.
#[verifier::rlimit(40)]
pub proof fn lemma_context_round_trip(c: ContextView, rest: Seq<u8>)
    requires
        context_fits(c),
    ensures
        read_context(context_bytes(c) + rest) == Some((c, rest)),
{
    let r3 = block_bytes(c) + rest;
    let r2 = timing_bytes(c) + r3;
    let r1 = payload_bytes(c) + r2;
    assert(context_bytes(c) + rest =~= parties_bytes(c) + r1);
    lemma_parties_round_trip(c, r1);
    lemma_payload_round_trip(c, r2);
    lemma_timing_round_trip(c, r3);
    lemma_block_round_trip(c, rest);
}

/// Decoding what `to_bytes` writes gives back the same context, field for field.
pub proof fn lemma_context_decodes_to_itself(c: ContextView)
    requires
        context_fits(c),
    ensures
        parse_context(context_bytes(c)) == Some(c),
{
    lemma_context_round_trip(c, Seq::empty());
    assert(context_bytes(c) + Seq::<u8>::empty() =~= context_bytes(c));
}

proof fn lemma_parties_extend(t: Seq<u8>, u: Seq<u8>)
    ensures
        match read_parties(t) {
            Some((a, b, c, d, e, r)) => read_parties(t + u) == Some((a, b, c, d, e, r + u)),
            None => true,
        },
{
    lemma_u8_extend(t, u);
    match read_u8(t) { None => {}, Some((_x, s1)) => {
    lemma_framed_extend(s1, u);
    match read_framed(s1) { None => {}, Some((_y, s2)) => {
    lemma_framed_extend(s2, u);
    match read_framed(s2) { None => {}, Some((_z, s3)) => {
    lemma_framed_extend(s3, u);
    match read_framed(s3) { None => {}, Some((_w, s4)) => {
    lemma_u64_extend(s4, u);
    }}}}}}}}
}

proof fn lemma_payload_extend(t: Seq<u8>, u: Seq<u8>)
    ensures
        match read_payload(t) {
            Some((a, b, c, d, e, r)) => read_payload(t + u) == Some((a, b, c, d, e, r + u)),
            None => true,
        },
{
    lemma_framed_extend(t, u);
    match read_framed(t) { None => {}, Some((_x, s1)) => {
    lemma_framed_extend(s1, u);
    match read_framed(s1) { None => {}, Some((_y, s2)) => {
    lemma_u64_extend(s2, u);
    match read_u64(s2) { None => {}, Some((_z, s3)) => {
    lemma_u64_extend(s3, u);
    match read_u64(s3) { None => {}, Some((_w, s4)) => {
    lemma_framed_extend(s4, u);
    }}}}}}}}
}

proof fn lemma_timing_extend(t: Seq<u8>, u: Seq<u8>)
    ensures
        match read_timing(t) {
            Some((a, b, c, d, e, r)) => read_timing(t + u) == Some((a, b, c, d, e, r + u)),
            None => true,
        },
{
    lemma_u32_extend(t, u);
    match read_u32(t) { None => {}, Some((_x, s1)) => {
    lemma_u64_extend(s1, u);
    match read_u64(s1) { None => {}, Some((_y, s2)) => {
    lemma_u64_extend(s2, u);
    match read_u64(s2) { None => {}, Some((_z, s3)) => {
    lemma_u64_extend(s3, u);
    match read_u64(s3) { None => {}, Some((_w, s4)) => {
    lemma_u64_extend(s4, u);
    }}}}}}}}
}

proof fn lemma_block_extend(t: Seq<u8>, u: Seq<u8>)
    ensures
        match read_block(t) {
            Some((a, b, c, d, r)) => read_block(t + u) == Some((a, b, c, d, r + u)),
            None => true,
        },
{
    lemma_framed_extend(t, u);
    match read_framed(t) { None => {}, Some((_x, s1)) => {
    lemma_framed_extend(s1, u);
    match read_framed(s1) { None => {}, Some((_y, s2)) => {
    lemma_framed_extend(s2, u);
    match read_framed(s2) { None => {}, Some((_z, s3)) => {
    lemma_u32_extend(s3, u);
    }}}}}}
}

/// A context read that succeeds goes the same way with more bytes behind it.
pub proof fn lemma_context_extend(t: Seq<u8>, u: Seq<u8>)
    ensures
        match read_context(t) {
            Some((c, r)) => read_context(t + u) == Some((c, r + u)),
            None => true,
        },
{
    lemma_parties_extend(t, u);
    match read_parties(t) { None => {}, Some((_a, _b, _c, _d, _e, s1)) => {
    lemma_payload_extend(s1, u);
    match read_payload(s1) { None => {}, Some((_f, _g, _h, _i, _j, s2)) => {
    lemma_timing_extend(s2, u);
    match read_timing(s2) { None => {}, Some((_k, _l, _m, _n, _o, s3)) => {
    lemma_block_extend(s3, u);
    }}}}}}
}

/// Every strict prefix of an encoded context fails to decode.
pub proof fn lemma_truncated_context_fails(c: ContextView, m: int)
    requires
        context_fits(c),
        0 <= m < context_bytes(c).len(),
    ensures
        parse_context(context_bytes(c).take(m)) is None,
{
    let s = context_bytes(c);
    let t = s.take(m);
    let u = s.skip(m);
    assert(t + u =~= s);
    lemma_context_round_trip(c, Seq::empty());
    assert(s + Seq::<u8>::empty() =~= s);
    lemma_context_extend(t, u);
    match read_context(t) {
        Some((c2, r)) => {
            assert((r + u).len() == 0);
        },
        None => {},
    }
}

impl TransactionContext {
    /// The wire form of this context.
    pub fn to_bytes(&self) -> (r: Vec<u8>)
        requires
            context_fits(self@),
        ensures
            r@ == context_bytes(self@),
    {
        let mut enc = NativeEncoder::new();
        self.write_parties(&mut enc);
        let ghost e1 = enc@;
        self.write_payload(&mut enc);
        let ghost e2 = enc@;
        self.write_timing(&mut enc);
        let ghost e3 = enc@;
        self.write_block(&mut enc);
        proof {
            let c = self@;
            assert(e1 =~= parties_bytes(c));
            lemma_concat_associative(e2, timing_bytes(c), block_bytes(c));
            lemma_concat_associative(e1, payload_bytes(c), timing_bytes(c) + block_bytes(c));
        }
        enc.to_bytes()
    }

    fn write_parties(&self, enc: &mut NativeEncoder)
        requires
            context_fits(self@),
        ensures
            final(enc)@ == old(enc)@ + parties_bytes(self@),
    {
        enc.encode_byte(self.transaction_type);
        enc.encode_bytes(self.address.as_slice());
        enc.encode_bytes(self.caller.as_slice());
        enc.encode_bytes(self.origin.as_slice());
        enc.encode_long(self.nonce);
        assert(enc@ =~= old(enc)@ + parties_bytes(self@));
    }

    fn write_payload(&self, enc: &mut NativeEncoder)
        requires
            context_fits(self@),
        ensures
            final(enc)@ == old(enc)@ + payload_bytes(self@),
    {
        enc.encode_bytes(self.value.as_slice());
        enc.encode_bytes(self.data.as_slice());
        enc.encode_long(self.energy_limit);
        enc.encode_long(self.energy_price);
        enc.encode_bytes(self.transaction_hash.as_slice());
        assert(enc@ =~= old(enc)@ + payload_bytes(self@));
    }

    fn write_timing(&self, enc: &mut NativeEncoder)
        ensures
            final(enc)@ == old(enc)@ + timing_bytes(self@),
    {
        enc.encode_int32(self.basic_cost);
        enc.encode_long(self.transaction_timestamp);
        enc.encode_long(self.block_timestamp);
        enc.encode_long(self.block_number);
        enc.encode_long(self.block_energy_limit);
        assert(enc@ =~= old(enc)@ + timing_bytes(self@));
    }

    fn write_block(&self, enc: &mut NativeEncoder)
        requires
            context_fits(self@),
        ensures
            final(enc)@ == old(enc)@ + block_bytes(self@),
    {
        enc.encode_bytes(self.block_coinbase.as_slice());
        enc.encode_bytes(self.block_previous_hash.as_slice());
        enc.encode_bytes(self.block_difficulty.as_slice());
        enc.encode_int32(self.internal_call_depth);
        assert(enc@ =~= old(enc)@ + block_bytes(self@));
    }
}

fn decode_parties(dec: &mut NativeDecoder) -> (r: Result<(u8, Vec<u8>, Vec<u8>, Vec<u8>, u64), DecodeError>)
    requires
        old(dec).wf(),
    ensures
        final(dec).wf(),
        match r {
            Ok((t, a, c, o, n)) => read_parties(old(dec).rest()) == Some((t, a@, c@, o@, n, final(dec).rest())),
            Err(_) => read_parties(old(dec).rest()) is None,
        },
{
    let t = match dec.decode_byte() {
        Ok(x) => x,
        Err(e) => return Err(e),
    };
    let a = match dec.decode_bytes() {
        Ok(x) => x,
        Err(e) => return Err(e),
    };
    let c = match dec.decode_bytes() {
        Ok(x) => x,
        Err(e) => return Err(e),
    };
    let o = match dec.decode_bytes() {
        Ok(x) => x,
        Err(e) => return Err(e),
    };
    let n = match dec.decode_long() {
        Ok(x) => x,
        Err(e) => return Err(e),
    };
    Ok((t, a, c, o, n))
}

fn decode_payload(dec: &mut NativeDecoder) -> (r: Result<(Vec<u8>, Vec<u8>, u64, u64, Vec<u8>), DecodeError>)
    requires
        old(dec).wf(),
    ensures
        final(dec).wf(),
        match r {
            Ok((v, d, l, p, h)) => read_payload(old(dec).rest()) == Some((v@, d@, l, p, h@, final(dec).rest())),
            Err(_) => read_payload(old(dec).rest()) is None,
        },
{
    let v = match dec.decode_bytes() {
        Ok(x) => x,
        Err(e) => return Err(e),
    };
    let d = match dec.decode_bytes() {
        Ok(x) => x,
        Err(e) => return Err(e),
    };
    let l = match dec.decode_long() {
        Ok(x) => x,
        Err(e) => return Err(e),
    };
    let p = match dec.decode_long() {
        Ok(x) => x,
        Err(e) => return Err(e),
    };
    let h = match dec.decode_bytes() {
        Ok(x) => x,
        Err(e) => return Err(e),
    };
    Ok((v, d, l, p, h))
}

fn decode_timing(dec: &mut NativeDecoder) -> (r: Result<(u32, u64, u64, u64, u64), DecodeError>)
    requires
        old(dec).wf(),
    ensures
        final(dec).wf(),
        match r {
            Ok((b, t, bt, n, l)) => read_timing(old(dec).rest()) == Some((b, t, bt, n, l, final(dec).rest())),
            Err(_) => read_timing(old(dec).rest()) is None,
        },
{
    let b = match dec.decode_int() {
        Ok(x) => x,
        Err(e) => return Err(e),
    };
    let t = match dec.decode_long() {
        Ok(x) => x,
        Err(e) => return Err(e),
    };
    let bt = match dec.decode_long() {
        Ok(x) => x,
        Err(e) => return Err(e),
    };
    let n = match dec.decode_long() {
        Ok(x) => x,
        Err(e) => return Err(e),
    };
    let l = match dec.decode_long() {
        Ok(x) => x,
        Err(e) => return Err(e),
    };
    Ok((b, t, bt, n, l))
}

fn decode_block(dec: &mut NativeDecoder) -> (r: Result<(Vec<u8>, Vec<u8>, Vec<u8>, u32), DecodeError>)
    requires
        old(dec).wf(),
    ensures
        final(dec).wf(),
        match r {
            Ok((cb, ph, df, dp)) => read_block(old(dec).rest()) == Some((cb@, ph@, df@, dp, final(dec).rest())),
            Err(_) => read_block(old(dec).rest()) is None,
        },
{
    let cb = match dec.decode_bytes() {
        Ok(x) => x,
        Err(e) => return Err(e),
    };
    let ph = match dec.decode_bytes() {
        Ok(x) => x,
        Err(e) => return Err(e),
    };
    let df = match dec.decode_bytes() {
        Ok(x) => x,
        Err(e) => return Err(e),
    };
    let dp = match dec.decode_int() {
        Ok(x) => x,
        Err(e) => return Err(e),
    };
    Ok((cb, ph, df, dp))
}

impl TransactionContext {
    /// Decodes a context from the front of `bytes`, in the order that
    /// `to_bytes` writes it; bytes after the last field are ignored.
    pub fn from_bytes(bytes: &[u8]) -> (r: Result<TransactionContext, DecodeError>)
        ensures
            match r {
                Ok(c) => parse_context(bytes@) == Some(c@),
                Err(_) => parse_context(bytes@) is None,
            },
    {
        let mut dec = NativeDecoder::new(bytes);
        let (transaction_type, address, caller, origin, nonce) = match decode_parties(&mut dec) {
            Ok(x) => x,
            Err(e) => return Err(e),
        };
        let (value, data, energy_limit, energy_price, transaction_hash) = match decode_payload(
            &mut dec,
        ) {
            Ok(x) => x,
            Err(e) => return Err(e),
        };
        let (basic_cost, transaction_timestamp, block_timestamp, block_number, block_energy_limit) =
            match decode_timing(&mut dec) {
            Ok(x) => x,
            Err(e) => return Err(e),
        };
        let (block_coinbase, block_previous_hash, block_difficulty, internal_call_depth) =
            match decode_block(&mut dec) {
            Ok(x) => x,
            Err(e) => return Err(e),
        };
        Ok(TransactionContext {
            transaction_type,
            address,
            caller,
            origin,
            nonce,
            value,
            data,
            energy_limit,
            energy_price,
            transaction_hash,
            basic_cost,
            transaction_timestamp,
            block_timestamp,
            block_number,
            block_energy_limit,
            block_coinbase,
            block_previous_hash,
            block_difficulty,
            internal_call_depth,
        })
    }
}

/// One event that a transaction emitted.
#[derive(Debug)]
pub struct Log {
    pub address: Vec<u8>,
    pub topics: Vec<Vec<u8>>,
    pub data: Vec<u8>,
}

/// The mathematical content of a `Log`.
pub struct LogView {
    pub address: Seq<u8>,
    pub topics: Seq<Seq<u8>>,
    pub data: Seq<u8>,
}

impl View for Log {
    type V = LogView;

    open spec fn view(&self) -> LogView {
        LogView { address: self.address@, topics: self.topics@.map_values(|t: Vec<u8>| t@), data: self.data@ }
    }
}

/// What the runtime reports of one executed transaction.
#[derive(Debug)]
pub struct TransactionResult {
    pub code: u32,
    pub return_data: Vec<u8>,
    pub energy_used: u64,
    pub storage_root_hash: u32,
    pub logs: Vec<Log>,
}

/// The mathematical content of a `TransactionResult`.
pub struct ResultView {
    pub code: u32,
    pub return_data: Seq<u8>,
    pub energy_used: u64,
    pub storage_root_hash: u32,
    pub logs: Seq<LogView>,
}

impl View for TransactionResult {
    type V = ResultView;

    open spec fn view(&self) -> ResultView {
        ResultView {
            code: self.code,
            return_data: self.return_data@,
            energy_used: self.energy_used,
            storage_root_hash: self.storage_root_hash,
            logs: self.logs@.map_values(|l: Log| l@),
        }
    }
}

/// Reads `n` length-prefixed byte strings in a row from the front of `s`.
pub open spec fn read_topics(s: Seq<u8>, n: nat) -> Option<(Seq<Seq<u8>>, Seq<u8>)>
    decreases n,
{
    if n == 0 {
        Some((Seq::empty(), s))
    } else {
        match read_topics(s, (n - 1) as nat) {
            None => None,
            Some((ts, r)) => match read_framed(r) {
                None => None,
                Some((t, r2)) => Some((ts.push(t), r2)),
            },
        }
    }
}

/// Reads one log: its address, its topic count and topics, then its data.
pub open spec fn read_log(s: Seq<u8>) -> Option<(LogView, Seq<u8>)> {
    match read_framed(s) { None => None, Some((address, s)) =>
    match read_u32(s) { None => None, Some((n, s)) =>
    match read_topics(s, n as nat) { None => None, Some((topics, s)) =>
    match read_framed(s) { None => None, Some((data, s)) =>
    Some((LogView { address, topics, data }, s)) }}}}
}

/// Reads `n` logs in a row from the front of `s`.
pub open spec fn read_logs(s: Seq<u8>, n: nat) -> Option<(Seq<LogView>, Seq<u8>)>
    decreases n,
{
    if n == 0 {
        Some((Seq::empty(), s))
    } else {
        match read_logs(s, (n - 1) as nat) {
            None => None,
            Some((ls, r)) => match read_log(r) {
                None => None,
                Some((l, r2)) => Some((ls.push(l), r2)),
            },
        }
    }
}

/// Reads a result from the front of `s`: status code, return data, energy
/// used, storage root marker, then the log count and the logs; gives the
/// result and the bytes after its last log.
pub open spec fn read_result(s: Seq<u8>) -> Option<(ResultView, Seq<u8>)> {
    match read_u32(s) { None => None, Some((code, s)) =>
    match read_framed(s) { None => None, Some((return_data, s)) =>
    match read_u64(s) { None => None, Some((energy_used, s)) =>
    match read_u32(s) { None => None, Some((storage_root_hash, s)) =>
    match read_u32(s) { None => None, Some((n, s)) =>
    match read_logs(s, n as nat) { None => None, Some((logs, s)) =>
    Some((ResultView { code, return_data, energy_used, storage_root_hash, logs }, s)) }}}}}}
}

/// The result at the front of `s`, if one can be read there; bytes after the
/// last log are ignored.
pub open spec fn parse_result(s: Seq<u8>) -> Option<ResultView> {
    match read_result(s) {
        Some((v, _rest)) => Some(v),
        None => None,
    }
}

proof fn lemma_topics_extend(t: Seq<u8>, u: Seq<u8>, n: nat)
    ensures
        match read_topics(t, n) {
            Some((v, r)) => read_topics(t + u, n) == Some((v, r + u)),
            None => true,
        },
    decreases n,
{
    if n > 0 {
        lemma_topics_extend(t, u, (n - 1) as nat);
        match read_topics(t, (n - 1) as nat) {
            Some((_v, r)) => lemma_framed_extend(r, u),
            None => {},
        }
    } else {
    }
}

proof fn lemma_log_extend(t: Seq<u8>, u: Seq<u8>)
    ensures
        match read_log(t) {
            Some((v, r)) => read_log(t + u) == Some((v, r + u)),
            None => true,
        },
{
    lemma_framed_extend(t, u);
    match read_framed(t) { None => {}, Some((_a, s1)) => {
    lemma_u32_extend(s1, u);
    match read_u32(s1) { None => {}, Some((n, s2)) => {
    lemma_topics_extend(s2, u, n as nat);
    match read_topics(s2, n as nat) { None => {}, Some((_ts, s3)) => {
    lemma_framed_extend(s3, u);
    }}}}}}
}

proof fn lemma_logs_extend(t: Seq<u8>, u: Seq<u8>, n: nat)
    ensures
        match read_logs(t, n) {
            Some((v, r)) => read_logs(t + u, n) == Some((v, r + u)),
            None => true,
        },
    decreases n,
{
    if n > 0 {
        lemma_logs_extend(t, u, (n - 1) as nat);
        match read_logs(t, (n - 1) as nat) {
            Some((_v, r)) => lemma_log_extend(r, u),
            None => {},
        }
    }
}

/// A result read that succeeds goes the same way with more bytes behind it.
pub proof fn lemma_result_extend(t: Seq<u8>, u: Seq<u8>)
    ensures
        match read_result(t) {
            Some((v, r)) => read_result(t + u) == Some((v, r + u)),
            None => true,
        },
{
    lemma_u32_extend(t, u);
    match read_u32(t) { None => {}, Some((_a, s1)) => {
    lemma_framed_extend(s1, u);
    match read_framed(s1) { None => {}, Some((_b, s2)) => {
    lemma_u64_extend(s2, u);
    match read_u64(s2) { None => {}, Some((_c, s3)) => {
    lemma_u32_extend(s3, u);
    match read_u32(s3) { None => {}, Some((_d, s4)) => {
    lemma_u32_extend(s4, u);
    match read_u32(s4) { None => {}, Some((n, s5)) => {
    lemma_logs_extend(s5, u, n as nat);
    }}}}}}}}}}
}

/// Where a buffer holds exactly one result, every strict prefix of it fails
/// to decode.
pub proof fn lemma_truncated_result_fails(s: Seq<u8>, v: ResultView, m: int)
    requires
        read_result(s) == Some((v, Seq::<u8>::empty())),
        0 <= m < s.len(),
    ensures
        parse_result(s.take(m)) is None,
{
    let t = s.take(m);
    let u = s.skip(m);
    assert(t + u =~= s);
    lemma_result_extend(t, u);
    match read_result(t) {
        Some((_w, r)) => {
            assert((r + u).len() == 0);
        },
        None => {},
    }
}

/// Once a run of topic reads fails, every longer run fails too.
proof fn lemma_topics_stay_failed(s: Seq<u8>, j: nat, n: nat)
    requires
        j <= n,
        read_topics(s, j) is None,
    ensures
        read_topics(s, n) is None,
    decreases n - j,
{
    if j < n {
        lemma_topics_stay_failed(s, j + 1, n);
    }
}

/// Once a run of log reads fails, every longer run fails too.
proof fn lemma_logs_stay_failed(s: Seq<u8>, j: nat, n: nat)
    requires
        j <= n,
        read_logs(s, j) is None,
    ensures
        read_logs(s, n) is None,
    decreases n - j,
{
    if j < n {
        lemma_logs_stay_failed(s, j + 1, n);
    }
}

fn decode_log(dec: &mut NativeDecoder) -> (r: Result<Log, DecodeError>)
    requires
        old(dec).wf(),
    ensures
        final(dec).wf(),
        match r {
            Ok(l) => read_log(old(dec).rest()) == Some((l@, final(dec).rest())),
            Err(_) => read_log(old(dec).rest()) is None,
        },
{
    let ghost s_in = dec.rest();
    let address = match dec.decode_bytes() {
        Ok(v) => v,
        Err(e) => return Err(e),
    };
    let ghost s1 = dec.rest();
    let num_of_topics = match dec.decode_int() {
        Ok(v) => v,
        Err(e) => return Err(e),
    };
    let ghost s0 = dec.rest();
    let mut topics: Vec<Vec<u8>> = Vec::new();
    let mut j: u32 = 0;
    while j < num_of_topics
        invariant
            dec.wf(),
            j <= num_of_topics,
            s_in == old(dec).rest(),
            read_framed(s_in) == Some((address@, s1)),
            read_u32(s1) == Some((num_of_topics, s0)),
            read_topics(s0, j as nat) == Some((topics@.map_values(|t: Vec<u8>| t@), dec.rest())),
        decreases num_of_topics - j,
    {
        let ghost before = topics@.map_values(|t: Vec<u8>| t@);
        match dec.decode_bytes() {
            Ok(t) => {
                topics.push(t);
                assert(topics@.map_values(|t: Vec<u8>| t@) =~= before.push(t@));
            },
            Err(e) => {
                proof {
                    assert(read_topics(s0, (j + 1) as nat) is None);
                    lemma_topics_stay_failed(s0, (j + 1) as nat, num_of_topics as nat);
                    assert(read_topics(s0, num_of_topics as nat) is None);
                }
                return Err(e);
            },
        }
        j = j + 1;
    }
    let data = match dec.decode_bytes() {
        Ok(v) => v,
        Err(e) => return Err(e),
    };
    Ok(Log { address, topics, data })
}

impl TransactionResult {
    /// Decodes one result from its wire form; fails exactly when the bytes
    /// run out before the last field.
    pub fn new(bytes: Vec<u8>) -> (r: Result<TransactionResult, DecodeError>)
        ensures
            match r {
                Ok(t) => parse_result(bytes@) == Some(t@),
                Err(_) => parse_result(bytes@) is None,
            },
    {
        let mut decoder = NativeDecoder::new(bytes.as_slice());
        let ghost s_in = decoder.rest();
        let code = match decoder.decode_int() {
            Ok(v) => v,
            Err(e) => return Err(e),
        };
        let ghost s1 = decoder.rest();
        let return_data = match decoder.decode_bytes() {
            Ok(v) => v,
            Err(e) => return Err(e),
        };
        let ghost s2 = decoder.rest();
        let energy_used = match decoder.decode_long() {
            Ok(v) => v,
            Err(e) => return Err(e),
        };
        let ghost s3 = decoder.rest();
        let storage_root_hash = match decoder.decode_int() {
            Ok(v) => v,
            Err(e) => return Err(e),
        };
        let ghost s4 = decoder.rest();
        let num_of_logs = match decoder.decode_int() {
            Ok(v) => v,
            Err(e) => return Err(e),
        };
        let ghost s0 = decoder.rest();
        let mut logs: Vec<Log> = Vec::new();
        let mut i: u32 = 0;
        while i < num_of_logs
            invariant
                decoder.wf(),
                i <= num_of_logs,
                s_in == bytes@,
                read_u32(s_in) == Some((code, s1)),
                read_framed(s1) == Some((return_data@, s2)),
                read_u64(s2) == Some((energy_used, s3)),
                read_u32(s3) == Some((storage_root_hash, s4)),
                read_u32(s4) == Some((num_of_logs, s0)),
                read_logs(s0, i as nat) == Some((logs@.map_values(|l: Log| l@), decoder.rest())),
            decreases num_of_logs - i,
        {
            let ghost before = logs@.map_values(|l: Log| l@);
            match decode_log(&mut decoder) {
                Ok(l) => {
                    logs.push(l);
                    assert(logs@.map_values(|l: Log| l@) =~= before.push(l@));
                },
                Err(e) => {
                    proof { lemma_logs_stay_failed(s0, (i + 1) as nat, num_of_logs as nat); }
                    return Err(e);
                },
            }
            i = i + 1;
        }
        Ok(TransactionResult { code, return_data, energy_used, storage_root_hash, logs })
    }
}

} // verus!
