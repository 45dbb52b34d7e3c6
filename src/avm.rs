//! The execution facade: batch framing, the runtime's lifecycle, and one
//! `execute` call from attachment to detachment.
use vstd::prelude::*;
use vstd::seq_lib::lemma_concat_associative;
use crate::codec::{
    be_u32, fits_prefix, lemma_framed_extend, lemma_u32_extend, lemma_u32_round_trip, framed, read_framed, read_u32, DecodeError, NativeDecoder,
    NativeEncoder,
};
use crate::types::{
    context_bytes, context_fits, parse_result, ContextView, ResultView, TransactionContext,
    TransactionResult,
};

verus! {

/// Why an `execute` call produced no results.
#[derive(Debug, Clone, Copy, PartialEq, Eq, Structural)]
pub enum AvmError {
    /// The runtime's response was malformed or cut short.
    Decoding,
    /// The runtime returned no response for the batch.
    ExecutionFailed,
}

/// A context that can go on the wire inside a batch: its fields and its
/// whole encoding fit their length prefixes.
pub open spec fn context_framable(c: ContextView) -> bool {
    context_fits(c) && fits_prefix(context_bytes(c))
}

/// A batch that can go on the wire.
pub open spec fn batch_framable(cs: Seq<ContextView>) -> bool {
    cs.len() <= u32::MAX && forall|i: int| 0 <= i < cs.len() ==> context_framable(#[trigger] cs[i])
}

/// The encoded contexts of a batch, each length-prefixed, in order.
pub open spec fn batch_frames(cs: Seq<ContextView>) -> Seq<u8>
    decreases cs.len(),
{
    if cs.len() == 0 {
        Seq::empty()
    } else {
        batch_frames(cs.drop_last()) + framed(context_bytes(cs.last()))
    }
}

/// The wire form of a batch: the count, then every framed context.
pub open spec fn batch_bytes(cs: Seq<ContextView>) -> Seq<u8> {
    be_u32(cs.len() as u32) + batch_frames(cs)
}

/// The views of a list of contexts.
pub open spec fn context_views(ts: Seq<TransactionContext>) -> Seq<ContextView> {
    ts.map_values(|t: TransactionContext| t@)
}

/// The views of a list of results.
pub open spec fn result_views(rs: Seq<TransactionResult>) -> Seq<ResultView> {
    rs.map_values(|r: TransactionResult| r@)
}

/// Reads `n` framed results in a row from the front of `s`; each frame must
/// hold a well-formed result.
pub open spec fn read_results(s: Seq<u8>, n: nat) -> Option<(Seq<ResultView>, Seq<u8>)>
    decreases n,
{
    if n == 0 {
        Some((Seq::empty(), s))
    } else {
        match read_results(s, (n - 1) as nat) {
            None => None,
            Some((rs, r)) => match read_framed(r) {
                None => None,
                Some((frame, r2)) => match parse_result(frame) {
                    None => None,
                    Some(v) => Some((rs.push(v), r2)),
                },
            },
        }
    }
}

/// Reads a response: the result count, then every framed result; gives the
/// results and the bytes after the last frame.
pub open spec fn read_batch(s: Seq<u8>) -> Option<(Seq<ResultView>, Seq<u8>)> {
    match read_u32(s) {
        None => None,
        Some((n, r)) => read_results(r, n as nat),
    }
}

/// The results of a response, if it can be read; bytes after the last
/// result are ignored.
pub open spec fn parse_results(s: Seq<u8>) -> Option<Seq<ResultView>> {
    match read_batch(s) {
        None => None,
        Some((rs, _r)) => Some(rs),
    }
}

proof fn lemma_results_extend(t: Seq<u8>, u: Seq<u8>, n: nat)
    ensures
        match read_results(t, n) {
            Some((v, r)) => read_results(t + u, n) == Some((v, r + u)),
            None => true,
        },
    decreases n,
{
    if n > 0 {
        lemma_results_extend(t, u, (n - 1) as nat);
        match read_results(t, (n - 1) as nat) {
            Some((_v, r)) => lemma_framed_extend(r, u),
            None => {},
        }
    }
}

/// Where a buffer holds exactly one response, every strict prefix of it
/// fails to decode.
pub proof fn lemma_truncated_response_fails(s: Seq<u8>, rs: Seq<ResultView>, m: int)
    requires
        read_batch(s) == Some((rs, Seq::<u8>::empty())),
        0 <= m < s.len(),
    ensures
        parse_results(s.take(m)) is None,
{
    let t = s.take(m);
    let u = s.skip(m);
    assert(t + u =~= s);
    lemma_u32_extend(t, u);
    match read_u32(t) {
        Some((n, r0)) => {
            lemma_results_extend(r0, u, n as nat);
            match read_results(r0, n as nat) {
                Some((_w, r)) => {
                    assert((r + u).len() == 0);
                },
                None => {},
            }
        },
        None => {},
    }
}

/// What an `execute` call reports for the runtime's response.
pub open spec fn execution_outcome(
    response: Option<Seq<u8>>,
    r: Result<Vec<TransactionResult>, AvmError>,
) -> bool {
    match response {
        None => r == Err::<Vec<TransactionResult>, AvmError>(AvmError::ExecutionFailed),
        Some(b) => match parse_results(b) {
            None => r == Err::<Vec<TransactionResult>, AvmError>(AvmError::Decoding),
            Some(rs) => r is Ok && result_views(r->Ok_0@) == rs,
        },
    }
}

proof fn lemma_results_stay_failed(s: Seq<u8>, j: nat, n: nat)
    requires
        j <= n,
        read_results(s, j) is None,
    ensures
        read_results(s, n) is None,
    decreases n - j,
{
    if j < n {
        lemma_results_stay_failed(s, j + 1, n);
    }
}

/// An empty batch goes on the wire as a zero count and nothing else, and a
/// response holding a zero count is an empty result list, not a failure.
pub proof fn lemma_empty_batch()
    ensures
        batch_bytes(Seq::<ContextView>::empty()) == be_u32(0),
        read_u32(batch_bytes(Seq::<ContextView>::empty())) == Some((0u32, Seq::<u8>::empty())),
        parse_results(be_u32(0)) == Some(Seq::<ResultView>::empty()),
        forall|r: Result<Vec<TransactionResult>, AvmError>|
            execution_outcome(Some(be_u32(0)), r) <==> (r is Ok && r->Ok_0@.len() == 0),
{
    assert(batch_bytes(Seq::<ContextView>::empty()) =~= be_u32(0));
    lemma_u32_round_trip(0, Seq::<u8>::empty());
    assert(be_u32(0) + Seq::<u8>::empty() =~= be_u32(0));
    assert forall|r: Result<Vec<TransactionResult>, AvmError>|
        execution_outcome(Some(be_u32(0)), r) <==> (r is Ok && r->Ok_0@.len() == 0) by {
        if r is Ok {
            assert(result_views(r->Ok_0@).len() == r->Ok_0@.len());
            if r->Ok_0@.len() == 0 {
                assert(result_views(r->Ok_0@) =~= Seq::<ResultView>::empty());
            }
        }
    }
}

/// Encodes a batch of contexts: their count, then each one length-prefixed.
pub fn encode_transaction_contexts(transactions: &Vec<TransactionContext>) -> (r: Vec<u8>)
    requires
        batch_framable(context_views(transactions@)),
    ensures
        r@ == batch_bytes(context_views(transactions@)),
{
    let ghost cs = context_views(transactions@);
    let mut encoder = NativeEncoder::new();
    encoder.encode_int32(transactions.len() as u32);
    let mut i: usize = 0;
    while i < transactions.len()
        invariant
            i <= transactions@.len(),
            cs == context_views(transactions@),
            batch_framable(cs),
            encoder@ == be_u32(cs.len() as u32) + batch_frames(cs.take(i as int)),
        decreases transactions@.len() - i,
    {
        assert(context_framable(cs[i as int]));
        let bytes = transactions[i].to_bytes();
        encoder.encode_bytes(bytes.as_slice());
        proof {
            let next = cs.take(i + 1);
            assert(next.drop_last() =~= cs.take(i as int));
            lemma_concat_associative(be_u32(cs.len() as u32), batch_frames(cs.take(i as int)),
                framed(bytes@));
        }
        i = i + 1;
    }
    assert(cs.take(i as int) =~= cs);
    encoder.to_bytes()
}

/// Decodes a response into its results, in order; fails exactly when the
/// bytes run out or a frame does not hold a well-formed result.
pub fn decode_transaction_results(bytes: &Vec<u8>) -> (r: Result<
    Vec<TransactionResult>,
    DecodeError,
>)
    ensures
        match r {
            Ok(rs) => parse_results(bytes@) == Some(result_views(rs@)),
            Err(_) => parse_results(bytes@) is None,
        },
{
    let mut results: Vec<TransactionResult> = Vec::new();
    let mut decoder = NativeDecoder::new(bytes.as_slice());
    let length = match decoder.decode_int() {
        Ok(v) => v,
        Err(e) => return Err(e),
    };
    let ghost s0 = decoder.rest();
    let mut i: u32 = 0;
    while i < length
        invariant
            decoder.wf(),
            i <= length,
            read_u32(bytes@) == Some((length, s0)),
            read_results(s0, i as nat) == Some((result_views(results@), decoder.rest())),
        decreases length - i,
    {
        let ghost before = result_views(results@);
        let frame = match decoder.decode_bytes() {
            Ok(v) => v,
            Err(e) => {
                proof { lemma_results_stay_failed(s0, (i + 1) as nat, length as nat); }
                return Err(e);
            },
        };
        match TransactionResult::new(frame) {
            Ok(t) => {
                results.push(t);
                assert(result_views(results@) =~= before.push(t@));
            },
            Err(e) => {
                proof { lemma_results_stay_failed(s0, (i + 1) as nat, length as nat); }
                return Err(e);
            },
        }
        i = i + 1;
    }
    Ok(results)
}

/// Turns the runtime's response into the results of the batch: no response
/// is an execution failure, a malformed one a decoding failure.
pub fn complete_execution(response: Option<Vec<u8>>) -> (r: Result<
    Vec<TransactionResult>,
    AvmError,
>)
    ensures
        execution_outcome(response_view(response), r),
{
    match response {
        None => Err(AvmError::ExecutionFailed),
        Some(bytes) => match decode_transaction_results(&bytes) {
            Ok(rs) => Ok(rs),
            Err(_) => Err(AvmError::Decoding),
        },
    }
}

/// The view of a response as bytes, if there is one.
pub open spec fn response_view(response: Option<Vec<u8>>) -> Option<Seq<u8>> {
    match response {
        Some(b) => Some(b@),
        None => None,
    }
}

/// Whether the runtime has booted, and how many attachments the calling
/// thread holds on it.
pub struct RuntimeLifecycle {
    started: bool,
    attached: u64,
}

impl RuntimeLifecycle {
    /// Whether the runtime has booted.
    pub closed spec fn is_started(&self) -> bool {
        self.started
    }

    /// How many attachments are held.
    pub closed spec fn attachments(&self) -> nat {
        self.attached as nat
    }

    /// A runtime that has not booted, with nothing attached.
    pub fn new() -> (r: RuntimeLifecycle)
        ensures
            !r.is_started(),
            r.attachments() == 0,
    {
        RuntimeLifecycle { started: false, attached: 0 }
    }

    /// Marks the runtime as booted; returns whether this call is the one that
    /// must boot it (the first), so later calls do nothing.
    pub fn ensure_started(&mut self) -> (boot: bool)
        ensures
            boot == !old(self).is_started(),
            final(self).is_started(),
            final(self).attachments() == old(self).attachments(),
    {
        let boot = !self.started;
        self.started = true;
        boot
    }

    /// Whether the runtime has booted.
    pub fn started(&self) -> (r: bool)
        ensures
            r == self.is_started(),
    {
        self.started
    }

    /// How many attachments are held.
    pub fn attachment_count(&self) -> (r: u64)
        ensures
            r as nat == self.attachments(),
    {
        self.attached
    }

    /// Registers the calling thread with the running runtime.
    pub fn attach(&mut self)
        requires
            old(self).is_started(),
            old(self).attachments() < u64::MAX,
        ensures
            final(self).is_started(),
            final(self).attachments() == old(self).attachments() + 1,
    {
        self.attached = self.attached + 1;
    }

    /// Releases one attachment of the calling thread.
    pub fn detach(&mut self)
        requires
            old(self).attachments() > 0,
        ensures
            final(self).is_started() == old(self).is_started(),
            final(self).attachments() == old(self).attachments() - 1,
    {
        self.attached = self.attached - 1;
    }
}

/// Runs one batch: attaches, encodes the batch, hands it to `invoke` (the
/// runtime's entry point), turns its response into results and detaches,
/// on the failing paths as on the succeeding one.
pub fn execute<F>(
    lifecycle: &mut RuntimeLifecycle,
    transactions: &Vec<TransactionContext>,
    invoke: F,
) -> (r: Result<Vec<TransactionResult>, AvmError>) where F: FnOnce(Vec<u8>) -> Option<Vec<u8>>
    requires
        old(lifecycle).is_started(),
        old(lifecycle).attachments() < u64::MAX,
        batch_framable(context_views(transactions@)),
        forall|p: Vec<u8>| invoke.requires((p,)),
    ensures
        final(lifecycle).is_started(),
        final(lifecycle).attachments() == old(lifecycle).attachments(),
        exists|p: Vec<u8>, response: Option<Vec<u8>>|
            p@ == batch_bytes(context_views(transactions@)) && invoke.ensures((p,), response)
                && execution_outcome(response_view(response), r),
{
    lifecycle.attach();
    let payload = encode_transaction_contexts(transactions);
    let ghost sent = payload;
    let response = invoke(payload);
    let ghost got = response;
    let r = complete_execution(response);
    lifecycle.detach();
    assert(invoke.ensures((sent,), got) && execution_outcome(response_view(got), r));
    r
}

} // verus!
