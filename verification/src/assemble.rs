//! Per-segment payload decoding, the results table, and reassembly of
//! the final audio buffer in segment-index order.

use crate::errors::TtsError;
use crate::request::RemoteReply;
use crate::request::interpret_reply;
use crate::request::interpret_reply_spec;
use vstd::prelude::*;

verus! {

#[verifier::external_type_specification]
#[verifier::external_body]
pub struct ExDecodeError(base64::DecodeError);

/// Whether `s` is a well-formed encoding under the standard base64
/// alphabet with padding, so that decoding it succeeds.
pub uninterp spec fn base64_ok(s: Seq<char>) -> bool;

/// The bytes that the standard base64 alphabet decoding of `s` stands
/// for, when `s` is a well-formed encoding.
pub uninterp spec fn base64_decoded(s: Seq<char>) -> Seq<u8>;

/// Relies on base64's `STANDARD` engine `decode`: the result is a
/// function of the input characters alone; a well-formed encoding
/// decodes to its bytes, anything else is an error.
#[verifier::external_body]
fn base64_decode(s: &str) -> (r: Result<Vec<u8>, base64::DecodeError>)
    ensures
        r is Ok <==> base64_ok(s@),
        r matches Ok(b) ==> b@ == base64_decoded(s@),
{
    base64::Engine::decode(&base64::engine::general_purpose::STANDARD, s)
}

/// Decode one segment's text-safe payload into raw audio bytes; exactly
/// the ill-formed encodings are a `DecodeFailure`.
pub fn decode_segment(s: &str) -> (r: Result<Vec<u8>, TtsError>)
    ensures
        r is Ok <==> base64_ok(s@),
        r matches Ok(b) ==> b@ == base64_decoded(s@),
        r is Err ==> r->Err_0 == TtsError::DecodeFailure,
{
    match base64_decode(s) {
        Ok(b) => Ok(b),
        Err(_) => Err(TtsError::DecodeFailure),
    }
}

/// Turn the outcome of one remote call into this segment's decoded
/// payload or its error: a missing reply is a transport failure, a
/// classified reply error propagates, a present payload is decoded, and
/// succeeds exactly when it is well-formed.
pub fn complete_segment(outcome: Option<RemoteReply>) -> (r: Result<Vec<u8>, TtsError>)
    ensures
        outcome is None ==> r == Err::<Vec<u8>, TtsError>(TtsError::TransportFailure),
        outcome matches Some(reply) ==> (match interpret_reply_spec(reply) {
            Ok(v) => (r is Ok <==> base64_ok(v@)) && (r matches Ok(b) ==> b@ == base64_decoded(
                v@,
            )) && (r is Err ==> r->Err_0 == TtsError::DecodeFailure),
            Err(e) => r == Err::<Vec<u8>, TtsError>(e),
        }),
{
    match outcome {
        None => Err(TtsError::TransportFailure),
        Some(reply) => match interpret_reply(reply) {
            Err(e) => Err(e),
            Ok(v) => decode_segment(v.as_str()),
        },
    }
}

/// A fresh results table with one empty slot per segment.
pub fn new_results_table(n: usize) -> (r: Vec<Option<Vec<u8>>>)
    ensures
        r@.len() == n,
        forall|i: int| 0 <= i < n ==> r@[i] is None,
{
    let mut table: Vec<Option<Vec<u8>>> = Vec::new();
    let mut i: usize = 0;
    while i < n
        invariant
            i <= n,
            table@.len() == i,
            forall|j: int| 0 <= j < i ==> table@[j] is None,
        decreases n - i,
    {
        table.push(None);
        i = i + 1;
    }
    table
}

/// Record one completed call in its own reserved slot; no other slot is
/// touched.
pub fn record_result(table: &mut Vec<Option<Vec<u8>>>, index: usize, payload: Option<Vec<u8>>)
    requires
        index < old(table)@.len(),
    ensures
        final(table)@ == old(table)@.update(index as int, payload),
{
    table.set(index, payload);
}

/// Every slot of the table holds a payload.
pub open spec fn all_present(results: Seq<Option<Vec<u8>>>) -> bool {
    forall|i: int| 0 <= i < results.len() ==> results[i] is Some
}

/// The concatenation, in ascending index order, of the payloads present
/// in the table (absent slots contribute nothing).
pub open spec fn concat_payloads(results: Seq<Option<Vec<u8>>>) -> Seq<u8>
    decreases results.len(),
{
    if results.len() == 0 {
        seq![]
    } else {
        (match results[0] {
            Some(b) => b@,
            None => seq![],
        }) + concat_payloads(results.drop_first())
    }
}

/// Concatenate every segment's decoded payload in ascending index order;
/// if any slot is empty the whole operation is a `PartialFailure` and no
/// bytes are returned.
pub fn reassemble(results: Vec<Option<Vec<u8>>>) -> (r: Result<Vec<u8>, TtsError>)
    ensures
        r is Ok <==> all_present(results@),
        r matches Ok(b) ==> b@ == concat_payloads(results@),
        r is Err ==> r->Err_0 == TtsError::PartialFailure,
{
    let n = results.len();
    let mut i: usize = 0;
    while i < n
        invariant
            i <= n,
            n == results@.len(),
            forall|j: int| 0 <= j < i ==> results@[j] is Some,
        decreases n - i,
    {
        if results[i].is_none() {
            return Err(TtsError::PartialFailure);
        }
        i = i + 1;
    }
    let ghost all = results@;
    let mut rest = results;
    let mut out: Vec<u8> = Vec::new();
    proof {
        assert(all.skip(0) =~= all);
        assert(out@ + concat_payloads(all) =~= concat_payloads(all));
    }
    while rest.len() > 0
        invariant
            all_present(all),
            rest@.len() <= all.len(),
            rest@ == all.skip(all.len() - rest@.len()),
            concat_payloads(all) == out@ + concat_payloads(rest@),
        decreases rest@.len(),
    {
        let ghost k = all.len() - rest@.len();
        let ghost pre = rest@;
        let head = rest.remove(0);
        proof {
            assert(pre[0] == all[k as int]);
            assert(pre.drop_first() =~= all.skip(k as int + 1));
            assert(rest@ =~= pre.drop_first());
        }
        match head {
            Some(mut b) => {
                out.append(&mut b);
            },
            None => {
                proof {
                    assert(all[k as int] is Some);
                    assert(false);
                }
            },
        }
    }
    proof {
        assert(concat_payloads(rest@) =~= Seq::<u8>::empty());
        assert(out@ + concat_payloads(rest@) =~= out@);
    }
    Ok(out)
}

/// The table after a run of completions: each entry of `order` records
/// its segment's payload into its own slot, in arrival order.
pub open spec fn apply_records(
    table: Seq<Option<Vec<u8>>>,
    order: Seq<int>,
    payloads: Seq<Vec<u8>>,
) -> Seq<Option<Vec<u8>>>
    decreases order.len(),
{
    if order.len() == 0 {
        table
    } else {
        apply_records(
            table.update(order[0], Some(payloads[order[0]])),
            order.drop_first(),
            payloads,
        )
    }
}

/// After the recording run, a slot holds its own payload if its index
/// arrived at all, and is untouched otherwise.
proof fn lemma_apply_records_slot(
    table: Seq<Option<Vec<u8>>>,
    order: Seq<int>,
    payloads: Seq<Vec<u8>>,
    j: int,
)
    requires
        table.len() == payloads.len(),
        forall|k: int| 0 <= k < order.len() ==> 0 <= #[trigger] order[k] < payloads.len(),
        0 <= j < payloads.len(),
    ensures
        apply_records(table, order, payloads)[j] == if order.contains(j) {
            Some(payloads[j])
        } else {
            table[j]
        },
    decreases order.len(),
{
    if order.len() > 0 {
        let updated = table.update(order[0], Some(payloads[order[0]]));
        lemma_apply_records_slot(updated, order.drop_first(), payloads, j);
        if order.drop_first().contains(j) {
            let w = choose|w: int| 0 <= w < order.drop_first().len()
                && order.drop_first()[w] == j;
            assert(order[w + 1] == j);
        } else if order.contains(j) {
            let w = choose|w: int| 0 <= w < order.len() && order[w] == j;
            if w > 0 {
                assert(order.drop_first()[w - 1] == j);
            }
            assert(j == order[0]);
        }
    }
}

/// Reassembly order: whatever order the remote calls complete in — even
/// exactly reversed — once every index has recorded its payload, the
/// finished table is the one listing payloads in ascending index order,
/// so reassembly concatenates ascending by index, never by completion.
pub proof fn lemma_completion_order_irrelevant(
    table: Seq<Option<Vec<u8>>>,
    order: Seq<int>,
    payloads: Seq<Vec<u8>>,
)
    requires
        table.len() == payloads.len(),
        forall|k: int| 0 <= k < order.len() ==> 0 <= #[trigger] order[k] < payloads.len(),
        forall|j: int| 0 <= j < payloads.len() ==> order.contains(j),
    ensures
        apply_records(table, order, payloads) == Seq::new(
            payloads.len(),
            |j: int| Some(payloads[j]),
        ),
        all_present(apply_records(table, order, payloads)),
{
    let finished = apply_records(table, order, payloads);
    assert forall|j: int| 0 <= j < payloads.len() implies finished[j] == Some(payloads[j]) by {
        lemma_apply_records_slot(table, order, payloads, j);
    }
    assert(finished.len() == payloads.len()) by {
        lemma_apply_records_len(table, order, payloads);
    }
    assert(finished =~= Seq::new(payloads.len(), |j: int| Some(payloads[j])));
}

proof fn lemma_apply_records_len(
    table: Seq<Option<Vec<u8>>>,
    order: Seq<int>,
    payloads: Seq<Vec<u8>>,
)
    requires
        table.len() == payloads.len(),
        forall|k: int| 0 <= k < order.len() ==> 0 <= #[trigger] order[k] < payloads.len(),
    ensures
        apply_records(table, order, payloads).len() == table.len(),
    decreases order.len(),
{
    if order.len() > 0 {
        lemma_apply_records_len(
            table.update(order[0], Some(payloads[order[0]])),
            order.drop_first(),
            payloads,
        );
    }
}

} // verus!
