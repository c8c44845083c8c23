//! Aggregation of several calls into one `multicall(bytes[])` call.

use vstd::prelude::*;
use crate::abi::{
    bytes_array_at, bytes_array_param, lemma_bytes_array_param_len, lemma_bytes_array_round_trip,
    word_at, word_limit,
};
use crate::contract::with_selector;

verus! {

/// Selector of `multicall(bytes[])`.
pub const MULTICALL_SELECTOR: [u8; 4] = [0xac, 0x96, 0x50, 0xd8];

/// The byte strings that a list of vectors holds, in the list's order.
pub open spec fn payloads(calls: Seq<Vec<u8>>) -> Seq<Seq<u8>> {
    Seq::new(calls.len(), |i: int| calls[i]@)
}

/// The bytes of `multicall(calls)`: the selector, then the calls as one
/// `bytes[]` argument.
pub open spec fn multicall_calldata(calls: Seq<Seq<u8>>) -> Seq<u8> {
    MULTICALL_SELECTOR@ + bytes_array_param(calls)
}

/// Reads the calls back from the bytes of a `multicall`. Bytes that do not
/// start with the selector and two words hold none.
pub open spec fn decode_multicall(calldata: Seq<u8>) -> Option<Seq<Seq<u8>>> {
    let params = calldata.skip(4);
    if calldata.len() >= 68 && calldata.take(4) == MULTICALL_SELECTOR@ {
        Some(bytes_array_at(params, word_at(params, 0) as int))
    } else {
        None
    }
}

/// Calls alloy-sol-types' `SolValue::abi_encode_params` on a one-element
/// tuple that holds a list of byte strings, which is the single argument
/// `bytes[]`. The encoder writes the offset 32, the number of strings, one
/// word for each string with the offset of its tail, and then for each
/// string its length, its bytes and zeros up to a whole word.
#[verifier::external_body]
fn abi_encode_params_bytes_array(items: &Vec<Vec<u8>>) -> (out: Vec<u8>)
    ensures
        out@ == bytes_array_param(payloads(items@)),
{
    alloy_sol_types::SolValue::abi_encode_params(&(items.as_slice(),))
}

/// Aggregates an ordered list of calls into the bytes of one `multicall`.
pub fn encode_multicall(calldatas: Vec<Vec<u8>>) -> (out: Vec<u8>)
    ensures
        out@ == multicall_calldata(payloads(calldatas@)),
        decode_multicall(out@) == Some(payloads(calldatas@)),
{
    let out = with_selector(MULTICALL_SELECTOR, abi_encode_params_bytes_array(&calldatas));
    proof {
        assert(out@.len() == out.len() <= usize::MAX);
        lemma_multicall_round_trip(payloads(calldatas@));
    }
    out
}

/// Round trip of the aggregation: decoding the bytes of a `multicall` gives
/// back the calls it was made of, in order. The bytes must be few enough
/// for their count to fit a word, as the bytes of any vector are.
pub proof fn lemma_multicall_round_trip(calls: Seq<Seq<u8>>)
    requires
        multicall_calldata(calls).len() < word_limit(),
    ensures
        decode_multicall(multicall_calldata(calls)) == Some(calls),
{
    let calldata = multicall_calldata(calls);
    assert(calldata.take(4) =~= MULTICALL_SELECTOR@);
    assert(calldata.skip(4) =~= bytes_array_param(calls));
    lemma_bytes_array_param_len(calls);
    lemma_bytes_array_round_trip(calls);
}

} // verus!
