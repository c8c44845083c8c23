//! The staking contract's interface: its incentive-key tuple, the four calls
//! this library makes, and the bytes each call is sent as.

use vstd::prelude::*;
use crate::abi::{
    address_at, address_word, bytes_at, bytes_tail, lemma_address_at, lemma_bytes_at,
    lemma_bytes_tail_len, lemma_word, lemma_word_at, word, word_at, word_limit,
};
use crate::primitives::{Address, U256};

verus! {

/// Selector of `unstakeToken((address,address,uint256,uint256,address),uint256)`.
pub const UNSTAKE_TOKEN_SELECTOR: [u8; 4] = [0xf5, 0x49, 0xab, 0x42];

/// Selector of `claimReward(address,address,uint256)`.
pub const CLAIM_REWARD_SELECTOR: [u8; 4] = [0x2f, 0x2d, 0x78, 0x3d];

/// Selector of `stakeToken((address,address,uint256,uint256,address),uint256)`.
pub const STAKE_TOKEN_SELECTOR: [u8; 4] = [0xf2, 0xd2, 0x90, 0x9b];

/// Selector of `withdrawToken(uint256,address,bytes)`.
pub const WITHDRAW_TOKEN_SELECTOR: [u8; 4] = [0x3c, 0x42, 0x3f, 0x0b];

/// What an incentive key holds, as numbers and byte strings.
pub struct KeyView {
    pub reward_token: Seq<u8>,
    pub pool: Seq<u8>,
    pub start_time: nat,
    pub end_time: nat,
    pub refundee: Seq<u8>,
}

impl KeyView {
    /// The addresses are 20 bytes long and the times fit a word.
    pub open spec fn wf(self) -> bool {
        &&& self.reward_token.len() == 20
        &&& self.pool.len() == 20
        &&& self.start_time < word_limit()
        &&& self.end_time < word_limit()
        &&& self.refundee.len() == 20
    }
}

/// An incentive key in the shape the contract takes it:
/// `(rewardToken, pool, startTime, endTime, refundee)`, the pool by its address.
#[derive(Clone, Copy, Debug, PartialEq, Eq)]
pub struct KeyTuple {
    pub reward_token: Address,
    pub pool: Address,
    pub start_time: U256,
    pub end_time: U256,
    pub refundee: Address,
}

impl View for KeyTuple {
    type V = KeyView;

    open spec fn view(&self) -> KeyView {
        KeyView {
            reward_token: self.reward_token@,
            pool: self.pool@,
            start_time: self.start_time@,
            end_time: self.end_time@,
            refundee: self.refundee@,
        }
    }
}

/// The views of a list of key tuples, in the list's order.
pub open spec fn key_views(keys: Seq<KeyTuple>) -> Seq<KeyView> {
    Seq::new(keys.len(), |i: int| keys[i]@)
}

/// The five words of a key tuple.
pub open spec fn key_words(key: KeyView) -> Seq<u8> {
    address_word(key.reward_token) + address_word(key.pool) + word(key.start_time) + word(
        key.end_time,
    ) + address_word(key.refundee)
}

/// The key tuple whose five words start at `pos`.
pub open spec fn key_at(buf: Seq<u8>, pos: int) -> KeyView {
    KeyView {
        reward_token: address_at(buf, pos),
        pool: address_at(buf, pos + 32),
        start_time: word_at(buf, pos + 64),
        end_time: word_at(buf, pos + 96),
        refundee: address_at(buf, pos + 128),
    }
}

/// The words of several key tuples, one tuple after the other.
pub open spec fn key_list_words(keys: Seq<KeyView>) -> Seq<u8>
    decreases keys.len(),
{
    if keys.len() == 0 {
        Seq::empty()
    } else {
        key_list_words(keys.drop_last()) + key_words(keys.last())
    }
}

/// A dynamic array of key tuples, encoded as a value of its own: the offset
/// 32, the number of tuples, then the tuples.
pub open spec fn key_array(keys: Seq<KeyView>) -> Seq<u8> {
    word(32) + word(keys.len()) + key_list_words(keys)
}

/// A call to the staking contract, with its arguments.
pub enum StakerCall {
    UnstakeToken { key: KeyView, token_id: nat },
    ClaimReward { reward_token: Seq<u8>, to: Seq<u8>, amount_requested: nat },
    StakeToken { key: KeyView, token_id: nat },
    WithdrawToken { token_id: nat, to: Seq<u8>, data: Seq<u8> },
}

impl StakerCall {
    /// Every argument fits the type the contract declares for it.
    pub open spec fn wf(self) -> bool {
        match self {
            StakerCall::UnstakeToken { key, token_id } => key.wf() && token_id < word_limit(),
            StakerCall::ClaimReward { reward_token, to, amount_requested } => {
                &&& reward_token.len() == 20
                &&& to.len() == 20
                &&& amount_requested < word_limit()
            },
            StakerCall::StakeToken { key, token_id } => key.wf() && token_id < word_limit(),
            StakerCall::WithdrawToken { token_id, to, data } => {
                &&& token_id < word_limit()
                &&& to.len() == 20
                &&& data.len() < word_limit()
            },
        }
    }

    /// The call's selector.
    pub open spec fn selector(self) -> Seq<u8> {
        match self {
            StakerCall::UnstakeToken { .. } => UNSTAKE_TOKEN_SELECTOR@,
            StakerCall::ClaimReward { .. } => CLAIM_REWARD_SELECTOR@,
            StakerCall::StakeToken { .. } => STAKE_TOKEN_SELECTOR@,
            StakerCall::WithdrawToken { .. } => WITHDRAW_TOKEN_SELECTOR@,
        }
    }

    /// The call's arguments, encoded as function parameters.
    pub open spec fn params(self) -> Seq<u8> {
        match self {
            StakerCall::UnstakeToken { key, token_id } => key_words(key) + word(token_id),
            StakerCall::ClaimReward { reward_token, to, amount_requested } => address_word(
                reward_token,
            ) + address_word(to) + word(amount_requested),
            StakerCall::StakeToken { key, token_id } => key_words(key) + word(token_id),
            StakerCall::WithdrawToken { token_id, to, data } => word(token_id) + address_word(to)
                + word(96) + bytes_tail(data),
        }
    }

    /// The bytes the call is sent as: its selector, then its arguments.
    pub open spec fn bytes(self) -> Seq<u8> {
        self.selector() + self.params()
    }
}

/// Reads a call back from the bytes it was sent as: the selector names the
/// function, and the arguments are taken from the words behind it, the byte
/// string of `withdrawToken` from where its offset points. Bytes that name
/// none of the four functions, or whose length does not fit the one they
/// name, hold no call.
pub open spec fn decode_call(bytes: Seq<u8>) -> Option<StakerCall> {
    let selector = bytes.take(4);
    let params = bytes.skip(4);
    if bytes.len() < 4 {
        None
    } else if selector == UNSTAKE_TOKEN_SELECTOR@ && params.len() == 192 {
        Some(StakerCall::UnstakeToken { key: key_at(params, 0), token_id: word_at(params, 160) })
    } else if selector == CLAIM_REWARD_SELECTOR@ && params.len() == 96 {
        Some(
            StakerCall::ClaimReward {
                reward_token: address_at(params, 0),
                to: address_at(params, 32),
                amount_requested: word_at(params, 64),
            },
        )
    } else if selector == STAKE_TOKEN_SELECTOR@ && params.len() == 192 {
        Some(StakerCall::StakeToken { key: key_at(params, 0), token_id: word_at(params, 160) })
    } else if selector == WITHDRAW_TOKEN_SELECTOR@ && params.len() >= 96 {
        let offset = word_at(params, 64) as int;
        if offset + 32 <= params.len() && offset + 32 + word_at(params, offset) <= params.len() {
            Some(
                StakerCall::WithdrawToken {
                    token_id: word_at(params, 0),
                    to: address_at(params, 32),
                    data: bytes_at(params, offset),
                },
            )
        } else {
            None
        }
    } else {
        None
    }
}

/// Calls alloy-sol-types' `SolValue::abi_encode` on one
/// `(address, address, uint256, uint256, address)` tuple. Every field is
/// static, so the encoder writes the tuple in place: one word for each
/// field, in order, with no offset in front.
#[verifier::external_body]
pub(crate) fn abi_encode_key(key: &KeyTuple) -> (out: Vec<u8>)
    ensures
        out@ == key_words(key@),
{
    alloy_sol_types::SolValue::abi_encode(&(
        alloy_primitives::Address::new(key.reward_token.bytes),
        alloy_primitives::Address::new(key.pool.bytes),
        alloy_primitives::U256::from_limbs(key.start_time.limbs),
        alloy_primitives::U256::from_limbs(key.end_time.limbs),
        alloy_primitives::Address::new(key.refundee.bytes),
    ))
}

/// Calls alloy-sol-types' `SolValue::abi_encode` on a `Vec` of
/// `(address, address, uint256, uint256, address)` tuples. The encoder
/// treats it as a dynamic array standing alone: a word with the offset 32,
/// a word with the number of tuples, then the tuples in place.
#[verifier::external_body]
pub(crate) fn abi_encode_key_array(keys: &Vec<KeyTuple>) -> (out: Vec<u8>)
    ensures
        out@ == key_array(key_views(keys@)),
{
    let tuples: Vec<_> = keys.iter().map(|key| (
        alloy_primitives::Address::new(key.reward_token.bytes),
        alloy_primitives::Address::new(key.pool.bytes),
        alloy_primitives::U256::from_limbs(key.start_time.limbs),
        alloy_primitives::U256::from_limbs(key.end_time.limbs),
        alloy_primitives::Address::new(key.refundee.bytes),
    )).collect();
    alloy_sol_types::SolValue::abi_encode(&tuples)
}

/// Calls alloy-sol-types' `SolValue::abi_encode_params` on the arguments
/// `((address, address, uint256, uint256, address), uint256)`. All of it is
/// static: the encoder writes the tuple's five words, then the integer's.
#[verifier::external_body]
fn abi_encode_params_key_uint(key: &KeyTuple, n: &U256) -> (out: Vec<u8>)
    ensures
        out@ == key_words(key@) + word(n@),
{
    alloy_sol_types::SolValue::abi_encode_params(&(
        (
            alloy_primitives::Address::new(key.reward_token.bytes),
            alloy_primitives::Address::new(key.pool.bytes),
            alloy_primitives::U256::from_limbs(key.start_time.limbs),
            alloy_primitives::U256::from_limbs(key.end_time.limbs),
            alloy_primitives::Address::new(key.refundee.bytes),
        ),
        alloy_primitives::U256::from_limbs(n.limbs),
    ))
}

/// Calls alloy-sol-types' `SolValue::abi_encode_params` on the arguments
/// `(address, address, uint256)`: one word for each, in order.
#[verifier::external_body]
fn abi_encode_params_address_address_uint(a: &Address, b: &Address, n: &U256) -> (out: Vec<u8>)
    ensures
        out@ == address_word(a@) + address_word(b@) + word(n@),
{
    alloy_sol_types::SolValue::abi_encode_params(&(
        alloy_primitives::Address::new(a.bytes),
        alloy_primitives::Address::new(b.bytes),
        alloy_primitives::U256::from_limbs(n.limbs),
    ))
}

/// Calls alloy-sol-types' `SolValue::abi_encode_params` on the arguments
/// `(uint256, address, bytes)`. The head is three words: the integer, the
/// address, and the offset of the byte string, which is 96 because the
/// string follows the head at once. Then comes the string: its length, its
/// bytes, and zeros up to a whole word.
#[verifier::external_body]
fn abi_encode_params_uint_address_bytes(n: &U256, a: &Address, data: &Vec<u8>) -> (out: Vec<u8>)
    ensures
        out@ == word(n@) + address_word(a@) + word(96) + bytes_tail(data@),
{
    alloy_sol_types::SolValue::abi_encode_params(&(
        alloy_primitives::U256::from_limbs(n.limbs),
        alloy_primitives::Address::new(a.bytes),
        data,
    ))
}

/// The bytes of `unstakeToken(key, token_id)`.
pub fn encode_unstake_token(key: &KeyTuple, token_id: &U256) -> (out: Vec<u8>)
    ensures
        out@ == (StakerCall::UnstakeToken { key: key@, token_id: token_id@ }).bytes(),
{
    with_selector(UNSTAKE_TOKEN_SELECTOR, abi_encode_params_key_uint(key, token_id))
}

/// The bytes of `claimReward(reward_token, to, amount_requested)`.
pub fn encode_claim_reward(reward_token: &Address, to: &Address, amount_requested: &U256) -> (out:
    Vec<u8>)
    ensures
        out@ == (StakerCall::ClaimReward {
            reward_token: reward_token@,
            to: to@,
            amount_requested: amount_requested@,
        }).bytes(),
{
    with_selector(
        CLAIM_REWARD_SELECTOR,
        abi_encode_params_address_address_uint(reward_token, to, amount_requested),
    )
}

/// The bytes of `stakeToken(key, token_id)`.
pub fn encode_stake_token(key: &KeyTuple, token_id: &U256) -> (out: Vec<u8>)
    ensures
        out@ == (StakerCall::StakeToken { key: key@, token_id: token_id@ }).bytes(),
{
    with_selector(STAKE_TOKEN_SELECTOR, abi_encode_params_key_uint(key, token_id))
}

/// The bytes of `withdrawToken(token_id, to, data)`.
pub fn encode_withdraw_token(token_id: &U256, to: &Address, data: &Vec<u8>) -> (out: Vec<u8>)
    ensures
        out@ == (StakerCall::WithdrawToken { token_id: token_id@, to: to@, data: data@ }).bytes(),
{
    with_selector(WITHDRAW_TOKEN_SELECTOR, abi_encode_params_uint_address_bytes(token_id, to, data))
}

/// Puts a call's selector in front of its encoded arguments.
pub fn with_selector(selector: [u8; 4], params: Vec<u8>) -> (out: Vec<u8>)
    ensures
        out@ == selector@ + params@,
{
    let mut params = params;
    let ghost given = params@;
    let mut out: Vec<u8> = Vec::new();
    out.push(selector[0]);
    out.push(selector[1]);
    out.push(selector[2]);
    out.push(selector[3]);
    out.append(&mut params);
    assert(out@ =~= selector@ + given);
    out
}

/// A key tuple takes five words.
pub proof fn lemma_key_words_len(key: KeyView)
    requires
        key.wf(),
    ensures
        key_words(key).len() == 160,
{
    lemma_word(key.start_time);
    lemma_word(key.end_time);
}

/// Where the five words of a key tuple were written, the tuple is read.
pub proof fn lemma_key_at(buf: Seq<u8>, pos: int, key: KeyView)
    requires
        0 <= pos,
        pos + 160 <= buf.len(),
        buf.subrange(pos, pos + 160) == key_words(key),
        key.wf(),
    ensures
        key_at(buf, pos) == key,
{
    let words = key_words(key);
    lemma_word(key.start_time);
    lemma_word(key.end_time);
    assert(buf.subrange(pos, pos + 32) =~= words.subrange(0, 32));
    assert(words.subrange(0, 32) =~= address_word(key.reward_token));
    lemma_address_at(buf, pos, key.reward_token);
    assert(buf.subrange(pos + 32, pos + 64) =~= words.subrange(32, 64));
    assert(words.subrange(32, 64) =~= address_word(key.pool));
    lemma_address_at(buf, pos + 32, key.pool);
    assert(buf.subrange(pos + 64, pos + 96) =~= words.subrange(64, 96));
    assert(words.subrange(64, 96) =~= word(key.start_time));
    lemma_word_at(buf, pos + 64, key.start_time);
    assert(buf.subrange(pos + 96, pos + 128) =~= words.subrange(96, 128));
    assert(words.subrange(96, 128) =~= word(key.end_time));
    lemma_word_at(buf, pos + 96, key.end_time);
    assert(buf.subrange(pos + 128, pos + 160) =~= words.subrange(128, 160));
    assert(words.subrange(128, 160) =~= address_word(key.refundee));
    lemma_address_at(buf, pos + 128, key.refundee);
}

/// Round trip of one call: decoding the bytes of a call gives back the
/// function that was called and every argument.
pub proof fn lemma_call_round_trip(call: StakerCall)
    requires
        call.wf(),
    ensures
        decode_call(call.bytes()) == Some(call),
{
    let bytes = call.bytes();
    let params = call.params();
    assert(bytes.take(4) =~= call.selector());
    assert(bytes.skip(4) =~= params);
    match call {
        StakerCall::UnstakeToken { key, token_id } => {
            lemma_key_words_len(key);
            lemma_word(token_id);
            assert(params.subrange(0, 160) =~= key_words(key));
            lemma_key_at(params, 0, key);
            assert(params.subrange(160, 192) =~= word(token_id));
            lemma_word_at(params, 160, token_id);
        },
        StakerCall::ClaimReward { reward_token, to, amount_requested } => {
            lemma_word(amount_requested);
            assert(params.subrange(0, 32) =~= address_word(reward_token));
            lemma_address_at(params, 0, reward_token);
            assert(params.subrange(32, 64) =~= address_word(to));
            lemma_address_at(params, 32, to);
            assert(params.subrange(64, 96) =~= word(amount_requested));
            lemma_word_at(params, 64, amount_requested);
            assert(CLAIM_REWARD_SELECTOR@[0] != UNSTAKE_TOKEN_SELECTOR@[0]);
        },
        StakerCall::StakeToken { key, token_id } => {
            lemma_key_words_len(key);
            lemma_word(token_id);
            assert(params.subrange(0, 160) =~= key_words(key));
            lemma_key_at(params, 0, key);
            assert(params.subrange(160, 192) =~= word(token_id));
            lemma_word_at(params, 160, token_id);
            assert(STAKE_TOKEN_SELECTOR@[0] != UNSTAKE_TOKEN_SELECTOR@[0]);
            assert(STAKE_TOKEN_SELECTOR@[0] != CLAIM_REWARD_SELECTOR@[0]);
        },
        StakerCall::WithdrawToken { token_id, to, data } => {
            lemma_word(token_id);
            lemma_word(96);
            lemma_bytes_tail_len(data);
            assert(params.subrange(0, 32) =~= word(token_id));
            lemma_word_at(params, 0, token_id);
            assert(params.subrange(32, 64) =~= address_word(to));
            lemma_address_at(params, 32, to);
            assert(params.subrange(64, 96) =~= word(96));
            lemma_word_at(params, 64, 96);
            assert(params.subrange(96, 96 + bytes_tail(data).len() as int) =~= bytes_tail(data));
            lemma_bytes_at(params, 96, data);
            assert(WITHDRAW_TOKEN_SELECTOR@[0] != UNSTAKE_TOKEN_SELECTOR@[0]);
            assert(WITHDRAW_TOKEN_SELECTOR@[0] != CLAIM_REWARD_SELECTOR@[0]);
            assert(WITHDRAW_TOKEN_SELECTOR@[0] != STAKE_TOKEN_SELECTOR@[0]);
        },
    }
}

} // verus!
