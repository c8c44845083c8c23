//! The three workflows of a staked position: collecting rewards,
//! withdrawing, and depositing into one or several incentive programs.

use vstd::prelude::*;
use crate::abi::{lemma_word, word_limit};
use crate::contract::{
    abi_encode_key, abi_encode_key_array, decode_call, encode_claim_reward, encode_stake_token,
    encode_unstake_token, encode_withdraw_token, key_array, key_list_words, key_views, key_words,
    lemma_call_round_trip, lemma_key_words_len, KeyTuple, KeyView, StakerCall,
};
use crate::multicall::{
    decode_multicall, encode_multicall, lemma_multicall_round_trip, multicall_calldata, payloads,
};
use crate::primitives::{Address, U256};

verus! {

/// What the encoders need of a pool: the address it is deployed at, and
/// nothing else. The address follows from what the pool is (its pair of
/// tokens, its fee tier, its factory), so one pool has one address, however
/// often it is asked for.
pub trait PoolAddress {
    /// The pool's address. A verified implementation says which it is; of
    /// any other, all that is known is that there is one.
    open spec fn address_spec(&self) -> Address {
        arbitrary()
    }

    /// Derives the pool's address.
    fn address(&self) -> (a: Address)
        ensures
            a == self.address_spec(),
    ;
}

/// A pool that is known by its address alone.
impl PoolAddress for Address {
    open spec fn address_spec(&self) -> Address {
        *self
    }

    fn address(&self) -> (a: Address) {
        *self
    }
}

/// Represents a unique staking program.
#[derive(Debug, Clone, PartialEq)]
pub struct IncentiveKey<P> {
    /// The token rewarded for participating in the staking program.
    pub reward_token: Address,
    /// The pool that the staked positions must provide in.
    pub pool: P,
    /// The time when the incentive program begins.
    pub start_time: U256,
    /// The time that the incentive program ends.
    pub end_time: U256,
    /// The address which receives any remaining reward tokens at `end_time`.
    pub refundee: Address,
}

impl<P: PoolAddress> View for IncentiveKey<P> {
    type V = KeyView;

    open spec fn view(&self) -> KeyView {
        KeyView {
            reward_token: self.reward_token@,
            pool: self.pool.address_spec()@,
            start_time: self.start_time@,
            end_time: self.end_time@,
            refundee: self.refundee@,
        }
    }
}

/// The views of a list of keys, in the list's order.
pub open spec fn incentive_key_views<P: PoolAddress>(keys: Seq<IncentiveKey<P>>) -> Seq<KeyView> {
    Seq::new(keys.len(), |i: int| keys[i]@)
}

/// What a claim asks for, as numbers and byte strings.
pub struct ClaimView {
    pub token_id: nat,
    pub recipient: Seq<u8>,
    /// The amount to claim; zero claims all.
    pub amount: nat,
}

impl ClaimView {
    /// The recipient is 20 bytes long; the token id and the amount fit a word.
    pub open spec fn wf(self) -> bool {
        &&& self.token_id < word_limit()
        &&& self.recipient.len() == 20
        &&& self.amount < word_limit()
    }
}

/// Options to specify when claiming rewards.
#[derive(Debug, Clone, Copy, PartialEq, Eq)]
pub struct ClaimOptions {
    /// The id of the NFT
    pub token_id: U256,
    /// Address to send rewards to.
    pub recipient: Address,
    /// The amount of `reward_token` to claim. 0 claims all.
    pub amount: Option<U256>,
}

impl View for ClaimOptions {
    type V = ClaimView;

    open spec fn view(&self) -> ClaimView {
        ClaimView {
            token_id: self.token_id@,
            recipient: self.recipient@,
            amount: match self.amount {
                Some(amount) => amount@,
                None => 0,
            },
        }
    }
}

/// Where a withdrawn position goes, as byte strings.
pub struct WithdrawView {
    pub owner: Seq<u8>,
    /// The data handed on with the transfer; empty where none was given.
    pub data: Seq<u8>,
}

/// Options to specify when withdrawing a position.
#[derive(Debug, Clone, PartialEq, Eq)]
pub struct WithdrawOptions {
    /// Set when withdrawing. The position will be sent to `owner` on withdraw.
    pub owner: Address,
    /// Set when withdrawing. `data` is passed to `safeTransferFrom` when transferring the position from contract back to owner.
    pub data: Option<Vec<u8>>,
}

impl View for WithdrawOptions {
    type V = WithdrawView;

    open spec fn view(&self) -> WithdrawView {
        WithdrawView {
            owner: self.owner@,
            data: match self.data {
                Some(data) => data@,
                None => Seq::empty(),
            },
        }
    }
}

/// What leaving a position entirely asks for.
pub struct FullWithdrawView {
    pub claim: ClaimView,
    pub withdraw: WithdrawView,
}

impl FullWithdrawView {
    /// The claim is well formed, the owner is 20 bytes long, and the length
    /// of the data fits a word.
    pub open spec fn wf(self) -> bool {
        &&& self.claim.wf()
        &&& self.withdraw.owner.len() == 20
        &&& self.withdraw.data.len() < word_limit()
    }
}

/// Options to specify when claiming rewards and withdrawing a position at once.
#[derive(Debug, Clone, PartialEq, Eq)]
pub struct FullWithdrawOptions {
    pub claim_options: ClaimOptions,
    pub withdraw_options: WithdrawOptions,
}

impl View for FullWithdrawOptions {
    type V = FullWithdrawView;

    open spec fn view(&self) -> FullWithdrawView {
        FullWithdrawView { claim: self.claim_options@, withdraw: self.withdraw_options@ }
    }
}

/// Call data for a transaction, and the value to send with it.
#[derive(Debug, Clone, PartialEq, Eq)]
pub struct MethodParameters {
    pub calldata: Vec<u8>,
    pub value: U256,
}

/// Why a workflow produced no call data.
#[derive(Debug, Clone, Copy, PartialEq, Eq)]
pub enum StakerError {
    /// The list of incentive keys was empty.
    EmptyIncentiveKeyList,
}

/// `unstakeToken(key, token_id)`.
pub open spec fn unstake_call(key: KeyView, options: ClaimView) -> StakerCall {
    StakerCall::UnstakeToken { key, token_id: options.token_id }
}

/// `claimReward(reward_token, recipient, amount)`, for the reward token of `key`.
pub open spec fn claim_call(key: KeyView, options: ClaimView) -> StakerCall {
    StakerCall::ClaimReward {
        reward_token: key.reward_token,
        to: options.recipient,
        amount_requested: options.amount,
    }
}

/// `stakeToken(key, token_id)`.
pub open spec fn stake_call(key: KeyView, options: ClaimView) -> StakerCall {
    StakerCall::StakeToken { key, token_id: options.token_id }
}

/// `withdrawToken(token_id, owner, data)`.
pub open spec fn withdraw_call(options: FullWithdrawView) -> StakerCall {
    StakerCall::WithdrawToken {
        token_id: options.claim.token_id,
        to: options.withdraw.owner,
        data: options.withdraw.data,
    }
}

/// Turns a key into the tuple the contract takes, the pool by its address.
pub fn encode_incentive_key<P: PoolAddress>(incentive_key: &IncentiveKey<P>) -> (tuple: KeyTuple)
    ensures
        tuple@ == incentive_key@,
{
    KeyTuple {
        reward_token: incentive_key.reward_token,
        pool: incentive_key.pool.address(),
        start_time: incentive_key.start_time,
        end_time: incentive_key.end_time,
        refundee: incentive_key.refundee,
    }
}

/// To claim rewards, must unstake and then claim: the call data for
/// `unstakeToken` and for `claimReward`, in that order. An amount that is
/// absent is sent as zero, which claims all.
pub fn encode_claim<P: PoolAddress>(
    incentive_key: &IncentiveKey<P>,
    options: ClaimOptions,
) -> (calls: (Vec<u8>, Vec<u8>))
    ensures
        calls.0@ == unstake_call(incentive_key@, options@).bytes(),
        calls.1@ == claim_call(incentive_key@, options@).bytes(),
{
    let amount = match options.amount {
        Some(amount) => amount,
        None => U256::zero(),
    };
    (
        encode_unstake_token(&encode_incentive_key(incentive_key), &options.token_id),
        encode_claim_reward(&incentive_key.reward_token, &options.recipient, &amount),
    )
}

/// The calls that unstake from each key and claim its reward: for each key,
/// in the keys' order, `unstakeToken` and then `claimReward`.
pub open spec fn unstake_claim_calls(keys: Seq<KeyView>, options: ClaimView) -> Seq<StakerCall> {
    Seq::new(
        2 * keys.len(),
        |i: int|
            if i % 2 == 0 {
                unstake_call(keys[i / 2], options)
            } else {
                claim_call(keys[i / 2], options)
            },
    )
}

/// The calls that collect the rewards of a position: for each key, in the
/// keys' order, `unstakeToken`, `claimReward` and `stakeToken`.
pub open spec fn collect_rewards_calls(keys: Seq<KeyView>, options: ClaimView) -> Seq<StakerCall> {
    Seq::new(
        3 * keys.len(),
        |i: int|
            if i % 3 == 0 {
                unstake_call(keys[i / 3], options)
            } else if i % 3 == 1 {
                claim_call(keys[i / 3], options)
            } else {
                stake_call(keys[i / 3], options)
            },
    )
}

/// The calls that take a position out of the contract: unstake and claim
/// for each key, then one `withdrawToken`.
pub open spec fn withdraw_token_calls(keys: Seq<KeyView>, options: FullWithdrawView) -> Seq<
    StakerCall,
> {
    unstake_claim_calls(keys, options.claim).push(withdraw_call(options))
}

/// The bytes of each call of a list, in the list's order.
pub open spec fn call_payloads(calls: Seq<StakerCall>) -> Seq<Seq<u8>> {
    Seq::new(calls.len(), |i: int| calls[i].bytes())
}

/// The call data of a workflow: its calls, aggregated into one `multicall`.
pub open spec fn workflow_calldata(calls: Seq<StakerCall>) -> Seq<u8> {
    multicall_calldata(call_payloads(calls))
}

/// Reads a workflow's calls back from its call data: the `multicall` is
/// taken apart and each of its byte strings decoded as a call to the
/// staking contract. Where one of them holds no such call, nothing is read.
pub open spec fn decode_calls(calldata: Seq<u8>) -> Option<Seq<StakerCall>> {
    match decode_multicall(calldata) {
        Some(items) => if forall|i: int|
            0 <= i < items.len() ==> (#[trigger] decode_call(items[i])) is Some {
            Some(Seq::new(items.len(), |i: int| decode_call(items[i])->0))
        } else {
            None
        },
        None => None,
    }
}

/// The payload of a deposit: the bare tuple for exactly one key, a dynamic
/// array of tuples for any other number of keys.
pub open spec fn deposit_payload(keys: Seq<KeyView>) -> Seq<u8> {
    if keys.len() == 1 {
        key_words(keys[0])
    } else {
        key_array(keys)
    }
}

/// Collect rewards from multiple programs at once.
///
/// A token can be staked in many programs, but to claim rewards and stay in
/// a program it must be unstaked, claimed for and staked again. One amount
/// and one recipient hold for all of the programs. An empty list of keys is
/// refused.
pub fn collect_rewards<P: PoolAddress>(
    incentive_keys: &[IncentiveKey<P>],
    options: ClaimOptions,
) -> (result: Result<MethodParameters, StakerError>)
    ensures
        match result {
            Ok(parameters) => {
                let calls = collect_rewards_calls(incentive_key_views(incentive_keys@), options@);
                &&& incentive_keys@.len() > 0
                &&& parameters.calldata@ == workflow_calldata(calls)
                &&& decode_calls(parameters.calldata@) == Some(calls)
                &&& parameters.value@ == 0
            },
            Err(error) => incentive_keys@.len() == 0 && error == StakerError::EmptyIncentiveKeyList,
        },
{
    let n: usize = incentive_keys.len();
    if n == 0 {
        return Err(StakerError::EmptyIncentiveKeyList);
    }
    let ghost keys = incentive_key_views(incentive_keys@);
    let mut calldatas: Vec<Vec<u8>> = Vec::new();
    let mut i: usize = 0;
    while i < n
        invariant
            i <= n,
            n == incentive_keys@.len(),
            keys == incentive_key_views(incentive_keys@),
            payloads(calldatas@) == call_payloads(
                collect_rewards_calls(keys.take(i as int), options@),
            ),
        decreases n - i,
    {
        let incentive_key = &incentive_keys[i];
        let ghost before = calldatas@;
        // unstakes and claims for the unique program
        let (unstake, claim) = encode_claim(incentive_key, options);
        calldatas.push(unstake);
        calldatas.push(claim);
        // re-stakes the position for the unique program
        let stake = encode_stake_token(&encode_incentive_key(incentive_key), &options.token_id);
        calldatas.push(stake);
        proof {
            assert(keys.take(i + 1) =~= keys.take(i as int).push(incentive_key@));
            lemma_collect_rewards_calls_push(keys.take(i as int), incentive_key@, options@);
            let calls = collect_rewards_calls(keys.take(i as int), options@);
            assert(payloads(calldatas@) =~= payloads(before).push(unstake@).push(claim@).push(
                stake@,
            ));
            assert(call_payloads(
                calls.push(unstake_call(incentive_key@, options@)).push(
                    claim_call(incentive_key@, options@),
                ).push(stake_call(incentive_key@, options@)),
            ) =~= call_payloads(calls).push(unstake@).push(claim@).push(stake@));
        }
        i += 1;
    }
    let calldata = encode_multicall(calldatas);
    proof {
        assert(keys.take(n as int) =~= keys);
        let calls = collect_rewards_calls(keys, options@);
        assert forall|k: int| 0 <= k < keys.len() implies (#[trigger] keys[k]).wf() by {
            lemma_incentive_key_wf(incentive_keys@[k]);
        }
        lemma_claim_options_wf(options);
        lemma_collect_rewards_calls_wf(keys, options@);
        assert(calldata@.len() == calldata.len() <= usize::MAX);
        lemma_calls_round_trip(calls);
    }
    Ok(MethodParameters { calldata, value: U256::zero() })
}

/// Unstake, claim, and withdraw a position from multiple programs at once.
///
/// The keys should name every program that the token is staked in: the
/// contract refuses to hand out a token that is still staked somewhere, and
/// nothing here can know where it is. An empty list of keys is refused.
pub fn withdraw_token<P: PoolAddress>(
    incentive_keys: &[IncentiveKey<P>],
    withdraw_options: FullWithdrawOptions,
) -> (result: Result<MethodParameters, StakerError>)
    ensures
        match result {
            Ok(parameters) => {
                let calls = withdraw_token_calls(
                    incentive_key_views(incentive_keys@),
                    withdraw_options@,
                );
                &&& incentive_keys@.len() > 0
                &&& parameters.calldata@ == workflow_calldata(calls)
                &&& decode_calls(parameters.calldata@) == Some(calls)
                &&& parameters.value@ == 0
            },
            Err(error) => incentive_keys@.len() == 0 && error == StakerError::EmptyIncentiveKeyList,
        },
{
    let n: usize = incentive_keys.len();
    if n == 0 {
        return Err(StakerError::EmptyIncentiveKeyList);
    }
    let ghost keys = incentive_key_views(incentive_keys@);
    let ghost options = withdraw_options@;
    let claim_options = withdraw_options.claim_options;
    let mut calldatas: Vec<Vec<u8>> = Vec::new();
    let mut i: usize = 0;
    while i < n
        invariant
            i <= n,
            n == incentive_keys@.len(),
            keys == incentive_key_views(incentive_keys@),
            payloads(calldatas@) == call_payloads(
                unstake_claim_calls(keys.take(i as int), claim_options@),
            ),
        decreases n - i,
    {
        let incentive_key = &incentive_keys[i];
        let ghost before = calldatas@;
        // unstakes and claims for the unique program
        let (unstake, claim) = encode_claim(incentive_key, claim_options);
        calldatas.push(unstake);
        calldatas.push(claim);
        proof {
            assert(keys.take(i + 1) =~= keys.take(i as int).push(incentive_key@));
            lemma_unstake_claim_calls_push(keys.take(i as int), incentive_key@, claim_options@);
            let calls = unstake_claim_calls(keys.take(i as int), claim_options@);
            assert(payloads(calldatas@) =~= payloads(before).push(unstake@).push(claim@));
            assert(call_payloads(
                calls.push(unstake_call(incentive_key@, claim_options@)).push(
                    claim_call(incentive_key@, claim_options@),
                ),
            ) =~= call_payloads(calls).push(unstake@).push(claim@));
        }
        i += 1;
    }
    let owner = withdraw_options.withdraw_options.owner;
    let data = match withdraw_options.withdraw_options.data {
        Some(data) => data,
        None => Vec::new(),
    };
    let ghost before = calldatas@;
    let withdraw = encode_withdraw_token(&claim_options.token_id, &owner, &data);
    calldatas.push(withdraw);
    let calldata = encode_multicall(calldatas);
    proof {
        assert(keys.take(n as int) =~= keys);
        let calls = withdraw_token_calls(keys, options);
        assert(payloads(calldatas@) =~= payloads(before).push(withdraw@));
        assert(call_payloads(calls) =~= call_payloads(
            unstake_claim_calls(keys, options.claim),
        ).push(withdraw@));
        assert forall|k: int| 0 <= k < keys.len() implies (#[trigger] keys[k]).wf() by {
            lemma_incentive_key_wf(incentive_keys@[k]);
        }
        lemma_claim_options_wf(claim_options);
        assert(data@.len() == data.len() <= usize::MAX);
        lemma_withdraw_token_calls_wf(keys, options);
        assert(calldata@.len() == calldata.len() <= usize::MAX);
        lemma_calls_round_trip(calls);
    }
    Ok(MethodParameters { calldata, value: U256::zero() })
}

/// The payload that stakes a position into the given programs when the
/// position is transferred to the contract. One key is sent as a bare
/// tuple; two or more as a dynamic array of tuples: the contract tells the
/// two apart by the payload's shape. An empty list of keys is refused.
pub fn encode_deposit<P: PoolAddress>(incentive_keys: &[IncentiveKey<P>]) -> (result: Result<
    Vec<u8>,
    StakerError,
>)
    ensures
        match result {
            Ok(payload) => {
                &&& incentive_keys@.len() > 0
                &&& payload@ == deposit_payload(incentive_key_views(incentive_keys@))
            },
            Err(error) => incentive_keys@.len() == 0 && error == StakerError::EmptyIncentiveKeyList,
        },
{
    let n: usize = incentive_keys.len();
    if n == 0 {
        Err(StakerError::EmptyIncentiveKeyList)
    } else if n == 1 {
        Ok(abi_encode_key(&encode_incentive_key(&incentive_keys[0])))
    } else {
        let ghost keys = incentive_key_views(incentive_keys@);
        let mut tuples: Vec<KeyTuple> = Vec::new();
        let mut i: usize = 0;
        while i < n
            invariant
                i <= n,
                n == incentive_keys@.len(),
                keys == incentive_key_views(incentive_keys@),
                key_views(tuples@) == keys.take(i as int),
            decreases n - i,
        {
            let ghost before = tuples@;
            let tuple = encode_incentive_key(&incentive_keys[i]);
            tuples.push(tuple);
            assert(key_views(tuples@) =~= key_views(before).push(tuple@));
            assert(keys.take(i + 1) =~= keys.take(i as int).push(tuple@));
            i += 1;
        }
        assert(keys.take(n as int) =~= keys);
        Ok(abi_encode_key_array(&tuples))
    }
}

/// A key made of addresses and 256-bit integers holds what fits the
/// contract's tuple.
pub proof fn lemma_incentive_key_wf<P: PoolAddress>(key: IncentiveKey<P>)
    ensures
        key@.wf(),
{
    key.start_time.lemma_fits_word();
    key.end_time.lemma_fits_word();
}

/// Claim options made of an address and 256-bit integers are well formed.
pub proof fn lemma_claim_options_wf(options: ClaimOptions)
    ensures
        options@.wf(),
{
    options.token_id.lemma_fits_word();
    if let Some(amount) = options.amount {
        amount.lemma_fits_word();
    }
}

/// Adding a key to the list adds its three calls to the end of the calls.
pub proof fn lemma_collect_rewards_calls_push(keys: Seq<KeyView>, key: KeyView, options: ClaimView)
    ensures
        collect_rewards_calls(keys.push(key), options) == collect_rewards_calls(
            keys,
            options,
        ).push(unstake_call(key, options)).push(claim_call(key, options)).push(
            stake_call(key, options),
        ),
{
    let n = keys.len() as int;
    let longer = collect_rewards_calls(keys.push(key), options);
    let pushed = collect_rewards_calls(keys, options).push(unstake_call(key, options)).push(
        claim_call(key, options),
    ).push(stake_call(key, options));
    assert(longer.len() == pushed.len());
    assert forall|i: int| 0 <= i < longer.len() implies longer[i] == pushed[i] by {
        if i < 3 * n {
            assert(i / 3 < n);
        } else {
            assert(i / 3 == n);
        }
    }
    assert(longer =~= pushed);
}

/// The calls of `collect_rewards` are well formed where the keys and the
/// options are.
pub proof fn lemma_collect_rewards_calls_wf(keys: Seq<KeyView>, options: ClaimView)
    requires
        forall|k: int| 0 <= k < keys.len() ==> (#[trigger] keys[k]).wf(),
        options.wf(),
    ensures
        forall|i: int|
            0 <= i < collect_rewards_calls(keys, options).len() ==> (
            #[trigger] collect_rewards_calls(keys, options)[i]).wf(),
{
    let calls = collect_rewards_calls(keys, options);
    assert forall|i: int| 0 <= i < calls.len() implies (#[trigger] calls[i]).wf() by {
        assert(0 <= i / 3 < keys.len());
        assert(keys[i / 3].wf());
    }
}

/// Round trip of a workflow: decoding its call data gives back the calls
/// it was made of, each with its function and arguments, in order. The
/// call data must be short enough for its length to fit a word.
pub proof fn lemma_calls_round_trip(calls: Seq<StakerCall>)
    requires
        forall|i: int| 0 <= i < calls.len() ==> (#[trigger] calls[i]).wf(),
        workflow_calldata(calls).len() < word_limit(),
    ensures
        decode_calls(workflow_calldata(calls)) == Some(calls),
{
    let items = call_payloads(calls);
    lemma_multicall_round_trip(items);
    assert forall|i: int| 0 <= i < items.len() implies (#[trigger] decode_call(items[i])) == Some(
        calls[i],
    ) by {
        lemma_call_round_trip(calls[i]);
    }
    assert(Seq::new(items.len(), |i: int| decode_call(items[i])->0) =~= calls);
}

/// Adding a key to the list adds its two calls to the end of the calls.
pub proof fn lemma_unstake_claim_calls_push(keys: Seq<KeyView>, key: KeyView, options: ClaimView)
    ensures
        unstake_claim_calls(keys.push(key), options) == unstake_claim_calls(keys, options).push(
            unstake_call(key, options),
        ).push(claim_call(key, options)),
{
    let n = keys.len() as int;
    let longer = unstake_claim_calls(keys.push(key), options);
    let pushed = unstake_claim_calls(keys, options).push(unstake_call(key, options)).push(
        claim_call(key, options),
    );
    assert(longer.len() == pushed.len());
    assert forall|i: int| 0 <= i < longer.len() implies longer[i] == pushed[i] by {
        if i < 2 * n {
            assert(i / 2 < n);
        } else {
            assert(i / 2 == n);
        }
    }
    assert(longer =~= pushed);
}

/// The calls of `withdraw_token` are well formed where the keys and the
/// options are.
pub proof fn lemma_withdraw_token_calls_wf(keys: Seq<KeyView>, options: FullWithdrawView)
    requires
        forall|k: int| 0 <= k < keys.len() ==> (#[trigger] keys[k]).wf(),
        options.wf(),
    ensures
        forall|i: int|
            0 <= i < withdraw_token_calls(keys, options).len() ==> (
            #[trigger] withdraw_token_calls(keys, options)[i]).wf(),
{
    let calls = withdraw_token_calls(keys, options);
    assert forall|i: int| 0 <= i < calls.len() implies (#[trigger] calls[i]).wf() by {
        if i < 2 * keys.len() {
            assert(0 <= i / 2 < keys.len());
            assert(keys[i / 2].wf());
        }
    }
}

/// For one key, collecting rewards makes exactly three calls, in this
/// order: unstake, claim, stake.
pub proof fn lemma_collect_rewards_one_key(key: KeyView, options: ClaimView)
    ensures
        collect_rewards_calls(seq![key], options) == seq![
            unstake_call(key, options),
            claim_call(key, options),
            stake_call(key, options),
        ],
{
    assert(collect_rewards_calls(seq![key], options) =~= seq![
        unstake_call(key, options),
        claim_call(key, options),
        stake_call(key, options),
    ]);
}

/// For any number of keys, collecting rewards makes three calls a key and
/// no other: the calls of the first key come first, those of the second
/// next, and so on, each key's calls in the order unstake, claim, stake.
pub proof fn lemma_collect_rewards_order(keys: Seq<KeyView>, options: ClaimView)
    ensures
        collect_rewards_calls(keys, options).len() == 3 * keys.len(),
        forall|k: int|
            #![trigger keys[k]]
            0 <= k < keys.len() ==> {
                let calls = collect_rewards_calls(keys, options);
                &&& calls[3 * k] == unstake_call(keys[k], options)
                &&& calls[3 * k + 1] == claim_call(keys[k], options)
                &&& calls[3 * k + 2] == stake_call(keys[k], options)
            },
{
}

/// For any number of keys, withdrawing makes two calls a key and one more:
/// the calls of the first key come first, those of the second next, and so
/// on, each key's calls in the order unstake, claim; the last call of all
/// is the one `withdrawToken`.
pub proof fn lemma_withdraw_token_order(keys: Seq<KeyView>, options: FullWithdrawView)
    ensures
        withdraw_token_calls(keys, options).len() == 2 * keys.len() + 1,
        forall|k: int|
            #![trigger keys[k]]
            0 <= k < keys.len() ==> {
                let calls = withdraw_token_calls(keys, options);
                &&& calls[2 * k] == unstake_call(keys[k], options.claim)
                &&& calls[2 * k + 1] == claim_call(keys[k], options.claim)
            },
        withdraw_token_calls(keys, options)[2 * keys.len() as int] == withdraw_call(options),
{
}

/// The words of a list of keys take five words a key.
pub proof fn lemma_key_list_words_len(keys: Seq<KeyView>)
    requires
        forall|k: int| 0 <= k < keys.len() ==> (#[trigger] keys[k]).wf(),
    ensures
        key_list_words(keys).len() == 160 * keys.len(),
    decreases keys.len(),
{
    if keys.len() > 0 {
        lemma_key_list_words_len(keys.drop_last());
        lemma_key_words_len(keys.last());
    }
}

/// The two shapes of a deposit never coincide: a bare tuple is five words
/// long, an array of tuples two words and five for each tuple, so the
/// payload of one key is the payload of no array, whatever the array
/// holds.
pub proof fn lemma_deposit_shapes_differ(key: KeyView, keys: Seq<KeyView>)
    requires
        key.wf(),
        forall|k: int| 0 <= k < keys.len() ==> (#[trigger] keys[k]).wf(),
    ensures
        deposit_payload(seq![key]) == key_words(key),
        keys.len() >= 2 ==> deposit_payload(keys) == key_array(keys),
        key_words(key).len() == 160,
        key_array(keys).len() == 64 + 160 * keys.len(),
        key_words(key) != key_array(keys),
{
    lemma_key_words_len(key);
    lemma_key_list_words_len(keys);
    lemma_word(32);
    lemma_word(keys.len());
}

/// A claim with no amount is the claim with the amount zero: the two
/// options have one view, and so every function here sends one as it
/// sends the other.
pub proof fn lemma_absent_amount_is_zero(absent: ClaimOptions, zero: ClaimOptions, key: KeyView)
    requires
        absent.token_id == zero.token_id,
        absent.recipient == zero.recipient,
        absent.amount is None,
        zero.amount matches Some(amount) && amount@ == 0,
    ensures
        absent@ == zero@,
        claim_call(key, absent@).bytes() == claim_call(key, zero@).bytes(),
{
}

} // verus!
