use alloy_sol_types::SolValue;
use v3_staker::contract::{
    encode_claim_reward, encode_stake_token, encode_unstake_token, encode_withdraw_token,
    with_selector,
};
use v3_staker::{
    collect_rewards, encode_claim, encode_deposit, encode_incentive_key, encode_multicall,
    withdraw_token, Address, ClaimOptions, FullWithdrawOptions, IncentiveKey, KeyTuple,
    PoolAddress, StakerError, WithdrawOptions, U256,
};

type SolKey = (
    alloy_primitives::Address,
    alloy_primitives::Address,
    alloy_primitives::U256,
    alloy_primitives::U256,
    alloy_primitives::Address,
);

/// A pool that derives its address from a seed, as a pool of a caller might.
struct SeededPool {
    seed: u8,
}

impl PoolAddress for SeededPool {
    fn address(&self) -> Address {
        Address { bytes: [self.seed; 20] }
    }
}

fn bytes_of(text: &str) -> Vec<u8> {
    alloy_primitives::hex::decode(text).unwrap()
}

fn account(last: u8) -> Address {
    let mut bytes = [0u8; 20];
    bytes[19] = last;
    Address { bytes }
}

fn number(value: u64) -> U256 {
    U256 { limbs: [value, 0, 0, 0] }
}

fn to_sol_address(a: &Address) -> alloy_primitives::Address {
    alloy_primitives::Address::new(a.bytes)
}

fn to_sol_uint(n: &U256) -> alloy_primitives::U256 {
    alloy_primitives::U256::from_limbs(n.limbs)
}

fn to_sol_key(key: &IncentiveKey<Address>) -> SolKey {
    (
        to_sol_address(&key.reward_token),
        to_sol_address(&key.pool),
        to_sol_uint(&key.start_time),
        to_sol_uint(&key.end_time),
        to_sol_address(&key.refundee),
    )
}

fn key(seed: u8) -> IncentiveKey<Address> {
    IncentiveKey {
        reward_token: Address { bytes: [0x1f; 20] },
        pool: Address { bytes: [0x4f; 20] },
        start_time: number(100 + seed as u64),
        end_time: number(200 + seed as u64),
        refundee: account(seed),
    }
}

fn claim_options(amount: Option<U256>) -> ClaimOptions {
    ClaimOptions { token_id: number(1), recipient: account(3), amount }
}

fn full_options(data: Option<Vec<u8>>) -> FullWithdrawOptions {
    FullWithdrawOptions {
        claim_options: claim_options(None),
        withdraw_options: WithdrawOptions { owner: account(4), data },
    }
}

/// Takes a `multicall` apart with the encoder crate's own decoder.
fn split_multicall(calldata: &[u8]) -> Vec<Vec<u8>> {
    assert_eq!(&calldata[..4], &[0xac, 0x96, 0x50, 0xd8]);
    let (items,) = <(Vec<alloy_primitives::Bytes>,)>::abi_decode_params(&calldata[4..]).unwrap();
    items.into_iter().map(|item| item.to_vec()).collect()
}

fn check_key_call(call: &[u8], selector: [u8; 4], key: &IncentiveKey<Address>, id: &U256) {
    assert_eq!(&call[..4], &selector);
    let decoded = <(SolKey, alloy_primitives::U256)>::abi_decode_params(&call[4..]).unwrap();
    assert_eq!(decoded, (to_sol_key(key), to_sol_uint(id)));
}

fn check_unstake(call: &[u8], key: &IncentiveKey<Address>, id: &U256) {
    check_key_call(call, [0xf5, 0x49, 0xab, 0x42], key, id);
}

fn check_stake(call: &[u8], key: &IncentiveKey<Address>, id: &U256) {
    check_key_call(call, [0xf2, 0xd2, 0x90, 0x9b], key, id);
}

fn check_claim(call: &[u8], reward_token: &Address, to: &Address, amount: &U256) {
    assert_eq!(&call[..4], &[0x2f, 0x2d, 0x78, 0x3d]);
    let decoded = <(
        alloy_primitives::Address,
        alloy_primitives::Address,
        alloy_primitives::U256,
    )>::abi_decode_params(&call[4..])
    .unwrap();
    assert_eq!(decoded, (to_sol_address(reward_token), to_sol_address(to), to_sol_uint(amount)));
}

fn check_withdraw(call: &[u8], id: &U256, to: &Address, data: &[u8]) {
    assert_eq!(&call[..4], &[0x3c, 0x42, 0x3f, 0x0b]);
    let decoded = <(
        alloy_primitives::U256,
        alloy_primitives::Address,
        alloy_primitives::Bytes,
    )>::abi_decode_params(&call[4..])
    .unwrap();
    assert_eq!(decoded.0, to_sol_uint(id));
    assert_eq!(decoded.1, to_sol_address(to));
    assert_eq!(decoded.2.to_vec(), data.to_vec());
}

#[test]
fn collect_rewards_rejects_empty_key_list() {
    let keys: Vec<IncentiveKey<Address>> = Vec::new();
    assert_eq!(
        collect_rewards(&keys, claim_options(None)),
        Err(StakerError::EmptyIncentiveKeyList)
    );
}

#[test]
fn withdraw_token_rejects_empty_key_list() {
    let keys: Vec<IncentiveKey<Address>> = Vec::new();
    assert_eq!(
        withdraw_token(&keys, full_options(None)),
        Err(StakerError::EmptyIncentiveKeyList)
    );
}

#[test]
fn encode_deposit_rejects_empty_key_list() {
    let keys: Vec<IncentiveKey<Address>> = Vec::new();
    assert_eq!(encode_deposit(&keys), Err(StakerError::EmptyIncentiveKeyList));
}

#[test]
fn collect_rewards_one_key_is_unstake_claim_stake() {
    let k = key(1);
    let options = claim_options(Some(number(1)));
    let parameters = collect_rewards(&[k.clone()], options).unwrap();
    assert_eq!(parameters.value, U256::zero());
    let calls = split_multicall(&parameters.calldata);
    assert_eq!(calls.len(), 3);
    check_unstake(&calls[0], &k, &number(1));
    check_claim(&calls[1], &k.reward_token, &account(3), &number(1));
    check_stake(&calls[2], &k, &number(1));
}

#[test]
fn collect_rewards_keeps_per_key_order() {
    let keys = vec![key(7), key(2), key(9), key(2)];
    let options = claim_options(Some(number(55)));
    let parameters = collect_rewards(&keys, options).unwrap();
    let calls = split_multicall(&parameters.calldata);
    assert_eq!(calls.len(), 12);
    for (i, k) in keys.iter().enumerate() {
        check_unstake(&calls[3 * i], k, &number(1));
        check_claim(&calls[3 * i + 1], &k.reward_token, &account(3), &number(55));
        check_stake(&calls[3 * i + 2], k, &number(1));
    }
}

#[test]
fn withdraw_token_ends_with_one_withdraw() {
    let keys = vec![key(5), key(6)];
    let data = bytes_of("0000000000000000000000000000000000000008");
    let parameters = withdraw_token(&keys, full_options(Some(data.clone()))).unwrap();
    assert_eq!(parameters.value, U256::zero());
    let calls = split_multicall(&parameters.calldata);
    assert_eq!(calls.len(), 5);
    for (i, k) in keys.iter().enumerate() {
        check_unstake(&calls[2 * i], k, &number(1));
        check_claim(&calls[2 * i + 1], &k.reward_token, &account(3), &number(0));
    }
    check_withdraw(&calls[4], &number(1), &account(4), &data);
}

#[test]
fn withdraw_token_without_data_sends_empty_bytes() {
    let k = key(1);
    let absent = withdraw_token(&[k.clone()], full_options(None)).unwrap();
    let empty = withdraw_token(&[k.clone()], full_options(Some(Vec::new()))).unwrap();
    assert_eq!(absent, empty);
    let calls = split_multicall(&absent.calldata);
    assert_eq!(calls.len(), 3);
    check_withdraw(&calls[2], &number(1), &account(4), &[]);
    assert_eq!(calls[2].len(), 4 + 4 * 32);
}

#[test]
fn withdraw_token_pads_data_to_whole_words() {
    let data: Vec<u8> = (1..=33).collect();
    let parameters = withdraw_token(&[key(1)], full_options(Some(data.clone()))).unwrap();
    let calls = split_multicall(&parameters.calldata);
    let withdraw = &calls[2];
    assert_eq!(withdraw.len(), 4 + 4 * 32 + 64);
    assert_eq!(withdraw[4 + 95], 96);
    assert_eq!(withdraw[4 + 127], 33);
    assert_eq!(&withdraw[4 + 128..4 + 128 + 33], &data[..]);
    assert!(withdraw[4 + 128 + 33..].iter().all(|b| *b == 0));
    check_withdraw(withdraw, &number(1), &account(4), &data);
}

#[test]
fn absent_amount_encodes_as_zero() {
    let keys = vec![key(1), key(2)];
    let absent = collect_rewards(&keys, claim_options(None)).unwrap();
    let zero = collect_rewards(&keys, claim_options(Some(U256::zero()))).unwrap();
    assert_eq!(absent, zero);
    let one = collect_rewards(&keys, claim_options(Some(number(1)))).unwrap();
    assert_ne!(absent, one);
    let (_, claim) = encode_claim(&keys[0], claim_options(None));
    assert_eq!(&claim[4 + 64..], &[0u8; 32]);
}

#[test]
fn encode_claim_gives_unstake_then_claim() {
    let k = key(4);
    let (unstake, claim) = encode_claim(&k, claim_options(Some(number(9))));
    check_unstake(&unstake, &k, &number(1));
    check_claim(&claim, &k.reward_token, &account(3), &number(9));
    assert_eq!(unstake.len(), 4 + 6 * 32);
    assert_eq!(claim.len(), 4 + 3 * 32);
}

#[test]
fn encode_incentive_key_derives_pool_address() {
    let k = IncentiveKey {
        reward_token: account(1),
        pool: SeededPool { seed: 0xab },
        start_time: number(10),
        end_time: number(20),
        refundee: account(2),
    };
    let tuple = encode_incentive_key(&k);
    assert_eq!(
        tuple,
        KeyTuple {
            reward_token: account(1),
            pool: Address { bytes: [0xab; 20] },
            start_time: number(10),
            end_time: number(20),
            refundee: account(2),
        }
    );
    let deposit = encode_deposit(&[k]).unwrap();
    assert_eq!(&deposit[32..44], &[0u8; 12]);
    assert_eq!(&deposit[44..64], &[0xab; 20]);
}

#[test]
fn deposit_shape_depends_on_key_count() {
    let k = key(1);
    let single = encode_deposit(&[k.clone()]).unwrap();
    assert_eq!(single.len(), 5 * 32);
    assert_eq!(SolKey::abi_decode(&single).unwrap(), to_sol_key(&k));
    for n in 2usize..5 {
        let keys: Vec<IncentiveKey<Address>> = (0..n).map(|i| key(i as u8)).collect();
        let many = encode_deposit(&keys).unwrap();
        assert_eq!(many.len(), 64 + n * 160);
        assert_eq!(many[31], 32);
        assert_eq!(many[63], n as u8);
        assert_ne!(many, single);
        let decoded = <Vec<SolKey>>::abi_decode(&many).unwrap();
        let expected: Vec<SolKey> = keys.iter().map(to_sol_key).collect();
        assert_eq!(decoded, expected);
    }
    let twice = encode_deposit(&[k.clone(), k.clone()]).unwrap();
    assert_eq!(&twice[64..224], &single[..]);
    assert_eq!(&twice[224..], &single[..]);
}

#[test]
fn keys_are_neither_reordered_nor_deduplicated() {
    let keys = vec![key(9), key(1), key(9)];
    let deposit = encode_deposit(&keys).unwrap();
    let decoded = <Vec<SolKey>>::abi_decode(&deposit).unwrap();
    assert_eq!(decoded, vec![to_sol_key(&keys[0]), to_sol_key(&keys[1]), to_sol_key(&keys[2])]);
}

#[test]
fn uint_words_are_big_endian() {
    let id = U256 { limbs: [0x0807060504030201, 0x100f0e0d0c0b0a09, 0, 0x2000000000000000] };
    let call = encode_claim_reward(&account(1), &account(2), &id);
    let mut word = [0u8; 32];
    word[0] = 0x20;
    for i in 0..16 {
        word[31 - i] = (i + 1) as u8;
    }
    assert_eq!(&call[4 + 64..], &word);
    assert_eq!(to_sol_uint(&id).to_be_bytes::<32>(), word);
}

#[test]
fn call_encoders_put_the_selector_first() {
    let tuple = encode_incentive_key(&key(1));
    let id = number(77);
    let unstake = encode_unstake_token(&tuple, &id);
    let stake = encode_stake_token(&tuple, &id);
    assert_eq!(&unstake[..4], &[0xf5, 0x49, 0xab, 0x42]);
    assert_eq!(&stake[..4], &[0xf2, 0xd2, 0x90, 0x9b]);
    assert_eq!(&unstake[4..], &stake[4..]);
    check_unstake(&unstake, &key(1), &id);
    check_stake(&stake, &key(1), &id);
    let withdraw = encode_withdraw_token(&id, &account(4), &vec![1, 2, 3]);
    check_withdraw(&withdraw, &id, &account(4), &[1, 2, 3]);
}

#[test]
fn with_selector_prepends_four_bytes() {
    assert_eq!(with_selector([1, 2, 3, 4], vec![5, 6]), vec![1, 2, 3, 4, 5, 6]);
    assert_eq!(with_selector([1, 2, 3, 4], Vec::new()), vec![1, 2, 3, 4]);
}

#[test]
fn encode_multicall_round_trips_through_the_decoder() {
    let calls: Vec<Vec<u8>> =
        vec![vec![], vec![0xaa], (0..32).collect(), (0..33).collect(), vec![0xff; 100]];
    let calldata = encode_multicall(calls.clone());
    assert_eq!(split_multicall(&calldata), calls);
    assert_eq!(calldata.len(), 4 + 64 + 5 * 32 + (32) + (32 + 32) + (32 + 32) + (32 + 64) + (32 + 128));
    assert_eq!(calldata[4 + 64 + 31], 160);
    let none = encode_multicall(Vec::new());
    assert_eq!(none.len(), 4 + 64);
    assert_eq!(split_multicall(&none), Vec::<Vec<u8>>::new());
    let one = encode_multicall(vec![vec![1, 2, 3]]);
    assert_eq!(split_multicall(&one), vec![vec![1u8, 2, 3]]);
}
