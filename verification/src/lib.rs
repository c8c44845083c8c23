//! Call data for a staking contract that runs time-bounded incentive
//! programs over liquidity positions.
//!
//! [`staker`] holds the three workflows; [`contract`] and [`multicall`] say
//! which bytes each call is sent as; [`abi`] states the byte layout that
//! both rest on.

pub mod abi;
pub mod contract;
pub mod multicall;
pub mod primitives;
pub mod staker;

pub use crate::contract::{KeyTuple, StakerCall};
pub use crate::multicall::encode_multicall;
pub use crate::primitives::{Address, U256};
pub use crate::staker::{
    collect_rewards, encode_claim, encode_deposit, encode_incentive_key, withdraw_token,
    ClaimOptions, FullWithdrawOptions, IncentiveKey, MethodParameters, PoolAddress, StakerError,
    WithdrawOptions,
};
