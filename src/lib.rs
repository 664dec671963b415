//! Balances of several denominations with checked arithmetic, proportional
//! distribution of funds by basis points, and authorization policies.

pub mod auth;
pub mod coin;
pub mod denom;
pub mod error;
pub mod fund;
pub mod math;
pub mod validate;

pub use auth::{AuthError, Authorized};
pub use coin::{
    send_coin, send_coins, send_coins_many, BankMsgIo, BankMsgMultiSend, BankSend, Coin, CoinError, CoinSet,
    TransferMsg, TryIntoCoinSet,
};
pub use error::{FromResult, IntoResult, XcosmError, XcosmResult};
pub use fund::{Claim, Distribution, DistributionMsg, FundError};
pub use math::{ContainerError, MathError, TryMinus, TryMinusMut, TryPlus, TryPlusMut, ValueError};
pub use validate::{ValidateError, Validator};
