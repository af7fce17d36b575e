//! The numeric core of a concentrated-liquidity pool of two assets.
//!
//! Prices are kept as square roots in a signed fixed-point number of 18
//! fractional digits (`decimal`, `checked`, `fixed_point`), and are tied to
//! ticks, the steps of one basis point in price (`tick_math`). Liquidity is
//! held in positions over ranges of ticks (`position`, `liquidity`), whose
//! ends the pool keeps in a ledger (`tick_ledger`). A swap walks the price
//! from tick to tick (`swap_math`, `swap`). `pool` holds the state and the
//! operations; `accounting` and `pool_laws` hold what is proved of them
//! together.

pub mod accounting;
pub mod checked;
pub mod decimal;
pub mod error;
pub mod fixed_point;
pub mod liquidity;
pub mod pool;
pub mod pool_laws;
pub mod position;
pub mod swap;
pub mod swap_math;
pub mod tick_ledger;
pub mod tick_math;
