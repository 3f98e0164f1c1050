//! Network inflation: a tapering issuance rate, split between validators, a
//! foundation allocation and a fixed set of vaults.
//!
//! Every rate is a fixed-point fraction with nine decimal places (see
//! [`RATE_ONE`]), and time is counted in whole years.

mod digits;
pub mod inflation;
pub mod vault_addresses;

pub use inflation::{
    Inflation, DEFAULT_FOUNDATION, DEFAULT_FOUNDATION_TERM, DEFAULT_INITIAL, DEFAULT_TAPER,
    DEFAULT_TERMINAL, RATE_ONE,
};
pub use vault_addresses::{vault_allocations, VaultAllocation};
