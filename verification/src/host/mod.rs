//! What every command-line host of the renderer shares.
pub mod abi;
pub mod arguments;
pub mod device;
pub mod frame;
pub mod ledger;
pub mod names;
pub mod scene;
pub mod unit_laws;
pub mod units;
