//! A bridge that hands batches of transactions to an embedded execution
//! runtime and reads its results back, over a fixed binary wire format.
pub mod codec;
pub mod types;
pub mod avm;
pub mod store;
pub mod callback;
pub mod value;
