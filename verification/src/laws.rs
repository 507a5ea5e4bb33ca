//! What holds of the store as a whole, stated over what its functions promise.

pub mod format;
pub mod log;
pub mod order;
pub mod paths;
pub mod store;
pub mod table;
pub mod views;
