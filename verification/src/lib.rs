//! Finding the key at which a region that holds more than one table is split.
//!
//! - [`keys`]: regions, and the keys under which their data are stored.
//! - [`codec`]: how keys of tables are written down.
//! - [`table`]: the check itself.
//! - [`order`] and [`laws`]: the order of keys, and what the check promises.

pub mod codec;
pub mod keys;
pub mod laws;
pub mod order;
pub mod table;
