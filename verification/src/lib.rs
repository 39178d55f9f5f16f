//! A log-structured key-value store: an append-only log of checksummed
//! records and an index from each key to the offset of its latest record,
//! together with a few small verified utilities.

pub mod check_functions;
pub mod cpu;
pub mod cube_sats;
pub mod index;
pub mod record;
pub mod replay;
pub mod rpg;
pub mod store;

pub use check_functions::parity_check;
pub use cpu::{Cpu, Fault, Step};
pub use cube_sats::{CubeSat, GroundStation, Mailbox, Message};
pub use index::Index;
pub use record::{KeyValuePair, StoreError};
pub use rpg::Thing;
pub use store::{ActionKV, LogStore};
