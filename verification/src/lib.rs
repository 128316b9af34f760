//! Building one time-ordered event timeline from the recordings of a vehicle run:
//! bus-traffic frames read from a tabular log, video frame markers and alerts.
//!
//! Every function in this crate carries a contract that Verus proves. The few
//! items that rest on code outside the crate are marked as such where they stand.
pub mod alert;
pub mod compare;
pub mod input;
pub mod message;
pub mod number;
pub mod order;
pub mod reader;
pub mod text;

pub use message::Nanos;
