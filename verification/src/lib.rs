//! A store that keeps secrets encrypted in memory, and the logic of the
//! command-line client that talks to it.
pub mod crypto;
pub mod key_order;
pub mod table;
pub mod protocol;
pub mod password;
pub mod daemon;
pub mod laws;
pub mod client;
