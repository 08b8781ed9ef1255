//! Verified core of the Synapt launcher: search data structures, the invite
//! and framing codecs, the cryptographic session helpers and the transfer
//! bookkeeping.
pub mod text;
pub mod paths;
pub mod storage;
pub mod trust;
pub mod ipc;
pub mod notify;
pub mod commands;
pub mod platform;
pub mod search;
pub mod network;
