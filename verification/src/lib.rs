//! A discrete-event simulator of a small peer-to-peer network in which
//! miners extend a shared ledger of blocks and announce their blocks to
//! each other over links with a fixed delay.
//!
//! The ledger is an arena: a block is named by its position in it, and a
//! parent link is such a position. Every rule of the engine is stated as a
//! contract over mathematical views of its data.

pub mod block_map;
pub mod connection;
pub mod fork_choice;
pub mod identity;
pub mod ledger;
pub mod miner;
pub mod network;
pub mod orphans;
pub mod rng;
