//! A single-node, append-only ledger of proof-of-work blocks whose
//! transactions spend unspent outputs, with every function verified against
//! a mathematical model of the data it touches.

pub mod errors;
pub mod digest;
pub mod hex;
pub mod codec;
pub mod signature;
pub mod address;
pub mod system;
pub mod tx;
pub mod transaction;
pub mod merkle;
pub mod block;
pub mod keyspace;
pub mod utxo;
pub mod blockchain;
pub mod wallet;
pub mod utxoset;
pub mod transfer;
pub mod balance;
pub mod cli;
