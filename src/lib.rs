//! Memory pool, transaction acceptance and block assembly for a UTXO-model
//! cryptocurrency node, with their rules proved.
use vstd::prelude::*;

pub mod accept;
pub mod block_assembler;
pub mod chain;
pub mod duplex;
pub mod fee;
pub mod memory_pool;
pub mod script;
pub mod wallet;

verus! {

} // verus!
