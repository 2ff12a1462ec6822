//! Overlay of two output views: a transient one (the block being checked, or
//! the memory pool) over the chain.
use vstd::prelude::*;
use crate::accept::{PreviousOutputView, prev_output, prev_spent};
use crate::chain::{IndexedTransaction, OutPoint, Transaction, TransactionOutput};
use crate::memory_pool::{MemoryPool, claims, tx_claims};

verus! {

/// The output `op` names, as the transactions of `block` before position
/// `bound` create it.
pub open spec fn spec_block_output(block: Seq<IndexedTransaction>, op: OutPoint, bound: int) -> Option<TransactionOutput> {
    if exists|k: int| 0 <= k < block.len() && k < bound && #[trigger] block[k].hash == op.hash {
        let k = choose|k: int| 0 <= k < block.len() && k < bound && #[trigger] block[k].hash == op.hash && forall|j: int|
            0 <= j < k ==> #[trigger] block[j].hash != op.hash;
        let outs = block[k].raw.outputs@;
        if (op.index as int) < outs.len() {
            Some(outs[op.index as int])
        } else {
            None
        }
    } else {
        None
    }
}

pub open spec fn same_output(a: Option<TransactionOutput>, b: Option<TransactionOutput>) -> bool {
    &&& a.is_some() == b.is_some()
    &&& a.is_some() ==> a.unwrap().value == b.unwrap().value && a.unwrap().script_pubkey@ == b.unwrap().script_pubkey@
}

/// The output `op` names among the transactions of `block` at positions below
/// `transaction_index` (the first with that hash), so that a transaction sees
/// only what comes before it in its block.
pub fn block_transaction_output(
    block: &Vec<IndexedTransaction>,
    op: &OutPoint,
    transaction_index: usize,
) -> (r: Option<TransactionOutput>)
    ensures
        same_output(r, spec_block_output(block@, *op, transaction_index as int)),
{
    let mut k: usize = 0;
    while k < block.len() && k < transaction_index
        invariant
            k <= block@.len(),
            forall|j: int| 0 <= j < k ==> #[trigger] block@[j].hash != op.hash,
        decreases block@.len() - k,
    {
        if block[k].hash == op.hash {
            proof {
                let c = choose|c: int| 0 <= c < block@.len() && c < transaction_index && #[trigger] block@[c].hash == op.hash
                    && forall|j: int| 0 <= j < c ==> #[trigger] block@[j].hash != op.hash;
                assert(block@[k as int].hash == op.hash);
                if c < k {
                } else if c > k {
                    assert(block@[k as int].hash != op.hash);
                }
            }
            let outs = &block[k].raw.outputs;
            if (op.index as usize) < outs.len() {
                return Some(outs[op.index as usize].clone_output());
            } else {
                return None;
            }
        }
        k = k + 1;
    }
    None
}

/// Whether a transaction of `block` spends `op`.
pub fn block_is_spent(block: &Vec<IndexedTransaction>, op: &OutPoint) -> (r: bool)
    ensures
        r == exists|k: int| 0 <= k < block@.len() && #[trigger] tx_claims(block@[k].raw, *op),
{
    let mut k: usize = 0;
    while k < block.len()
        invariant
            k <= block@.len(),
            forall|j: int| 0 <= j < k ==> !#[trigger] tx_claims(block@[j].raw, *op),
        decreases block@.len() - k,
    {
        if crate::memory_pool::find_claim(&block[k].raw, op).is_some() {
            assert(tx_claims(block@[k as int].raw, *op));
            return true;
        }
        k = k + 1;
    }
    false
}

/// The transient view's answer where it has one, the chain's otherwise.
pub fn duplex_output(primary: Option<TransactionOutput>, secondary: Option<TransactionOutput>) -> (r: Option<TransactionOutput>)
    ensures
        r == if primary.is_some() { primary } else { secondary },
{
    match primary {
        Some(o) => Some(o),
        None => secondary,
    }
}

/// An output is spent where either view says so.
pub fn duplex_is_spent(primary: bool, secondary: bool) -> (r: bool)
    ensures
        r == (primary || secondary),
{
    primary || secondary
}

/// The views a transaction is checked against before it enters the pool: the
/// pool's unspent outputs and its spends laid over what the chain answered for
/// each input (`chain[i]` for input `i`).  Metadata and script results are the
/// chain entry's; the caller runs the script evaluator on the outputs found
/// here and records its results afterwards.
pub fn pool_over_chain(pool: &MemoryPool, tx: &Transaction, chain: &Vec<PreviousOutputView>) -> (r: Vec<PreviousOutputView>)
    requires
        pool.wf(),
        chain@.len() == tx.inputs@.len(),
    ensures
        r@.len() == tx.inputs@.len(),
        forall|i: int| 0 <= i < r@.len() ==> {
            let op = tx.inputs@[i].previous_output;
            &&& same_output(
                #[trigger] r@[i].output,
                if pool.spec_output(op).is_some() { pool.spec_output(op) } else { prev_output(chain@, i) },
            )
            &&& r@[i].spent == ((exists|k: int| 0 <= k < pool@.len() && #[trigger] claims(pool@[k], op)) || prev_spent(chain@, i))
            &&& r@[i].meta == chain@[i].meta
            &&& r@[i].script_result == chain@[i].script_result
        },
{
    let mut r: Vec<PreviousOutputView> = Vec::new();
    let mut i: usize = 0;
    while i < tx.inputs.len()
        invariant
            pool.wf(),
            chain@.len() == tx.inputs@.len(),
            i <= tx.inputs@.len(),
            r@.len() == i,
            forall|j: int| 0 <= j < i ==> {
                let op = tx.inputs@[j].previous_output;
                &&& same_output(
                    #[trigger] r@[j].output,
                    if pool.spec_output(op).is_some() { pool.spec_output(op) } else { prev_output(chain@, j) },
                )
                &&& r@[j].spent == ((exists|k: int| 0 <= k < pool@.len() && #[trigger] claims(pool@[k], op)) || prev_spent(chain@, j))
                &&& r@[j].meta == chain@[j].meta
                &&& r@[j].script_result == chain@[j].script_result
            },
        decreases tx.inputs@.len() - i,
    {
        let op = &tx.inputs[i].previous_output;
        let from_pool = pool.transaction_output(op);
        let from_chain = match &chain[i].output {
            Some(o) => Some(o.clone_output()),
            None => None,
        };
        let output = duplex_output(from_pool, from_chain);
        let spent = duplex_is_spent(pool.is_spent(op), chain[i].spent);
        r.push(PreviousOutputView { output, meta: chain[i].meta, spent, script_result: chain[i].script_result });
        i = i + 1;
    }
    r
}

} // verus!
