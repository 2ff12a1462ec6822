//! Fee and fee rate of a transaction whose previous outputs are known.
use vstd::prelude::*;
use crate::accept::{PreviousOutputView, available_upto, available_value, spec_overspent};
use crate::chain::Transaction;

verus! {

pub const MAX_U64: u64 = 0xFFFF_FFFF_FFFF_FFFF;

/// The fee: inputs minus outputs, held within `0 ..= u64::MAX`.  An input whose
/// previous output is unknown brings in nothing.
pub open spec fn spec_transaction_fee(tx: Transaction, views: Seq<PreviousOutputView>) -> u64 {
    let d = available_upto(views, tx.inputs@.len() as int) - tx.spec_total_spends();
    if d < 0 {
        0
    } else if d > MAX_U64 {
        MAX_U64
    } else {
        d as u64
    }
}

pub fn transaction_fee(views: &Vec<PreviousOutputView>, tx: &Transaction) -> (r: u64)
    ensures
        r == spec_transaction_fee(*tx, views@),
{
    let available = available_value(tx, views);
    let spends = tx.total_spends();
    if available < spends {
        0
    } else if available - spends > MAX_U64 as u128 {
        MAX_U64
    } else {
        (available - spends) as u64
    }
}

/// Fee per byte of a transaction of `size` serialized bytes, rounded down.
pub fn transaction_fee_rate(views: &Vec<PreviousOutputView>, tx: &Transaction, size: usize) -> (r: u64)
    requires
        size > 0,
    ensures
        r == spec_transaction_fee(*tx, views@) / (size as u64),
{
    transaction_fee(views, tx) / (size as u64)
}

/// Where the overspend check passes, the fee is exactly what the inputs bring
/// in beyond the outputs (up to the `u64` range), which is never negative.
pub proof fn lemma_fee_nonnegative_after_overspend(tx: Transaction, views: Seq<PreviousOutputView>)
    requires
        !tx.spec_is_coinbase(),
        spec_overspent(tx, views).is_ok(),
    ensures
        available_upto(views, tx.inputs@.len() as int) - tx.spec_total_spends() >= 0,
        available_upto(views, tx.inputs@.len() as int) - tx.spec_total_spends() <= MAX_U64
            ==> spec_transaction_fee(tx, views) == available_upto(views, tx.inputs@.len() as int)
            - tx.spec_total_spends(),
{
}

} // verus!
