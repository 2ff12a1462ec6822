//! What a wallet computes before it signs: its balance and an unsigned payment.
use vstd::prelude::*;
use crate::chain::{sum_values, lemma_sum_values_step, OutPoint, Transaction, TransactionInput, TransactionOutput, SEQUENCE_FINAL};

verus! {

#[derive(Clone, Copy, Debug, PartialEq, Eq, Structural)]
pub enum WalletError {
    /// The wallet's address holds no unspent output.
    NoUnspentOutputs,
    /// The first unspent output is worth less than the amount.
    NotEnoughMoney,
}

/// Total value of the outputs a wallet holds.
pub fn calculate_balance(outputs: &Vec<TransactionOutput>) -> (r: u128)
    ensures
        r == sum_values(outputs@),
{
    let mut total: u128 = 0;
    let mut i: usize = 0;
    while i < outputs.len()
        invariant
            i <= outputs@.len(),
            total == sum_values(outputs@.take(i as int)),
            total <= i * 0xFFFF_FFFF_FFFF_FFFFint,
        decreases outputs@.len() - i,
    {
        proof {
            lemma_sum_values_step(outputs@, i as int);
        }
        total = total + outputs[i].value as u128;
        i = i + 1;
    }
    assert(outputs@.take(i as int) =~= outputs@);
    total
}

/// The unsigned transaction that pays `amount` to `recipient` out of the
/// first unspent output, sending what is left back to `own` (where anything
/// is left). Outputs carry the key hashes as their scripts.
pub fn send_cash(
    unspent: &Vec<OutPoint>,
    unspent_outputs: &Vec<TransactionOutput>,
    recipient: &Vec<u8>,
    own: &Vec<u8>,
    amount: u64,
) -> (r: Result<Transaction, WalletError>)
    ensures
        (unspent@.len() == 0 || unspent_outputs@.len() == 0) <==> r == Err::<Transaction, WalletError>(
            WalletError::NoUnspentOutputs,
        ),
        unspent@.len() > 0 && unspent_outputs@.len() > 0 ==> (r == Err::<Transaction, WalletError>(
            WalletError::NotEnoughMoney,
        ) <==> unspent_outputs@[0].value < amount),
        r.is_ok() ==> {
            let t = r.unwrap();
            let left = unspent_outputs@[0].value - amount;
            &&& t.version == 0
            &&& t.lock_time == 0
            &&& t.inputs@.len() == 1
            &&& t.inputs@[0].previous_output == unspent@[0]
            &&& t.inputs@[0].script_sig@.len() == 0
            &&& t.inputs@[0].sequence == SEQUENCE_FINAL
            &&& t.inputs@[0].script_witness@.len() == 0
            &&& t.outputs@.len() == if left > 0 { 2int } else { 1int }
            &&& t.outputs@[0].value == amount
            &&& t.outputs@[0].script_pubkey@ == recipient@
            &&& left > 0 ==> t.outputs@[1].value == left && t.outputs@[1].script_pubkey@ == own@
        },
{
    if unspent.len() == 0 || unspent_outputs.len() == 0 {
        return Err(WalletError::NoUnspentOutputs);
    }
    let available = unspent_outputs[0].value;
    if available < amount {
        return Err(WalletError::NotEnoughMoney);
    }
    let mut outputs: Vec<TransactionOutput> = Vec::new();
    outputs.push(TransactionOutput { value: amount, script_pubkey: recipient.clone() });
    let leftover = available - amount;
    if leftover > 0 {
        outputs.push(TransactionOutput { value: leftover, script_pubkey: own.clone() });
    }
    let mut inputs: Vec<TransactionInput> = Vec::new();
    inputs.push(
        TransactionInput {
            previous_output: unspent[0],
            script_sig: Vec::new(),
            sequence: SEQUENCE_FINAL,
            script_witness: Vec::new(),
        },
    );
    Ok(Transaction { version: 0, inputs, outputs, lock_time: 0 })
}

} // verus!
