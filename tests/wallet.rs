use mempool::chain::{H256, OutPoint, TransactionOutput};
use mempool::wallet::{calculate_balance, send_cash, WalletError};

fn out(value: u64) -> TransactionOutput {
    TransactionOutput { value, script_pubkey: vec![9; 20] }
}

#[test]
fn balance_sums_every_output() {
    assert_eq!(calculate_balance(&vec![out(5), out(7), out(u64::MAX)]), 12 + u64::MAX as u128);
    assert_eq!(calculate_balance(&vec![]), 0);
}

#[test]
fn payment_sends_change_back() {
    let op = OutPoint { hash: H256(3, 0, 0, 0), index: 1 };
    let tx = send_cash(&vec![op], &vec![out(100)], &vec![1; 20], &vec![2; 20], 30).unwrap();
    assert_eq!(tx.inputs.len(), 1);
    assert_eq!(tx.inputs[0].previous_output, op);
    assert_eq!(tx.outputs.len(), 2);
    assert_eq!((tx.outputs[0].value, tx.outputs[1].value), (30, 70));
    assert_eq!(tx.outputs[0].script_pubkey, vec![1; 20]);
    assert_eq!(tx.outputs[1].script_pubkey, vec![2; 20]);
}

#[test]
fn exact_payment_has_no_change() {
    let op = OutPoint { hash: H256(3, 0, 0, 0), index: 1 };
    let tx = send_cash(&vec![op], &vec![out(100)], &vec![1; 20], &vec![2; 20], 100).unwrap();
    assert_eq!(tx.outputs.len(), 1);
}

#[test]
fn payment_errors() {
    let op = OutPoint { hash: H256(3, 0, 0, 0), index: 1 };
    assert_eq!(send_cash(&vec![], &vec![], &vec![1; 20], &vec![2; 20], 1).err(), Some(WalletError::NoUnspentOutputs));
    assert_eq!(
        send_cash(&vec![op], &vec![out(10)], &vec![1; 20], &vec![2; 20], 11).err(),
        Some(WalletError::NotEnoughMoney)
    );
}
