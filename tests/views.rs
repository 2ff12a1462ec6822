use mempool::chain::{H256, IndexedTransaction, OutPoint, Transaction, TransactionInput, TransactionOutput};
use mempool::accept::PreviousOutputView;
use mempool::duplex::{block_is_spent, block_transaction_output, duplex_is_spent, duplex_output, pool_over_chain};
use mempool::memory_pool::MemoryPool;

fn block_tx(id: u64, spends: u64, values: &[u64]) -> IndexedTransaction {
    IndexedTransaction {
        hash: H256(id, 0, 0, 0),
        raw: Transaction {
            version: 1,
            inputs: vec![TransactionInput {
                previous_output: OutPoint { hash: H256(spends, 0, 0, 0), index: 0 },
                script_sig: vec![],
                sequence: 0xffff_ffff,
                script_witness: vec![],
            }],
            outputs: values.iter().map(|v| TransactionOutput { value: *v, script_pubkey: vec![1] }).collect(),
            lock_time: 0,
        },
    }
}

#[test]
fn block_view_hides_later_transactions() {
    let block = vec![block_tx(1, 100, &[5, 6]), block_tx(2, 1, &[7])];
    let op = OutPoint { hash: H256(2, 0, 0, 0), index: 0 };
    assert!(block_transaction_output(&block, &op, 1).is_none());
    assert_eq!(block_transaction_output(&block, &op, 2).map(|o| o.value), Some(7));
    let op = OutPoint { hash: H256(1, 0, 0, 0), index: 1 };
    assert_eq!(block_transaction_output(&block, &op, 1).map(|o| o.value), Some(6));
    let op = OutPoint { hash: H256(1, 0, 0, 0), index: 2 };
    assert!(block_transaction_output(&block, &op, 2).is_none());
}

#[test]
fn block_view_knows_what_its_transactions_spend() {
    let block = vec![block_tx(1, 100, &[5]), block_tx(2, 1, &[7])];
    assert!(block_is_spent(&block, &OutPoint { hash: H256(1, 0, 0, 0), index: 0 }));
    assert!(!block_is_spent(&block, &OutPoint { hash: H256(2, 0, 0, 0), index: 0 }));
}

#[test]
fn primary_view_wins_and_spent_is_either() {
    let primary = Some(TransactionOutput { value: 1, script_pubkey: vec![] });
    let secondary = Some(TransactionOutput { value: 2, script_pubkey: vec![] });
    assert_eq!(duplex_output(primary, None).map(|o| o.value), Some(1));
    assert_eq!(duplex_output(None, secondary).map(|o| o.value), Some(2));
    assert!(duplex_output(None, None).is_none());
    assert!(duplex_is_spent(false, true));
    assert!(!duplex_is_spent(false, false));
}

#[test]
fn pool_outputs_overlay_the_chain() {
    let mut pool = MemoryPool::new();
    assert!(pool.insert(block_tx(1, 100, &[5, 6]), 1, 10, 1).is_ok());
    let spender = Transaction {
        version: 1,
        inputs: vec![
            TransactionInput {
                previous_output: OutPoint { hash: H256(1, 0, 0, 0), index: 1 },
                script_sig: vec![],
                sequence: 0xffff_ffff,
                script_witness: vec![],
            },
            TransactionInput {
                previous_output: OutPoint { hash: H256(100, 0, 0, 0), index: 0 },
                script_sig: vec![],
                sequence: 0xffff_ffff,
                script_witness: vec![],
            },
        ],
        outputs: vec![],
        lock_time: 0,
    };
    let chain = vec![
        PreviousOutputView { output: None, meta: None, spent: false, script_result: Ok(()) },
        PreviousOutputView {
            output: Some(TransactionOutput { value: 40, script_pubkey: vec![] }),
            meta: None,
            spent: false,
            script_result: Ok(()),
        },
    ];
    let views = pool_over_chain(&pool, &spender, &chain);
    assert_eq!(views[0].output.as_ref().map(|o| o.value), Some(6));
    assert!(!views[0].spent);
    assert_eq!(views[1].output.as_ref().map(|o| o.value), Some(40));
    assert!(views[1].spent);
}
