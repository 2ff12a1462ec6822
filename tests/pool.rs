use mempool::block_assembler::BlockAssembler;
use mempool::chain::{H256, IndexedTransaction, OutPoint, Transaction, TransactionInput, TransactionOutput};
use mempool::memory_pool::{DoubleSpendCheckResult, MemoryPool, OrderingStrategy};
use mempool::script::{build_p2pkh, push_data};

fn tx(id: u64, spends: &[(u64, u32, u32)], outputs: usize) -> IndexedTransaction {
    IndexedTransaction {
        hash: H256(id, 0, 0, 0),
        raw: Transaction {
            version: 1,
            inputs: spends
                .iter()
                .map(|(h, i, seq)| TransactionInput {
                    previous_output: OutPoint { hash: H256(*h, 0, 0, 0), index: *i },
                    script_sig: vec![],
                    sequence: *seq,
                    script_witness: vec![],
                })
                .collect(),
            outputs: (0..outputs).map(|i| TransactionOutput { value: 10 + i as u64, script_pubkey: vec![0x51] }).collect(),
            lock_time: 0,
        },
    }
}

const FINAL: u32 = 0xffff_ffff;

#[test]
fn non_final_conflict_is_reported_as_replaceable() {
    let mut pool = MemoryPool::new();
    assert!(pool.insert(tx(1, &[(100, 0, 0)], 1), 10, 100, 1).is_ok());
    let second = tx(2, &[(100, 0, FINAL)], 1);
    assert_eq!(pool.check_double_spend(&second.raw), DoubleSpendCheckResult::NonFinalDoubleSpend(vec![H256(1, 0, 0, 0)]));
    assert_eq!(
        pool.insert(second, 10, 100, 1),
        Err(DoubleSpendCheckResult::NonFinalDoubleSpend(vec![H256(1, 0, 0, 0)]))
    );
    assert_eq!(pool.information().count, 1);
}

#[test]
fn final_conflict_is_a_double_spend() {
    let mut pool = MemoryPool::new();
    assert!(pool.insert(tx(1, &[(100, 0, FINAL)], 1), 10, 100, 1).is_ok());
    assert!(pool.insert(tx(3, &[(101, 0, FINAL)], 1), 10, 100, 1).is_ok());
    let second = tx(2, &[(101, 0, 0), (100, 0, FINAL)], 1);
    assert_eq!(
        pool.insert(second, 10, 100, 1),
        Err(DoubleSpendCheckResult::DoubleSpend(vec![H256(1, 0, 0, 0), H256(3, 0, 0, 0)]))
    );
    assert!(pool.is_spent(&OutPoint { hash: H256(100, 0, 0, 0), index: 0 }));
    assert_eq!(pool.hashed_outpoint(&OutPoint { hash: H256(101, 0, 0, 0), index: 0 }), Some(H256(3, 0, 0, 0)));
    assert_eq!(pool.hashed_outpoint(&OutPoint { hash: H256(101, 0, 0, 0), index: 1 }), None);
}

#[test]
fn one_non_final_conflict_makes_the_set_replaceable() {
    let mut pool = MemoryPool::new();
    assert!(pool.insert(tx(1, &[(100, 0, FINAL)], 1), 10, 100, 1).is_ok());
    assert!(pool.insert(tx(3, &[(101, 0, 0)], 1), 10, 100, 1).is_ok());
    let second = tx(2, &[(101, 0, FINAL), (100, 0, FINAL)], 1);
    assert_eq!(
        pool.check_double_spend(&second.raw),
        DoubleSpendCheckResult::NonFinalDoubleSpend(vec![H256(1, 0, 0, 0), H256(3, 0, 0, 0)])
    );
}

#[test]
fn duplicate_hash_is_refused() {
    let mut pool = MemoryPool::new();
    assert!(pool.insert(tx(1, &[(100, 0, FINAL)], 1), 10, 100, 1).is_ok());
    assert_eq!(
        pool.insert(tx(1, &[(200, 0, FINAL)], 1), 10, 100, 1),
        Err(DoubleSpendCheckResult::DoubleSpend(vec![H256(1, 0, 0, 0)]))
    );
}

#[test]
fn removing_a_parent_removes_its_descendants() {
    let mut pool = MemoryPool::new();
    assert!(pool.insert(tx(1, &[(100, 0, FINAL)], 2), 10, 100, 1).is_ok());
    assert!(pool.insert(tx(2, &[(1, 0, FINAL)], 1), 10, 100, 1).is_ok());
    assert!(pool.insert(tx(3, &[(2, 0, FINAL)], 1), 10, 100, 1).is_ok());
    assert_eq!(pool.information().count, 3);
    let removed = pool.remove_by_hash(&H256(1, 0, 0, 0));
    assert_eq!(removed.map(|e| e.transaction.hash), Some(H256(1, 0, 0, 0)));
    assert_eq!(pool.information().count, 0);
    assert!(pool.remove_by_hash(&H256(1, 0, 0, 0)).is_none());
}

#[test]
fn removal_keeps_unrelated_entries() {
    let mut pool = MemoryPool::new();
    assert!(pool.insert(tx(1, &[(100, 0, FINAL)], 1), 10, 100, 1).is_ok());
    assert!(pool.insert(tx(2, &[(101, 0, FINAL)], 1), 20, 50, 1).is_ok());
    assert!(pool.insert(tx(3, &[(1, 0, FINAL)], 1), 30, 70, 1).is_ok());
    let removed = pool.remove_by_prevout(&OutPoint { hash: H256(100, 0, 0, 0), index: 0 });
    assert_eq!(removed.map(|e| e.transaction.hash), Some(H256(1, 0, 0, 0)));
    let info = pool.information();
    assert_eq!((info.count, info.total_size, info.total_fee), (1, 50, 20));
    assert!(pool.contains(&H256(2, 0, 0, 0)));
}

#[test]
fn child_lists_its_parent_among_ancestors() {
    let mut pool = MemoryPool::new();
    assert!(pool.insert(tx(1, &[(100, 0, FINAL)], 1), 10, 100, 1).is_ok());
    assert!(pool.insert(tx(2, &[(1, 0, FINAL)], 1), 10, 100, 1).is_ok());
    assert!(pool.insert(tx(3, &[(2, 0, FINAL)], 1), 10, 100, 1).is_ok());
    let child = pool.read_by_hash(&H256(3, 0, 0, 0)).unwrap();
    assert!(child.ancestors.contains(&H256(2, 0, 0, 0)));
    assert!(child.ancestors.contains(&H256(1, 0, 0, 0)));
    assert!(pool.read_by_hash(&H256(1, 0, 0, 0)).unwrap().ancestors.is_empty());
}

#[test]
fn late_parent_is_linked_to_waiting_child() {
    let mut pool = MemoryPool::new();
    assert!(pool.insert(tx(2, &[(1, 0, FINAL)], 1), 10, 100, 1).is_ok());
    assert!(pool.insert(tx(1, &[(100, 0, FINAL)], 1), 10, 100, 1).is_ok());
    assert_eq!(pool.read_by_hash(&H256(2, 0, 0, 0)).unwrap().ancestors, vec![H256(1, 0, 0, 0)]);
    let order = pool.read_n_with_strategy(10, OrderingStrategy::ByTransactionScore);
    assert_eq!(order, vec![H256(1, 0, 0, 0), H256(2, 0, 0, 0)]);
}

#[test]
fn insert_then_remove_restores_the_pool() {
    let mut pool = MemoryPool::new();
    assert!(pool.insert(tx(1, &[(100, 0, FINAL)], 1), 10, 100, 1).is_ok());
    assert!(pool.insert(tx(2, &[(101, 0, FINAL)], 1), 20, 50, 1).is_ok());
    let before = pool.read_n_with_strategy(10, OrderingStrategy::ByTimestamp);
    let info = pool.information();
    assert!(pool.insert(tx(3, &[(1, 0, FINAL)], 1), 30, 70, 1).is_ok());
    assert!(pool.remove_by_hash(&H256(3, 0, 0, 0)).is_some());
    assert_eq!(pool.read_n_with_strategy(10, OrderingStrategy::ByTimestamp), before);
    assert_eq!(pool.information(), info);
    assert!(pool.read_by_hash(&H256(1, 0, 0, 0)).unwrap().ancestors.is_empty());
    assert!(!pool.is_spent(&OutPoint { hash: H256(1, 0, 0, 0), index: 0 }));
}

#[test]
fn every_ordering_lists_the_same_entries() {
    let mut pool = MemoryPool::new();
    assert!(pool.insert(tx(5, &[(100, 0, FINAL)], 1), 10, 10, 1).is_ok());
    assert!(pool.insert(tx(4, &[(101, 0, FINAL)], 1), 90, 10, 1).is_ok());
    assert!(pool.insert(tx(6, &[(102, 0, FINAL)], 1), 50, 10, 1).is_ok());
    let mut a = pool.read_n_with_strategy(10, OrderingStrategy::ByTimestamp);
    let mut b = pool.read_n_with_strategy(10, OrderingStrategy::ByFeeRate);
    let mut c = pool.read_n_with_strategy(10, OrderingStrategy::ByTransactionScore);
    assert_eq!(b, vec![H256(4, 0, 0, 0), H256(6, 0, 0, 0), H256(5, 0, 0, 0)]);
    a.sort_by_key(|h| h.0);
    b.sort_by_key(|h| h.0);
    c.sort_by_key(|h| h.0);
    assert_eq!(a, b);
    assert_eq!(b, c);
    assert_eq!(pool.read_n_with_strategy(2, OrderingStrategy::ByTimestamp), vec![H256(5, 0, 0, 0), H256(4, 0, 0, 0)]);
}

#[test]
fn fee_rate_ties_go_to_the_lower_hash() {
    let mut pool = MemoryPool::new();
    assert!(pool.insert(tx(9, &[(100, 0, FINAL)], 1), 100, 100, 1).is_ok());
    assert!(pool.insert(tx(3, &[(101, 0, FINAL)], 1), 100, 100, 1).is_ok());
    assert_eq!(
        pool.read_n_with_strategy(5, OrderingStrategy::ByFeeRate),
        vec![H256(3, 0, 0, 0), H256(9, 0, 0, 0)]
    );
}

#[test]
fn score_order_puts_parents_first() {
    let mut pool = MemoryPool::new();
    assert!(pool.insert(tx(1, &[(100, 0, FINAL)], 1), 1, 100, 1).is_ok());
    assert!(pool.insert(tx(2, &[(1, 0, FINAL)], 1), 1000, 100, 1).is_ok());
    assert!(pool.insert(tx(3, &[(101, 0, FINAL)], 1), 200, 100, 1).is_ok());
    assert_eq!(
        pool.read_n_with_strategy(3, OrderingStrategy::ByFeeRate),
        vec![H256(2, 0, 0, 0), H256(3, 0, 0, 0), H256(1, 0, 0, 0)]
    );
    assert_eq!(
        pool.read_n_with_strategy(3, OrderingStrategy::ByTransactionScore),
        vec![H256(3, 0, 0, 0), H256(1, 0, 0, 0), H256(2, 0, 0, 0)]
    );
}

#[test]
fn pool_serves_unspent_outputs_of_its_entries() {
    let mut pool = MemoryPool::new();
    assert!(pool.insert(tx(1, &[(100, 0, FINAL)], 2), 10, 100, 1).is_ok());
    assert!(pool.insert(tx(2, &[(1, 0, FINAL)], 1), 10, 100, 1).is_ok());
    assert!(pool.transaction_output(&OutPoint { hash: H256(1, 0, 0, 0), index: 0 }).is_none());
    let out = pool.transaction_output(&OutPoint { hash: H256(1, 0, 0, 0), index: 1 }).unwrap();
    assert_eq!(out.value, 11);
    assert!(pool.transaction_output(&OutPoint { hash: H256(1, 0, 0, 0), index: 2 }).is_none());
    assert!(pool.transaction_output(&OutPoint { hash: H256(7, 0, 0, 0), index: 0 }).is_none());
}

fn assembler_pool() -> MemoryPool {
    let mut pool = MemoryPool::new();
    assert!(pool.insert(tx(1, &[(100, 0, FINAL)], 1), 10, 100, 1).is_ok());
    assert!(pool.insert(tx(2, &[(1, 0, FINAL)], 1), 100, 100, 1).is_ok());
    pool
}

#[test]
fn assembler_takes_parent_and_child_when_both_fit() {
    let pool = assembler_pool();
    let assembler = BlockAssembler { max_block_size: 250, max_block_sigops: 100 };
    let recipient = vec![7u8; 20];
    let block = assembler.create_new_block(&pool, H256(9, 9, 9, 9), 1000, 5, 3, &recipient, 50);
    let hashes: Vec<H256> = block.transactions.iter().map(|t| t.hash).collect();
    assert_eq!(hashes, vec![H256(1, 0, 0, 0), H256(2, 0, 0, 0)]);
    assert_eq!(block.coinbase_value, 160);
    assert_eq!(block.size, 200);
    assert_eq!(block.sigop_count, 2);
    assert!(block.coinbase.is_coinbase());
    assert_eq!(block.coinbase.lock_time, 3);
    assert_eq!(block.version, 1);
    assert_eq!(block.coinbase.outputs[0].value, 160);
    assert_eq!(block.coinbase.outputs[0].script_pubkey, build_p2pkh(&recipient));
    assert_eq!(block.previous_header_hash, H256(9, 9, 9, 9));
    assert_eq!(pool.information().count, 2);
}

#[test]
fn assembler_skips_child_that_does_not_fit() {
    let pool = assembler_pool();
    let assembler = BlockAssembler { max_block_size: 150, max_block_sigops: 100 };
    let block = assembler.create_new_block(&pool, H256(9, 9, 9, 9), 1000, 5, 3, &vec![7u8; 20], 50);
    let hashes: Vec<H256> = block.transactions.iter().map(|t| t.hash).collect();
    assert_eq!(hashes, vec![H256(1, 0, 0, 0)]);
    assert_eq!(block.coinbase_value, 60);
}

#[test]
fn assembler_skips_entries_over_the_sigop_budget() {
    let mut pool = MemoryPool::new();
    assert!(pool.insert(tx(1, &[(100, 0, FINAL)], 1), 500, 100, 30).is_ok());
    assert!(pool.insert(tx(2, &[(101, 0, FINAL)], 1), 10, 100, 5).is_ok());
    let assembler = BlockAssembler { max_block_size: 1000, max_block_sigops: 20 };
    let block = assembler.create_new_block(&pool, H256(0, 0, 0, 1), 1, 1, 1, &vec![1u8; 20], 0);
    let hashes: Vec<H256> = block.transactions.iter().map(|t| t.hash).collect();
    assert_eq!(hashes, vec![H256(2, 0, 0, 0)]);
}

#[test]
fn scripts_have_their_standard_layout() {
    let key = vec![0x11u8; 20];
    let script = build_p2pkh(&key);
    assert_eq!(script.len(), 25);
    assert_eq!(&script[..3], &[0x76, 0xa9, 20]);
    assert_eq!(&script[23..], &[0x88, 0xac]);
    let mut out = vec![];
    push_data(&mut out, &vec![0u8; 80]);
    assert_eq!(&out[..2], &[0x4c, 80]);
    assert_eq!(out.len(), 82);
    let mut out = vec![];
    push_data(&mut out, &vec![0u8; 300]);
    assert_eq!(&out[..3], &[0x4d, 0x2c, 0x01]);
}

#[test]
fn coinbase_pushes_the_height() {
    let cb = BlockAssembler::create_coinbase(&vec![2u8; 20], 0x0102_0304, 50);
    assert!(cb.is_coinbase());
    assert_eq!(cb.inputs[0].script_sig, vec![4, 4, 3, 2, 1]);
    assert_eq!(cb.outputs[0].value, 50);
    assert_eq!(cb.lock_time, 0x0102_0304);
}

#[test]
fn drain_takes_parents_first_and_leaves_the_rest() {
    let mut pool = MemoryPool::new();
    assert!(pool.insert(tx(1, &[(100, 0, FINAL)], 1), 1, 100, 1).is_ok());
    assert!(pool.insert(tx(2, &[(1, 0, FINAL)], 1), 1000, 100, 1).is_ok());
    assert!(pool.insert(tx(3, &[(101, 0, FINAL)], 1), 200, 100, 1).is_ok());
    let drained = pool.drain_as_vec(2, OrderingStrategy::ByTransactionScore);
    let hashes: Vec<H256> = drained.iter().map(|t| t.hash).collect();
    assert_eq!(hashes, vec![H256(3, 0, 0, 0), H256(1, 0, 0, 0)]);
    assert_eq!(pool.information().count, 1);
    let left = pool.read_by_hash(&H256(2, 0, 0, 0)).unwrap();
    assert!(left.ancestors.is_empty());
}

#[test]
fn included_entry_leaves_its_children() {
    let mut pool = MemoryPool::new();
    assert!(pool.insert(tx(1, &[(100, 0, FINAL)], 1), 10, 100, 1).is_ok());
    assert!(pool.insert(tx(2, &[(1, 0, FINAL)], 1), 10, 100, 1).is_ok());
    assert_eq!(pool.descendant_set(&H256(1, 0, 0, 0)), vec![H256(2, 0, 0, 0)]);
    let removed = pool.remove_included(&H256(1, 0, 0, 0));
    assert_eq!(removed.map(|e| e.transaction.hash), Some(H256(1, 0, 0, 0)));
    assert_eq!(pool.information().count, 1);
    assert!(pool.descendant_set(&H256(1, 0, 0, 0)).is_empty());
    assert!(pool.remove_included(&H256(1, 0, 0, 0)).is_none());
}

#[test]
fn drain_by_timestamp_takes_the_oldest() {
    let mut pool = MemoryPool::new();
    assert!(pool.insert(tx(7, &[(100, 0, FINAL)], 1), 1, 100, 1).is_ok());
    assert!(pool.insert(tx(5, &[(101, 0, FINAL)], 1), 900, 100, 1).is_ok());
    let drained = pool.drain_as_vec(1, OrderingStrategy::ByTimestamp);
    assert_eq!(drained.len(), 1);
    assert_eq!(drained[0].hash, H256(7, 0, 0, 0));
    assert!(pool.contains(&H256(5, 0, 0, 0)));
}

#[test]
fn late_parent_brings_its_own_ancestors_to_waiting_descendants() {
    let mut pool = MemoryPool::new();
    assert!(pool.insert(tx(10, &[(100, 0, FINAL)], 1), 10, 100, 1).is_ok());
    assert!(pool.insert(tx(2, &[(1, 0, FINAL)], 1), 10, 100, 1).is_ok());
    assert!(pool.insert(tx(3, &[(2, 0, FINAL)], 1), 10, 100, 1).is_ok());
    assert!(pool.insert(tx(1, &[(10, 0, FINAL)], 1), 10, 100, 1).is_ok());
    for waiting in [2u64, 3] {
        let entry = pool.read_by_hash(&H256(waiting, 0, 0, 0)).unwrap();
        assert!(entry.ancestors.contains(&H256(1, 0, 0, 0)));
        assert!(entry.ancestors.contains(&H256(10, 0, 0, 0)));
    }
    assert_eq!(pool.descendant_set(&H256(10, 0, 0, 0)).len(), 3);
    assert!(pool.remove_by_hash(&H256(10, 0, 0, 0)).is_some());
    assert_eq!(pool.information().count, 0);
}

#[test]
fn block_and_drain_carry_the_pool_transactions() {
    let pool = assembler_pool();
    let assembler = BlockAssembler { max_block_size: 250, max_block_sigops: 100 };
    let block = assembler.create_new_block(&pool, H256(9, 9, 9, 9), 1000, 5, 3, &vec![7u8; 20], 50);
    assert_eq!(block.transactions[1].raw.inputs[0].previous_output, OutPoint { hash: H256(1, 0, 0, 0), index: 0 });
    assert_eq!(block.transactions[1].raw.outputs.len(), 1);
    let mut pool = assembler_pool();
    assert_eq!(pool.package_fee_and_size(&H256(2, 0, 0, 0)), Some((110, 200)));
    assert_eq!(pool.package_fee_and_size(&H256(5, 0, 0, 0)), None);
    let drained = pool.drain_as_vec(5, OrderingStrategy::ByTimestamp);
    assert_eq!(drained[1].raw.inputs[0].previous_output, OutPoint { hash: H256(1, 0, 0, 0), index: 0 });
    assert_eq!(pool.information().count, 0);
}
