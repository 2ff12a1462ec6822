use mempool::accept::{
    ConsensusFork, Deployments, MemoryPoolTransactionAcceptor, PreviousOutputView, ScriptError,
    TransactionAcceptor, TransactionDoubleSpend, TransactionError, TransactionEval, TransactionMaturity,
    TransactionMeta, TransactionMissingInputs, TransactionOverspent, TransactionPrematureWitness,
    SignatureVersion, TransactionReturnReplayProtection, TransactionSigops, VerificationLevel,
};
use mempool::chain::{H256, IndexedTransaction, OutPoint, Transaction, TransactionInput, TransactionOutput};
use mempool::fee::{transaction_fee, transaction_fee_rate};
use mempool::script::return_bytes;

fn input(hash: u64, index: u32) -> TransactionInput {
    TransactionInput {
        previous_output: OutPoint { hash: H256(hash, 0, 0, 0), index },
        script_sig: vec![],
        sequence: 0xffff_ffff,
        script_witness: vec![],
    }
}

fn output(value: u64) -> TransactionOutput {
    TransactionOutput { value, script_pubkey: vec![0x51] }
}

fn spend(inputs: Vec<TransactionInput>, values: &[u64]) -> IndexedTransaction {
    IndexedTransaction {
        hash: H256(0xabc, 0, 0, 0),
        raw: Transaction { version: 1, inputs, outputs: values.iter().map(|v| output(*v)).collect(), lock_time: 0 },
    }
}

fn view(value: Option<u64>, meta: Option<TransactionMeta>) -> PreviousOutputView {
    PreviousOutputView { output: value.map(output), meta, spent: false, script_result: Ok(()) }
}

#[test]
fn return_replay_protection_works() {
    let transaction = IndexedTransaction {
        hash: H256(1, 2, 3, 4),
        raw: Transaction {
            version: 1,
            inputs: vec![],
            outputs: vec![TransactionOutput {
                value: 0,
                script_pubkey: return_bytes(&b"Bitcoin: A Peer-to-Peer Electronic Cash System".to_vec()),
            }],
            lock_time: 0xffffffff,
        },
    };
    assert_eq!(transaction.raw.outputs[0].script_pubkey.len(), 46 + 2);
    let checker = TransactionReturnReplayProtection::new(&transaction, ConsensusFork::NoFork, 100);
    assert_eq!(checker.check(), Ok(()));
}

#[test]
fn coinbase_spend_matures_at_one_hundred_blocks() {
    let tx = spend(vec![input(7, 0)], &[50]);
    let views = vec![view(Some(50), Some(TransactionMeta { height: 50, is_coinbase: true }))];
    assert_eq!(TransactionMaturity::new(&tx, &views, 149).check(), Err(TransactionError::Maturity));
    assert_eq!(TransactionMaturity::new(&tx, &views, 150).check(), Ok(()));
    assert_eq!(TransactionMaturity::new(&tx, &views, 151).check(), Ok(()));
}

#[test]
fn ordinary_outputs_are_mature_at_once() {
    let tx = spend(vec![input(7, 0)], &[50]);
    let views = vec![view(Some(50), Some(TransactionMeta { height: 50, is_coinbase: false }))];
    assert_eq!(TransactionMaturity::new(&tx, &views, 50).check(), Ok(()));
}

#[test]
fn overspend_is_refused_and_fee_is_the_difference() {
    let views = vec![view(Some(100), None)];
    let over = spend(vec![input(7, 0)], &[60, 41]);
    assert_eq!(TransactionOverspent::new(&over, &views).check(), Err(TransactionError::Overspend));
    let under = spend(vec![input(7, 0)], &[99]);
    assert_eq!(TransactionOverspent::new(&under, &views).check(), Ok(()));
    assert_eq!(transaction_fee(&views, &under.raw), 1);
    assert_eq!(transaction_fee(&views, &over.raw), 0);
}

#[test]
fn fee_counts_every_input_and_rate_divides_by_size() {
    let views = vec![view(Some(600), None), view(Some(400), None), view(None, None)];
    let tx = spend(vec![input(7, 0), input(8, 1), input(9, 0)], &[300, 100]);
    assert_eq!(transaction_fee(&views, &tx.raw), 600);
    assert_eq!(transaction_fee_rate(&views, &tx.raw, 250), 2);
}

#[test]
fn fee_is_not_negative_after_overspend_check() {
    let views = vec![view(Some(10), None), view(Some(5), None)];
    let tx = spend(vec![input(7, 0), input(8, 0)], &[15]);
    assert_eq!(TransactionOverspent::new(&tx, &views).check(), Ok(()));
    assert_eq!(transaction_fee(&views, &tx.raw), 0);
}

#[test]
fn first_missing_input_is_reported() {
    let tx = spend(vec![input(7, 0), input(8, 0), input(9, 0)], &[1]);
    let views = vec![view(Some(5), None), view(None, None), view(None, None)];
    assert_eq!(TransactionMissingInputs::new(&tx, &views).check(), Err(TransactionError::Input(1)));
    let all = vec![view(Some(5), None), view(Some(5), None), view(Some(5), None)];
    assert_eq!(TransactionMissingInputs::new(&tx, &all).check(), Ok(()));
}

#[test]
fn null_outpoint_is_never_missing() {
    let coinbase = IndexedTransaction {
        hash: H256(5, 0, 0, 0),
        raw: Transaction {
            version: 1,
            inputs: vec![TransactionInput {
                previous_output: OutPoint::null(),
                script_sig: vec![],
                sequence: 0xffff_ffff,
                script_witness: vec![],
            }],
            outputs: vec![output(50)],
            lock_time: 0,
        },
    };
    assert!(coinbase.raw.is_coinbase());
    let views: Vec<PreviousOutputView> = vec![];
    assert_eq!(TransactionMissingInputs::new(&coinbase, &views).check(), Ok(()));
    assert_eq!(TransactionOverspent::new(&coinbase, &views).check(), Ok(()));
}

#[test]
fn spent_output_is_reported_with_its_outpoint() {
    let tx = spend(vec![input(7, 0), input(8, 3)], &[1]);
    let mut views = vec![view(Some(5), None), view(Some(5), None)];
    views[1].spent = true;
    assert_eq!(
        TransactionDoubleSpend::new(&tx, &views).check(),
        Err(TransactionError::UsingSpentOutput(H256(8, 0, 0, 0), 3))
    );
}

#[test]
fn sigops_above_the_cap_are_refused() {
    let tx = spend(vec![input(7, 0)], &[1]);
    assert_eq!(TransactionSigops::new(&tx, 20_001, 20_000).check(), Err(TransactionError::MaxSigops));
    assert_eq!(TransactionSigops::new(&tx, 20_000, 20_000).check(), Ok(()));
}

#[test]
fn witness_before_segwit_is_premature() {
    let mut tx = spend(vec![input(7, 0)], &[1]);
    tx.raw.inputs[0].script_witness = vec![vec![1, 2]];
    let off = Deployments { csv: false, segwit: false };
    let on = Deployments { csv: false, segwit: true };
    assert_eq!(TransactionPrematureWitness::new(&tx, off).check(), Err(TransactionError::PrematureWitness));
    assert_eq!(TransactionPrematureWitness::new(&tx, on).check(), Ok(()));
}

#[test]
fn script_evaluation_reports_unknown_reference_and_signature() {
    let tx = spend(vec![input(7, 0), input(8, 0)], &[1]);
    let deployments = Deployments { csv: true, segwit: true };
    let mut views = vec![view(Some(5), None), view(Some(5), None)];
    views[1].script_result = Err(ScriptError { code: 9 });
    let eval = TransactionEval::new(&tx, &views, VerificationLevel::Full, deployments);
    assert_eq!(eval.check(), Err(TransactionError::Signature(1, ScriptError { code: 9 })));
    let flags = eval.flags();
    assert!(flags.verify_p2sh && flags.verify_locktime && flags.verify_dersig);
    assert!(!flags.verify_strictenc);
    assert!(flags.verify_checksequence && flags.verify_witness && flags.verify_nulldummy);
    let header_only = TransactionEval::new(&tx, &views, VerificationLevel::Header, deployments);
    assert_eq!(header_only.check(), Ok(()));
    let short = vec![view(Some(5), None)];
    let eval = TransactionEval::new(&tx, &short, VerificationLevel::Full, deployments);
    assert_eq!(eval.check(), Err(TransactionError::UnknownReference(H256(8, 0, 0, 0))));
}

#[test]
fn block_pipeline_returns_the_first_failure() {
    let tx = spend(vec![input(7, 0)], &[200]);
    let views = vec![view(Some(100), Some(TransactionMeta { height: 90, is_coinbase: true }))];
    let deployments = Deployments { csv: false, segwit: false };
    let acceptor =
        TransactionAcceptor::new(&tx, &views, ConsensusFork::NoFork, VerificationLevel::Full, 100, deployments);
    assert_eq!(acceptor.check(), Err(TransactionError::Maturity));
    let acceptor =
        TransactionAcceptor::new(&tx, &views, ConsensusFork::NoFork, VerificationLevel::Full, 190, deployments);
    assert_eq!(acceptor.check(), Err(TransactionError::Overspend));
}

#[test]
fn pool_pipeline_checks_sigops_after_overspend() {
    let tx = spend(vec![input(7, 0)], &[100]);
    let views = vec![view(Some(100), None)];
    let deployments = Deployments { csv: false, segwit: false };
    let acceptor = MemoryPoolTransactionAcceptor::new(&tx, &views, ConsensusFork::NoFork, 10, 5, 4, deployments);
    assert_eq!(acceptor.check(), Err(TransactionError::MaxSigops));
    let acceptor = MemoryPoolTransactionAcceptor::new(&tx, &views, ConsensusFork::NoFork, 10, 4, 4, deployments);
    assert_eq!(acceptor.check(), Ok(()));
}

#[test]
fn pool_acceptance_stays_mature_one_block_later() {
    let tx = spend(vec![input(7, 0)], &[100]);
    let views = vec![view(Some(100), Some(TransactionMeta { height: 10, is_coinbase: true }))];
    let deployments = Deployments { csv: false, segwit: false };
    let at = MemoryPoolTransactionAcceptor::new(&tx, &views, ConsensusFork::NoFork, 110, 1, 10, deployments);
    assert_eq!(at.check(), Ok(()));
    let later = MemoryPoolTransactionAcceptor::new(&tx, &views, ConsensusFork::NoFork, 111, 1, 10, deployments);
    assert_eq!(later.check(), Ok(()));
}

#[test]
fn acceptors_hand_their_inputs_to_each_check() {
    let tx = spend(vec![input(7, 0)], &[1]);
    let views = vec![view(Some(5), None)];
    let deployments = Deployments { csv: true, segwit: false };
    let block =
        TransactionAcceptor::new(&tx, &views, ConsensusFork::NoFork, VerificationLevel::Header, 42, deployments);
    assert_eq!(block.maturity.height, 42);
    assert_eq!(block.return_replay_protection.height, 42);
    assert_eq!(block.eval.verification_level, VerificationLevel::Header);
    assert!(!block.premature_witness.segwit_active);
    assert!(block.eval.verify_checksequence);
    let pool = MemoryPoolTransactionAcceptor::new(&tx, &views, ConsensusFork::NoFork, 42, 3, 9, deployments);
    assert_eq!((pool.sigops.sigops, pool.sigops.max_sigops), (3, 9));
    assert_eq!(pool.eval.verification_level, VerificationLevel::Full);
}

#[test]
fn evaluator_input_is_fixed_for_each_input() {
    let mut tx = spend(vec![input(7, 0), input(8, 2)], &[1]);
    tx.raw.inputs[1].script_sig = vec![0xaa, 0xbb];
    tx.raw.inputs[1].script_witness = vec![vec![1], vec![2, 3]];
    let views = vec![
        view(None, None),
        PreviousOutputView {
            output: Some(TransactionOutput { value: 77, script_pubkey: vec![0x76, 0xa9] }),
            meta: None,
            spent: false,
            script_result: Ok(()),
        },
    ];
    let deployments = Deployments { csv: false, segwit: true };
    let eval = TransactionEval::new(&tx, &views, VerificationLevel::Full, deployments);
    assert_eq!(eval.signature_version, SignatureVersion::Base);
    assert!(eval.needs_evaluation());
    assert!(eval.evaluation_input(0).is_none());
    assert!(eval.evaluation_input(2).is_none());
    let input = eval.evaluation_input(1).unwrap();
    assert_eq!(input.script_sig, vec![0xaa, 0xbb]);
    assert_eq!(input.script_pubkey, vec![0x76, 0xa9]);
    assert_eq!(input.script_witness, vec![vec![1], vec![2, 3]]);
    assert_eq!((input.input_index, input.input_amount), (1, 77));
    assert_eq!(input.signature_version, SignatureVersion::Base);
    assert_eq!(input.flags, eval.flags());
    let header = TransactionEval::new(&tx, &views, VerificationLevel::Header, deployments);
    assert!(!header.needs_evaluation());
}
