//! The consensus checks that a transaction goes through before it is admitted
//! to a block or to the memory pool, and the two pipelines that compose them.
use vstd::prelude::*;
use crate::chain::{clone_witness, same_witness, H256, IndexedTransaction, OutPoint, Transaction, TransactionOutput};

verus! {

/// Blocks a coinbase output must wait before it can be spent.
pub const COINBASE_MATURITY: u32 = 100;

/// How much of a transaction is checked.
#[derive(Clone, Copy, Debug, PartialEq, Eq, Structural)]
pub enum VerificationLevel {
    Full,
    Header,
    NoVerification,
}

/// The chain a node follows, which decides the replay-protection rule.
#[derive(Clone, Copy, Debug, PartialEq, Eq, Structural)]
pub enum ConsensusFork {
    NoFork,
    BitcoinCash(u32),
    SegWit2x(u32),
}

/// The soft forks active at the height being checked.
#[derive(Clone, Copy, Debug, PartialEq, Eq, Structural)]
pub struct Deployments {
    pub csv: bool,
    pub segwit: bool,
}

/// An error reported by the script evaluator, by its numeric code.
#[derive(Clone, Copy, Debug, PartialEq, Eq, Structural)]
pub struct ScriptError {
    pub code: u32,
}

#[derive(Clone, Copy, Debug, PartialEq, Eq, Structural)]
pub enum TransactionError {
    /// The previous output of the input at this index is missing.
    Input(usize),
    /// A coinbase output is spent before it matured.
    Maturity,
    /// The outputs are worth more than the inputs.
    Overspend,
    /// Too many signature operations.
    MaxSigops,
    /// An input spends an output that is already spent.
    UsingSpentOutput(H256, u32),
    /// The previous output could not be resolved during script evaluation.
    UnknownReference(H256),
    /// The script of the input at this index failed.
    Signature(usize, ScriptError),
    /// Witness data before segregated witness is active.
    PrematureWitness,
}

/// What is known of the transaction that produced an output.
#[derive(Clone, Copy, Debug, PartialEq, Eq, Structural)]
pub struct TransactionMeta {
    pub height: u32,
    pub is_coinbase: bool,
}

/// What the output and metadata views, and the script evaluator, answer for
/// the previous output of one input: the output itself (as the output view
/// gives it to a transaction at this position of its block), the metadata of
/// the transaction holding it, and whether it is spent already.  The checks
/// read entry `i` for input `i`; an input without an entry has no known
/// previous output.
#[derive(Debug)]
pub struct PreviousOutputView {
    pub output: Option<TransactionOutput>,
    pub meta: Option<TransactionMeta>,
    pub spent: bool,
    /// What the script evaluator returned for this input, run with the flags of
    /// [`TransactionEval::flags`] and the value of `output`.
    pub script_result: Result<(), ScriptError>,
}

/// The previous output seen for input `i` (none where no view was given).
pub open spec fn prev_output(views: Seq<PreviousOutputView>, i: int) -> Option<TransactionOutput> {
    if 0 <= i < views.len() {
        views[i].output
    } else {
        None
    }
}

pub open spec fn prev_meta(views: Seq<PreviousOutputView>, i: int) -> Option<TransactionMeta> {
    if 0 <= i < views.len() {
        views[i].meta
    } else {
        None
    }
}

pub open spec fn prev_spent(views: Seq<PreviousOutputView>, i: int) -> bool {
    0 <= i < views.len() && views[i].spent
}

/// Value that input `i` brings in: zero where its previous output is unknown.
pub open spec fn prev_value(views: Seq<PreviousOutputView>, i: int) -> int {
    match prev_output(views, i) {
        Some(o) => o.value as int,
        None => 0,
    }
}

/// Sum of the values brought in by the first `n` inputs.
pub open spec fn available_upto(views: Seq<PreviousOutputView>, n: int) -> int
    decreases n,
{
    if n <= 0 {
        0
    } else {
        available_upto(views, n - 1) + prev_value(views, n - 1)
    }
}

pub proof fn lemma_available_bounds(views: Seq<PreviousOutputView>, n: int)
    requires
        0 <= n,
    ensures
        0 <= available_upto(views, n) <= n * 0xFFFF_FFFF_FFFF_FFFFint,
    decreases n,
{
    if n > 0 {
        lemma_available_bounds(views, n - 1);
    }
}

pub fn view_output(views: &Vec<PreviousOutputView>, i: usize) -> (r: Option<&TransactionOutput>)
    ensures
        r.is_some() == prev_output(views@, i as int).is_some(),
        r.is_some() ==> *r.unwrap() == prev_output(views@, i as int).unwrap(),
{
    if i < views.len() {
        match &views[i].output {
            Some(o) => Some(o),
            None => None,
        }
    } else {
        None
    }
}

/// Total value brought in by the inputs of `tx`.
pub fn available_value(tx: &Transaction, views: &Vec<PreviousOutputView>) -> (r: u128)
    ensures
        r == available_upto(views@, tx.inputs@.len() as int),
{
    let mut total: u128 = 0;
    let mut i: usize = 0;
    while i < tx.inputs.len()
        invariant
            i <= tx.inputs@.len(),
            total == available_upto(views@, i as int),
        decreases tx.inputs@.len() - i,
    {
        proof {
            lemma_available_bounds(views@, i as int);
        }
        match view_output(views, i) {
            Some(o) => {
                total = total + o.value as u128;
            },
            None => {},
        }
        i = i + 1;
    }
    total
}

// --- missing inputs ---

pub open spec fn missing_at(tx: Transaction, views: Seq<PreviousOutputView>, i: int) -> bool {
    !tx.inputs@[i].previous_output.spec_is_null() && prev_output(views, i).is_none()
}

/// The result owed by the missing-inputs check: the first missing input.
pub open spec fn spec_missing_inputs(tx: Transaction, views: Seq<PreviousOutputView>) -> Result<(), TransactionError> {
    if exists|i: int| 0 <= i < tx.inputs@.len() && #[trigger] missing_at(tx, views, i) {
        let i = choose|i: int|
            0 <= i < tx.inputs@.len() && #[trigger] missing_at(tx, views, i) && forall|j: int|
                0 <= j < i ==> !#[trigger] missing_at(tx, views, j);
        Err(TransactionError::Input(i as usize))
    } else {
        Ok(())
    }
}

pub struct TransactionMissingInputs<'a> {
    pub transaction: &'a IndexedTransaction,
    pub views: &'a Vec<PreviousOutputView>,
}

impl<'a> TransactionMissingInputs<'a> {
    pub fn new(transaction: &'a IndexedTransaction, views: &'a Vec<PreviousOutputView>) -> (r: Self)
        ensures
            r.transaction == transaction,
            r.views == views,
    {
        TransactionMissingInputs { transaction, views }
    }

    pub open spec fn spec_check(&self) -> Result<(), TransactionError> {
        spec_missing_inputs(self.transaction.raw, self.views@)
    }

    pub fn check(&self) -> (r: Result<(), TransactionError>)
        ensures
            r == self.spec_check(),
    {
        let tx = &self.transaction.raw;
        let mut i: usize = 0;
        while i < tx.inputs.len()
            invariant
                i <= tx.inputs@.len(),
                tx == self.transaction.raw,
                forall|j: int| 0 <= j < i ==> !#[trigger] missing_at(*tx, self.views@, j),
            decreases tx.inputs@.len() - i,
        {
            if !tx.inputs[i].previous_output.is_null() && view_output(self.views, i).is_none() {
                assert(missing_at(*tx, self.views@, i as int));
                let ghost k = choose|k: int|
                    0 <= k < tx.inputs@.len() && #[trigger] missing_at(*tx, self.views@, k)
                        && forall|j: int| 0 <= j < k ==> !#[trigger] missing_at(*tx, self.views@, j);
                assert(k == i) by {
                    if k < i {
                    } else if k > i {
                        assert(!missing_at(*tx, self.views@, i as int));
                    }
                }
                return Err(TransactionError::Input(i));
            }
            i = i + 1;
        }
        Ok(())
    }
}


// --- maturity ---

pub open spec fn immature_at(views: Seq<PreviousOutputView>, height: u32, i: int) -> bool {
    match prev_meta(views, i) {
        Some(m) => m.is_coinbase && height < m.height + COINBASE_MATURITY,
        None => false,
    }
}

pub open spec fn spec_maturity(tx: Transaction, views: Seq<PreviousOutputView>, height: u32) -> Result<(), TransactionError> {
    if exists|i: int| 0 <= i < tx.inputs@.len() && #[trigger] immature_at(views, height, i) {
        Err(TransactionError::Maturity)
    } else {
        Ok(())
    }
}

pub struct TransactionMaturity<'a> {
    pub transaction: &'a IndexedTransaction,
    pub views: &'a Vec<PreviousOutputView>,
    pub height: u32,
}

impl<'a> TransactionMaturity<'a> {
    pub fn new(transaction: &'a IndexedTransaction, views: &'a Vec<PreviousOutputView>, height: u32) -> (r: Self)
        ensures
            r.transaction == transaction,
            r.views == views,
            r.height == height,
    {
        TransactionMaturity { transaction, views, height }
    }

    pub open spec fn spec_check(&self) -> Result<(), TransactionError> {
        spec_maturity(self.transaction.raw, self.views@, self.height)
    }

    pub fn check(&self) -> (r: Result<(), TransactionError>)
        ensures
            r == self.spec_check(),
    {
        let n = self.transaction.raw.inputs.len();
        let mut i: usize = 0;
        while i < n
            invariant
                i <= n,
                n == self.transaction.raw.inputs@.len(),
                forall|j: int| 0 <= j < i ==> !#[trigger] immature_at(self.views@, self.height, j),
            decreases n - i,
        {
            if i < self.views.len() {
                match self.views[i].meta {
                    Some(m) => {
                        if m.is_coinbase && (self.height as u64) < m.height as u64 + COINBASE_MATURITY as u64 {
                            assert(immature_at(self.views@, self.height, i as int));
                            return Err(TransactionError::Maturity);
                        }
                    },
                    None => {},
                }
            }
            i = i + 1;
        }
        Ok(())
    }
}

// --- overspend ---

pub open spec fn spec_overspent(tx: Transaction, views: Seq<PreviousOutputView>) -> Result<(), TransactionError> {
    if !tx.spec_is_coinbase() && tx.spec_total_spends() > available_upto(views, tx.inputs@.len() as int) {
        Err(TransactionError::Overspend)
    } else {
        Ok(())
    }
}

pub struct TransactionOverspent<'a> {
    pub transaction: &'a IndexedTransaction,
    pub views: &'a Vec<PreviousOutputView>,
}

impl<'a> TransactionOverspent<'a> {
    pub fn new(transaction: &'a IndexedTransaction, views: &'a Vec<PreviousOutputView>) -> (r: Self)
        ensures
            r.transaction == transaction,
            r.views == views,
    {
        TransactionOverspent { transaction, views }
    }

    pub open spec fn spec_check(&self) -> Result<(), TransactionError> {
        spec_overspent(self.transaction.raw, self.views@)
    }

    pub fn check(&self) -> (r: Result<(), TransactionError>)
        ensures
            r == self.spec_check(),
    {
        if self.transaction.raw.is_coinbase() {
            return Ok(());
        }
        let available = available_value(&self.transaction.raw, self.views);
        let spends = self.transaction.raw.total_spends();
        if spends > available {
            Err(TransactionError::Overspend)
        } else {
            Ok(())
        }
    }
}

// --- signature operations ---

pub struct TransactionSigops<'a> {
    pub transaction: &'a IndexedTransaction,
    /// Signature operations of the transaction, pay-to-script-hash ones included.
    pub sigops: usize,
    pub max_sigops: usize,
}

impl<'a> TransactionSigops<'a> {
    pub fn new(transaction: &'a IndexedTransaction, sigops: usize, max_sigops: usize) -> (r: Self)
        ensures
            r.transaction == transaction,
            r.sigops == sigops,
            r.max_sigops == max_sigops,
    {
        TransactionSigops { transaction, sigops, max_sigops }
    }

    pub open spec fn spec_check(&self) -> Result<(), TransactionError> {
        if self.sigops > self.max_sigops {
            Err(TransactionError::MaxSigops)
        } else {
            Ok(())
        }
    }

    pub fn check(&self) -> (r: Result<(), TransactionError>)
        ensures
            r == self.spec_check(),
    {
        if self.sigops > self.max_sigops {
            Err(TransactionError::MaxSigops)
        } else {
            Ok(())
        }
    }
}


// --- script evaluation ---

/// The flags the script evaluator runs under.
#[derive(Clone, Copy, Debug, PartialEq, Eq, Structural)]
pub struct VerificationFlags {
    pub verify_p2sh: bool,
    pub verify_strictenc: bool,
    pub verify_locktime: bool,
    pub verify_checksequence: bool,
    pub verify_dersig: bool,
    pub verify_witness: bool,
    pub verify_nulldummy: bool,
}

pub open spec fn eval_failure_at(tx: Transaction, views: Seq<PreviousOutputView>, i: int) -> bool {
    prev_output(views, i).is_none() || views[i].script_result.is_err()
}

/// The error owed for the input at `i`, where evaluation fails there.
pub open spec fn eval_error_at(tx: Transaction, views: Seq<PreviousOutputView>, i: int) -> TransactionError {
    if prev_output(views, i).is_none() {
        TransactionError::UnknownReference(tx.inputs@[i].previous_output.hash)
    } else {
        TransactionError::Signature(i as usize, views[i].script_result->Err_0)
    }
}

pub open spec fn spec_eval(
    tx: Transaction,
    views: Seq<PreviousOutputView>,
    level: VerificationLevel,
) -> Result<(), TransactionError> {
    if level == VerificationLevel::Header || level == VerificationLevel::NoVerification
        || tx.spec_is_coinbase() {
        Ok(())
    } else if exists|i: int| 0 <= i < tx.inputs@.len() && #[trigger] eval_failure_at(tx, views, i) {
        let i = choose|i: int|
            0 <= i < tx.inputs@.len() && #[trigger] eval_failure_at(tx, views, i) && forall|j: int|
                0 <= j < i ==> !#[trigger] eval_failure_at(tx, views, j);
        Err(eval_error_at(tx, views, i))
    } else {
        Ok(())
    }
}

pub struct TransactionEval<'a> {
    pub transaction: &'a IndexedTransaction,
    pub views: &'a Vec<PreviousOutputView>,
    pub verification_level: VerificationLevel,
    pub verify_p2sh: bool,
    pub verify_strictenc: bool,
    pub verify_locktime: bool,
    pub verify_checksequence: bool,
    pub verify_dersig: bool,
    pub verify_witness: bool,
    pub verify_nulldummy: bool,
    pub signature_version: SignatureVersion,
}

/// Which signature hashing the evaluator applies.
#[derive(Clone, Copy, Debug, PartialEq, Eq, Structural)]
pub enum SignatureVersion {
    Base,
    WitnessV0,
}

/// Everything the script evaluator is given for one input.
#[derive(Debug)]
pub struct ScriptEvaluation {
    pub script_sig: Vec<u8>,
    pub script_pubkey: Vec<u8>,
    pub script_witness: Vec<Vec<u8>>,
    pub flags: VerificationFlags,
    pub input_index: usize,
    pub input_amount: u64,
    pub signature_version: SignatureVersion,
}

impl<'a> TransactionEval<'a> {
    pub fn new(
        transaction: &'a IndexedTransaction,
        views: &'a Vec<PreviousOutputView>,
        verification_level: VerificationLevel,
        deployments: Deployments,
    ) -> (r: Self)
        ensures
            r.transaction == transaction,
            r.views == views,
            r.verification_level == verification_level,
            r.verify_p2sh,
            !r.verify_strictenc,
            r.verify_locktime,
            r.verify_dersig,
            r.verify_checksequence == deployments.csv,
            r.verify_witness == deployments.segwit,
            r.verify_nulldummy == deployments.segwit,
            r.signature_version == SignatureVersion::Base,
    {
        TransactionEval {
            transaction,
            views,
            verification_level,
            verify_p2sh: true,
            verify_strictenc: false,
            verify_locktime: true,
            verify_checksequence: deployments.csv,
            verify_dersig: true,
            verify_witness: deployments.segwit,
            verify_nulldummy: deployments.segwit,
            signature_version: SignatureVersion::Base,
        }
    }

    /// The flags each input's scripts are evaluated under.
    pub fn flags(&self) -> (r: VerificationFlags)
        ensures
            r == (VerificationFlags {
                verify_p2sh: self.verify_p2sh,
                verify_strictenc: self.verify_strictenc,
                verify_locktime: self.verify_locktime,
                verify_checksequence: self.verify_checksequence,
                verify_dersig: self.verify_dersig,
                verify_witness: self.verify_witness,
                verify_nulldummy: self.verify_nulldummy,
            }),
    {
        VerificationFlags {
            verify_p2sh: self.verify_p2sh,
            verify_strictenc: self.verify_strictenc,
            verify_locktime: self.verify_locktime,
            verify_checksequence: self.verify_checksequence,
            verify_dersig: self.verify_dersig,
            verify_witness: self.verify_witness,
            verify_nulldummy: self.verify_nulldummy,
        }
    }

    /// Whether the scripts are evaluated at all: not at the header-only or
    /// no-verification levels, and not for a coinbase.
    pub fn needs_evaluation(&self) -> (r: bool)
        ensures
            r == !(self.verification_level == VerificationLevel::Header || self.verification_level
                == VerificationLevel::NoVerification || self.transaction.raw.spec_is_coinbase()),
    {
        !(self.verification_level == VerificationLevel::Header || self.verification_level
            == VerificationLevel::NoVerification || self.transaction.raw.is_coinbase())
    }

    /// What the script evaluator is given for input `i`: its signature script
    /// and witness, the locking script and value of the output it spends, the
    /// flags, the input's index and the signature version.  None where the
    /// input or its previous output is unknown (evaluation then fails with an
    /// unknown reference).  The evaluator's answer for input `i` goes into
    /// `views[i].script_result`; inputs are evaluated in order and evaluation
    /// stops at the first failure, as `check` reports only that one.
    pub fn evaluation_input(&self, i: usize) -> (r: Option<ScriptEvaluation>)
        ensures
            r.is_some() == ((i as int) < self.transaction.raw.inputs@.len() && prev_output(self.views@, i as int).is_some()),
            r.is_some() ==> {
                let ev = r.unwrap();
                let input = self.transaction.raw.inputs@[i as int];
                let prev = prev_output(self.views@, i as int).unwrap();
                &&& ev.script_sig@ == input.script_sig@
                &&& same_witness(ev.script_witness@, input.script_witness@)
                &&& ev.script_pubkey@ == prev.script_pubkey@
                &&& ev.input_amount == prev.value
                &&& ev.input_index == i
                &&& ev.signature_version == self.signature_version
                &&& ev.flags == (VerificationFlags {
                    verify_p2sh: self.verify_p2sh,
                    verify_strictenc: self.verify_strictenc,
                    verify_locktime: self.verify_locktime,
                    verify_checksequence: self.verify_checksequence,
                    verify_dersig: self.verify_dersig,
                    verify_witness: self.verify_witness,
                    verify_nulldummy: self.verify_nulldummy,
                })
            },
    {
        if i >= self.transaction.raw.inputs.len() {
            return None;
        }
        match view_output(self.views, i) {
            Some(prev) => {
                let input = &self.transaction.raw.inputs[i];
                Some(
                    ScriptEvaluation {
                        script_sig: input.script_sig.clone(),
                        script_pubkey: prev.script_pubkey.clone(),
                        script_witness: clone_witness(&input.script_witness),
                        flags: self.flags(),
                        input_index: i,
                        input_amount: prev.value,
                        signature_version: self.signature_version,
                    },
                )
            },
            None => None,
        }
    }

    pub open spec fn spec_check(&self) -> Result<(), TransactionError> {
        spec_eval(self.transaction.raw, self.views@, self.verification_level)
    }

    pub fn check(&self) -> (r: Result<(), TransactionError>)
        ensures
            r == self.spec_check(),
    {
        if self.verification_level == VerificationLevel::Header
            || self.verification_level == VerificationLevel::NoVerification {
            return Ok(());
        }
        let tx = &self.transaction.raw;
        if tx.is_coinbase() {
            return Ok(());
        }
        let mut i: usize = 0;
        while i < tx.inputs.len()
            invariant
                i <= tx.inputs@.len(),
                tx == self.transaction.raw,
                !tx.spec_is_coinbase(),
                self.verification_level == VerificationLevel::Full,
                forall|j: int| 0 <= j < i ==> !#[trigger] eval_failure_at(*tx, self.views@, j),
            decreases tx.inputs@.len() - i,
        {
            let failed: Option<TransactionError> = if view_output(self.views, i).is_none() {
                Some(TransactionError::UnknownReference(tx.inputs[i].previous_output.hash))
            } else {
                match self.views[i].script_result {
                    Ok(()) => None,
                    Err(e) => Some(TransactionError::Signature(i, e)),
                }
            };
            if let Some(err) = failed {
                assert(eval_failure_at(*tx, self.views@, i as int));
                assert(err == eval_error_at(*tx, self.views@, i as int));
                let ghost k = choose|k: int|
                    0 <= k < tx.inputs@.len() && #[trigger] eval_failure_at(*tx, self.views@, k)
                        && forall|j: int| 0 <= j < k ==> !#[trigger] eval_failure_at(*tx, self.views@, j);
                assert(k == i) by {
                    if k > i {
                        assert(!eval_failure_at(*tx, self.views@, i as int));
                    }
                }
                return Err(err);
            }
            i = i + 1;
        }
        Ok(())
    }
}

// --- double spend against the views ---

pub open spec fn spec_double_spend(tx: Transaction, views: Seq<PreviousOutputView>) -> Result<(), TransactionError> {
    if exists|i: int| 0 <= i < tx.inputs@.len() && #[trigger] prev_spent(views, i) {
        let i = choose|i: int|
            0 <= i < tx.inputs@.len() && #[trigger] prev_spent(views, i) && forall|j: int|
                0 <= j < i ==> !#[trigger] prev_spent(views, j);
        let op = tx.inputs@[i].previous_output;
        Err(TransactionError::UsingSpentOutput(op.hash, op.index))
    } else {
        Ok(())
    }
}

pub struct TransactionDoubleSpend<'a> {
    pub transaction: &'a IndexedTransaction,
    pub views: &'a Vec<PreviousOutputView>,
}

impl<'a> TransactionDoubleSpend<'a> {
    pub fn new(transaction: &'a IndexedTransaction, views: &'a Vec<PreviousOutputView>) -> (r: Self)
        ensures
            r.transaction == transaction,
            r.views == views,
    {
        TransactionDoubleSpend { transaction, views }
    }

    pub open spec fn spec_check(&self) -> Result<(), TransactionError> {
        spec_double_spend(self.transaction.raw, self.views@)
    }

    pub fn check(&self) -> (r: Result<(), TransactionError>)
        ensures
            r == self.spec_check(),
    {
        let tx = &self.transaction.raw;
        let mut i: usize = 0;
        while i < tx.inputs.len()
            invariant
                i <= tx.inputs@.len(),
                tx == self.transaction.raw,
                forall|j: int| 0 <= j < i ==> !#[trigger] prev_spent(self.views@, j),
            decreases tx.inputs@.len() - i,
        {
            if i < self.views.len() && self.views[i].spent {
                assert(prev_spent(self.views@, i as int));
                let ghost k = choose|k: int|
                    0 <= k < tx.inputs@.len() && #[trigger] prev_spent(self.views@, k) && forall|j: int|
                        0 <= j < k ==> !#[trigger] prev_spent(self.views@, j);
                assert(k == i) by {
                    if k > i {
                        assert(!prev_spent(self.views@, i as int));
                    }
                }
                let op = tx.inputs[i].previous_output;
                return Err(TransactionError::UsingSpentOutput(op.hash, op.index));
            }
            i = i + 1;
        }
        Ok(())
    }
}

// --- replay protection ---

/// Reserved for forks that demand a marker output; no rule is active for any
/// fork so far, so every transaction passes.
pub struct TransactionReturnReplayProtection<'a> {
    pub transaction: &'a IndexedTransaction,
    pub fork: ConsensusFork,
    pub height: u32,
}

impl<'a> TransactionReturnReplayProtection<'a> {
    pub fn new(transaction: &'a IndexedTransaction, fork: ConsensusFork, height: u32) -> (r: Self)
        ensures
            r.transaction == transaction,
            r.fork == fork,
            r.height == height,
    {
        TransactionReturnReplayProtection { transaction, fork, height }
    }

    pub fn check(&self) -> (r: Result<(), TransactionError>)
        ensures
            r == Ok::<(), TransactionError>(()),
    {
        Ok(())
    }
}

// --- premature witness ---

pub struct TransactionPrematureWitness<'a> {
    pub transaction: &'a IndexedTransaction,
    pub segwit_active: bool,
}

impl<'a> TransactionPrematureWitness<'a> {
    pub fn new(transaction: &'a IndexedTransaction, deployments: Deployments) -> (r: Self)
        ensures
            r.transaction == transaction,
            r.segwit_active == deployments.segwit,
    {
        TransactionPrematureWitness { transaction, segwit_active: deployments.segwit }
    }

    pub open spec fn spec_check(&self) -> Result<(), TransactionError> {
        if !self.segwit_active && self.transaction.raw.spec_has_witness() {
            Err(TransactionError::PrematureWitness)
        } else {
            Ok(())
        }
    }

    pub fn check(&self) -> (r: Result<(), TransactionError>)
        ensures
            r == self.spec_check(),
    {
        if !self.segwit_active && self.transaction.raw.has_witness() {
            Err(TransactionError::PrematureWitness)
        } else {
            Ok(())
        }
    }
}


// --- pipelines ---

/// The first failure of two checks run in order.
pub open spec fn then_check(
    first: Result<(), TransactionError>,
    next: Result<(), TransactionError>,
) -> Result<(), TransactionError> {
    if first.is_err() {
        first
    } else {
        next
    }
}

/// The checks a transaction of a block goes through.
pub struct TransactionAcceptor<'a> {
    pub premature_witness: TransactionPrematureWitness<'a>,
    pub missing_inputs: TransactionMissingInputs<'a>,
    pub maturity: TransactionMaturity<'a>,
    pub overspent: TransactionOverspent<'a>,
    pub double_spent: TransactionDoubleSpend<'a>,
    pub return_replay_protection: TransactionReturnReplayProtection<'a>,
    pub eval: TransactionEval<'a>,
}

impl<'a> TransactionAcceptor<'a> {
    pub fn new(
        transaction: &'a IndexedTransaction,
        views: &'a Vec<PreviousOutputView>,
        fork: ConsensusFork,
        verification_level: VerificationLevel,
        height: u32,
        deployments: Deployments,
    ) -> (r: Self)
        ensures
            r.premature_witness.transaction == transaction,
            r.premature_witness.segwit_active == deployments.segwit,
            r.missing_inputs.transaction == transaction,
            r.missing_inputs.views == views,
            r.maturity.transaction == transaction,
            r.maturity.views == views,
            r.maturity.height == height,
            r.overspent.transaction == transaction,
            r.overspent.views == views,
            r.double_spent.transaction == transaction,
            r.double_spent.views == views,
            r.return_replay_protection.transaction == transaction,
            r.return_replay_protection.fork == fork,
            r.return_replay_protection.height == height,
            r.eval.transaction == transaction,
            r.eval.views == views,
            r.eval.verification_level == verification_level,
            r.eval.verify_p2sh,
            !r.eval.verify_strictenc,
            r.eval.verify_locktime,
            r.eval.verify_dersig,
            r.eval.verify_checksequence == deployments.csv,
            r.eval.verify_witness == deployments.segwit,
            r.eval.verify_nulldummy == deployments.segwit,
            r.eval.signature_version == SignatureVersion::Base,
            r.spec_check() == then_check(
                spec_premature_witness(transaction.raw, deployments),
                then_check(
                    spec_missing_inputs(transaction.raw, views@),
                    then_check(
                        spec_maturity(transaction.raw, views@, height),
                        then_check(
                            spec_overspent(transaction.raw, views@),
                            then_check(
                                spec_double_spend(transaction.raw, views@),
                                spec_eval(transaction.raw, views@, verification_level),
                            ),
                        ),
                    ),
                ),
            ),
    {
        TransactionAcceptor {
            premature_witness: TransactionPrematureWitness::new(transaction, deployments),
            missing_inputs: TransactionMissingInputs::new(transaction, views),
            maturity: TransactionMaturity::new(transaction, views, height),
            overspent: TransactionOverspent::new(transaction, views),
            double_spent: TransactionDoubleSpend::new(transaction, views),
            return_replay_protection: TransactionReturnReplayProtection::new(transaction, fork, height),
            eval: TransactionEval::new(transaction, views, verification_level, deployments),
        }
    }

    pub open spec fn spec_check(&self) -> Result<(), TransactionError> {
        then_check(
            self.premature_witness.spec_check(),
            then_check(
                self.missing_inputs.spec_check(),
                then_check(
                    self.maturity.spec_check(),
                    then_check(
                        self.overspent.spec_check(),
                        then_check(self.double_spent.spec_check(), self.eval.spec_check()),
                    ),
                ),
            ),
        )
    }

    /// Runs the checks in order and returns the first failure.
    pub fn check(&self) -> (r: Result<(), TransactionError>)
        ensures
            r == self.spec_check(),
    {
        self.premature_witness.check()?;
        self.missing_inputs.check()?;
        self.maturity.check()?;
        self.overspent.check()?;
        self.double_spent.check()?;
        self.return_replay_protection.check()?;
        self.eval.check()?;
        Ok(())
    }
}

pub open spec fn spec_premature_witness(tx: Transaction, deployments: Deployments) -> Result<(), TransactionError> {
    if !deployments.segwit && tx.spec_has_witness() {
        Err(TransactionError::PrematureWitness)
    } else {
        Ok(())
    }
}

pub open spec fn spec_sigops(sigops: usize, max_sigops: usize) -> Result<(), TransactionError> {
    if sigops > max_sigops {
        Err(TransactionError::MaxSigops)
    } else {
        Ok(())
    }
}

/// The verdict owed by the memory-pool pipeline.
pub open spec fn spec_pool_check(
    tx: Transaction,
    views: Seq<PreviousOutputView>,
    height: u32,
    sigops: usize,
    max_block_sigops: usize,
) -> Result<(), TransactionError> {
    then_check(
        spec_missing_inputs(tx, views),
        then_check(
            spec_maturity(tx, views, height),
            then_check(
                spec_overspent(tx, views),
                then_check(
                    spec_sigops(sigops, max_block_sigops),
                    then_check(spec_double_spend(tx, views), spec_eval(tx, views, VerificationLevel::Full)),
                ),
            ),
        ),
    )
}

/// A transaction that the memory-pool pipeline accepts at some height is not
/// refused as an immature coinbase spend one block later: maturity only grows
/// with height.
pub proof fn lemma_pool_acceptance_maturity_monotonic(
    tx: Transaction,
    views: Seq<PreviousOutputView>,
    height: u32,
    sigops: usize,
    max_block_sigops: usize,
)
    requires
        height < 0xFFFF_FFFFu32,
        spec_pool_check(tx, views, height, sigops, max_block_sigops).is_ok(),
    ensures
        spec_maturity(tx, views, (height + 1) as u32) != Err::<(), TransactionError>(TransactionError::Maturity),
{
    assert(spec_maturity(tx, views, height).is_ok());
    assert forall|i: int| 0 <= i < tx.inputs@.len() implies !#[trigger] immature_at(views, (height + 1) as u32, i) by {
        assert(!immature_at(views, height, i));
    }
}

/// The checks a transaction goes through before it enters the memory pool.
pub struct MemoryPoolTransactionAcceptor<'a> {
    pub missing_inputs: TransactionMissingInputs<'a>,
    pub maturity: TransactionMaturity<'a>,
    pub overspent: TransactionOverspent<'a>,
    pub sigops: TransactionSigops<'a>,
    pub double_spent: TransactionDoubleSpend<'a>,
    pub return_replay_protection: TransactionReturnReplayProtection<'a>,
    pub eval: TransactionEval<'a>,
}

impl<'a> MemoryPoolTransactionAcceptor<'a> {
    /// `sigops` counts the transaction's signature operations; `max_block_sigops`
    /// is the consensus cap for a block at `height`.
    pub fn new(
        transaction: &'a IndexedTransaction,
        views: &'a Vec<PreviousOutputView>,
        fork: ConsensusFork,
        height: u32,
        sigops: usize,
        max_block_sigops: usize,
        deployments: Deployments,
    ) -> (r: Self)
        ensures
            r.missing_inputs.transaction == transaction,
            r.missing_inputs.views == views,
            r.maturity.transaction == transaction,
            r.maturity.views == views,
            r.maturity.height == height,
            r.overspent.transaction == transaction,
            r.overspent.views == views,
            r.sigops.transaction == transaction,
            r.sigops.sigops == sigops,
            r.sigops.max_sigops == max_block_sigops,
            r.double_spent.transaction == transaction,
            r.double_spent.views == views,
            r.return_replay_protection.transaction == transaction,
            r.return_replay_protection.fork == fork,
            r.return_replay_protection.height == height,
            r.eval.transaction == transaction,
            r.eval.views == views,
            r.eval.verification_level == VerificationLevel::Full,
            r.eval.verify_p2sh,
            !r.eval.verify_strictenc,
            r.eval.verify_locktime,
            r.eval.verify_dersig,
            r.eval.verify_checksequence == deployments.csv,
            r.eval.verify_witness == deployments.segwit,
            r.eval.verify_nulldummy == deployments.segwit,
            r.eval.signature_version == SignatureVersion::Base,
            r.spec_check() == spec_pool_check(transaction.raw, views@, height, sigops, max_block_sigops),
    {
        MemoryPoolTransactionAcceptor {
            missing_inputs: TransactionMissingInputs::new(transaction, views),
            maturity: TransactionMaturity::new(transaction, views, height),
            overspent: TransactionOverspent::new(transaction, views),
            sigops: TransactionSigops::new(transaction, sigops, max_block_sigops),
            double_spent: TransactionDoubleSpend::new(transaction, views),
            return_replay_protection: TransactionReturnReplayProtection::new(transaction, fork, height),
            eval: TransactionEval::new(transaction, views, VerificationLevel::Full, deployments),
        }
    }

    pub open spec fn spec_check(&self) -> Result<(), TransactionError> {
        then_check(
            self.missing_inputs.spec_check(),
            then_check(
                self.maturity.spec_check(),
                then_check(
                    self.overspent.spec_check(),
                    then_check(
                        self.sigops.spec_check(),
                        then_check(self.double_spent.spec_check(), self.eval.spec_check()),
                    ),
                ),
            ),
        )
    }

    /// Runs the checks in order and returns the first failure.
    pub fn check(&self) -> (r: Result<(), TransactionError>)
        ensures
            r == self.spec_check(),
    {
        self.missing_inputs.check()?;
        self.maturity.check()?;
        self.overspent.check()?;
        self.sigops.check()?;
        self.double_spent.check()?;
        self.return_replay_protection.check()?;
        self.eval.check()?;
        Ok(())
    }
}

} // verus!
