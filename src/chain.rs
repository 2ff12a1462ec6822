//! Transactions, outputs and outpoints, the values the rest of the library reads.
use vstd::prelude::*;

verus! {

/// A 32-byte identifier, held as four 64-bit words (most significant first).
#[derive(Clone, Copy, Debug, PartialEq, Eq, Structural)]
pub struct H256(pub u64, pub u64, pub u64, pub u64);

impl H256 {
    pub open spec fn spec_zero() -> H256 {
        H256(0, 0, 0, 0)
    }

    pub fn zero() -> (r: H256)
        ensures
            r == H256::spec_zero(),
    {
        H256(0, 0, 0, 0)
    }

    pub fn is_zero(&self) -> (r: bool)
        ensures
            r == (*self == H256::spec_zero()),
    {
        self.0 == 0 && self.1 == 0 && self.2 == 0 && self.3 == 0
    }
}

/// Strict order on hashes: word by word, most significant word first.
pub open spec fn hash_lt(a: H256, b: H256) -> bool {
    a.0 < b.0 || (a.0 == b.0 && (a.1 < b.1 || (a.1 == b.1 && (a.2 < b.2 || (a.2 == b.2
        && a.3 < b.3)))))
}

pub fn hash_less(a: &H256, b: &H256) -> (r: bool)
    ensures
        r == hash_lt(*a, *b),
{
    if a.0 != b.0 {
        a.0 < b.0
    } else if a.1 != b.1 {
        a.1 < b.1
    } else if a.2 != b.2 {
        a.2 < b.2
    } else {
        a.3 < b.3
    }
}

/// A reference to one output of one transaction.
#[derive(Clone, Copy, Debug, PartialEq, Eq, Structural)]
pub struct OutPoint {
    pub hash: H256,
    pub index: u32,
}

/// The index that marks the only input of a coinbase transaction.
pub const NULL_INDEX: u32 = 0xFFFF_FFFF;

impl OutPoint {
    pub open spec fn spec_is_null(self) -> bool {
        self.hash == H256::spec_zero() && self.index == NULL_INDEX
    }

    /// The outpoint that a coinbase input refers to.
    pub fn null() -> (r: OutPoint)
        ensures
            r.spec_is_null(),
    {
        OutPoint { hash: H256::zero(), index: NULL_INDEX }
    }

    pub fn is_null(&self) -> (r: bool)
        ensures
            r == self.spec_is_null(),
    {
        self.hash.is_zero() && self.index == NULL_INDEX
    }
}

/// The sequence number of an input that does not opt in to replacement.
pub const SEQUENCE_FINAL: u32 = 0xFFFF_FFFF;

#[derive(Clone, Debug)]
pub struct TransactionInput {
    pub previous_output: OutPoint,
    pub script_sig: Vec<u8>,
    pub sequence: u32,
    pub script_witness: Vec<Vec<u8>>,
}

#[derive(Clone, Debug)]
pub struct TransactionOutput {
    pub value: u64,
    pub script_pubkey: Vec<u8>,
}

impl TransactionOutput {
    pub fn clone_output(&self) -> (r: TransactionOutput)
        ensures
            r.value == self.value,
            r.script_pubkey@ == self.script_pubkey@,
    {
        TransactionOutput { value: self.value, script_pubkey: self.script_pubkey.clone() }
    }
}

/// `a` and `b` hold the same witness items.
pub open spec fn same_witness(a: Seq<Vec<u8>>, b: Seq<Vec<u8>>) -> bool {
    a.len() == b.len() && forall|j: int| 0 <= j < a.len() ==> #[trigger] a[j]@ == b[j]@
}

/// `a` and `b` are the same input, byte for byte.
pub open spec fn same_input(a: TransactionInput, b: TransactionInput) -> bool {
    &&& a.previous_output == b.previous_output
    &&& a.script_sig@ == b.script_sig@
    &&& a.sequence == b.sequence
    &&& same_witness(a.script_witness@, b.script_witness@)
}

/// `a` and `b` are the same output, byte for byte.
pub open spec fn same_tx_output(a: TransactionOutput, b: TransactionOutput) -> bool {
    a.value == b.value && a.script_pubkey@ == b.script_pubkey@
}

/// `a` and `b` are the same transaction, byte for byte.
pub open spec fn same_transaction(a: Transaction, b: Transaction) -> bool {
    &&& a.version == b.version
    &&& a.lock_time == b.lock_time
    &&& a.inputs@.len() == b.inputs@.len()
    &&& forall|i: int| 0 <= i < a.inputs@.len() ==> #[trigger] same_input(a.inputs@[i], b.inputs@[i])
    &&& a.outputs@.len() == b.outputs@.len()
    &&& forall|i: int| 0 <= i < a.outputs@.len() ==> #[trigger] same_tx_output(a.outputs@[i], b.outputs@[i])
}

/// A copy of the witness items of an input.
pub fn clone_witness(w: &Vec<Vec<u8>>) -> (r: Vec<Vec<u8>>)
    ensures
        same_witness(r@, w@),
{
    let mut r: Vec<Vec<u8>> = Vec::new();
    let mut j: usize = 0;
    while j < w.len()
        invariant
            j <= w@.len(),
            r@.len() == j,
            forall|q: int| 0 <= q < j ==> #[trigger] r@[q]@ == w@[q]@,
        decreases w@.len() - j,
    {
        r.push(w[j].clone());
        j = j + 1;
    }
    r
}

impl TransactionInput {
    pub fn clone_input(&self) -> (r: TransactionInput)
        ensures
            same_input(r, *self),
    {
        TransactionInput {
            previous_output: self.previous_output,
            script_sig: self.script_sig.clone(),
            sequence: self.sequence,
            script_witness: clone_witness(&self.script_witness),
        }
    }
}

#[derive(Clone, Debug)]
pub struct Transaction {
    pub version: u32,
    pub inputs: Vec<TransactionInput>,
    pub outputs: Vec<TransactionOutput>,
    pub lock_time: u32,
}

/// Sum of the values of a sequence of outputs.
pub open spec fn sum_values(s: Seq<TransactionOutput>) -> int
    decreases s.len(),
{
    if s.len() == 0 {
        0
    } else {
        sum_values(s.drop_last()) + s.last().value
    }
}

pub proof fn lemma_sum_values_step(s: Seq<TransactionOutput>, i: int)
    requires
        0 <= i < s.len(),
    ensures
        sum_values(s.take(i + 1)) == sum_values(s.take(i)) + s[i].value,
        0 <= sum_values(s.take(i)),
{
    assert(s.take(i + 1).drop_last() =~= s.take(i));
    lemma_sum_values_bounds(s.take(i));
}

pub proof fn lemma_sum_values_bounds(s: Seq<TransactionOutput>)
    ensures
        0 <= sum_values(s) <= s.len() * 0xFFFF_FFFF_FFFF_FFFFint,
    decreases s.len(),
{
    if s.len() > 0 {
        lemma_sum_values_bounds(s.drop_last());
    }
}

impl Transaction {
    /// A copy of the transaction, byte for byte.
    pub fn clone_transaction(&self) -> (r: Transaction)
        ensures
            same_transaction(r, *self),
    {
        let mut inputs: Vec<TransactionInput> = Vec::new();
        let mut i: usize = 0;
        while i < self.inputs.len()
            invariant
                i <= self.inputs@.len(),
                inputs@.len() == i,
                forall|q: int| 0 <= q < i ==> #[trigger] same_input(inputs@[q], self.inputs@[q]),
            decreases self.inputs@.len() - i,
        {
            inputs.push(self.inputs[i].clone_input());
            i = i + 1;
        }
        let mut outputs: Vec<TransactionOutput> = Vec::new();
        let mut i: usize = 0;
        while i < self.outputs.len()
            invariant
                i <= self.outputs@.len(),
                outputs@.len() == i,
                forall|q: int| 0 <= q < i ==> #[trigger] same_tx_output(outputs@[q], self.outputs@[q]),
            decreases self.outputs@.len() - i,
        {
            outputs.push(self.outputs[i].clone_output());
            i = i + 1;
        }
        Transaction { version: self.version, inputs, outputs, lock_time: self.lock_time }
    }

    pub open spec fn spec_is_coinbase(&self) -> bool {
        self.inputs@.len() == 1 && self.inputs@[0].previous_output.spec_is_null()
    }

    pub open spec fn spec_has_witness(&self) -> bool {
        exists|i: int| 0 <= i < self.inputs@.len() && #[trigger] self.inputs@[i].script_witness@.len() > 0
    }

    pub open spec fn spec_total_spends(&self) -> int {
        sum_values(self.outputs@)
    }

    pub fn is_coinbase(&self) -> (r: bool)
        ensures
            r == self.spec_is_coinbase(),
    {
        self.inputs.len() == 1 && self.inputs[0].previous_output.is_null()
    }

    pub fn has_witness(&self) -> (r: bool)
        ensures
            r == self.spec_has_witness(),
    {
        let mut i: usize = 0;
        while i < self.inputs.len()
            invariant
                i <= self.inputs@.len(),
                forall|j: int| 0 <= j < i ==> #[trigger] self.inputs@[j].script_witness@.len() == 0,
            decreases self.inputs@.len() - i,
        {
            if self.inputs[i].script_witness.len() > 0 {
                return true;
            }
            i = i + 1;
        }
        false
    }

    /// Sum of the output values, which cannot overflow a `u128`.
    pub fn total_spends(&self) -> (r: u128)
        ensures
            r == self.spec_total_spends(),
    {
        let mut total: u128 = 0;
        let mut i: usize = 0;
        while i < self.outputs.len()
            invariant
                i <= self.outputs@.len(),
                total == sum_values(self.outputs@.take(i as int)),
                total <= i * 0xFFFF_FFFF_FFFF_FFFFint,
            decreases self.outputs@.len() - i,
        {
            proof {
                lemma_sum_values_step(self.outputs@, i as int);
            }
            total = total + self.outputs[i].value as u128;
            i = i + 1;
        }
        assert(self.outputs@.take(i as int) =~= self.outputs@);
        total
    }
}

/// A transaction together with its identifier.
#[derive(Clone, Debug)]
pub struct IndexedTransaction {
    pub hash: H256,
    pub raw: Transaction,
}

} // verus!
