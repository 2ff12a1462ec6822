//! The memory pool: unconfirmed transactions that no pool entry contradicts,
//! with the links between entries that spend each other's outputs.
use vstd::prelude::*;
use crate::chain::{hash_less, hash_lt, H256, IndexedTransaction, OutPoint, Transaction, TransactionOutput, SEQUENCE_FINAL};

verus! {

/// One transaction of the pool, with what was measured of it on insertion.
#[derive(Debug)]
pub struct Entry {
    pub transaction: IndexedTransaction,
    /// Serialized size in bytes.
    pub size: usize,
    pub sigops: usize,
    pub miner_fee: u64,
    /// Hashes of the pool entries this one depends on: those it spends from,
    /// and theirs in turn.
    pub ancestors: Vec<H256>,
}

impl Entry {
    pub open spec fn hash(self) -> H256 {
        self.transaction.hash
    }
}

/// `e` has an input that spends an output of the transaction `h`.
pub open spec fn spends_from(e: Entry, h: H256) -> bool {
    exists|i: int|
        0 <= i < e.transaction.raw.inputs@.len() && #[trigger] e.transaction.raw.inputs@[i].previous_output.hash
            == h
}

/// Some input of `tx` spends `op`.
pub open spec fn tx_claims(tx: Transaction, op: OutPoint) -> bool {
    exists|i: int| 0 <= i < tx.inputs@.len() && #[trigger] tx.inputs@[i].previous_output == op
}

/// Some input of `tx` spends `op` with a sequence number that is not final.
pub open spec fn tx_claims_nonfinal(tx: Transaction, op: OutPoint) -> bool {
    exists|i: int|
        0 <= i < tx.inputs@.len() && #[trigger] tx.inputs@[i].previous_output == op && tx.inputs@[i].sequence
            != SEQUENCE_FINAL
}

pub open spec fn claims(e: Entry, op: OutPoint) -> bool {
    tx_claims(e.transaction.raw, op)
}

pub open spec fn has_hash(s: Seq<Entry>, h: H256) -> bool {
    exists|k: int| 0 <= k < s.len() && #[trigger] s[k].hash() == h
}

/// Summary of the pool's contents.
#[derive(Clone, Copy, Debug, PartialEq, Eq, Structural)]
pub struct Information {
    pub count: usize,
    pub total_size: u128,
    pub total_fee: u128,
}

pub open spec fn sum_sizes(s: Seq<Entry>) -> int
    decreases s.len(),
{
    if s.len() == 0 {
        0
    } else {
        sum_sizes(s.drop_last()) + s.last().size
    }
}

pub open spec fn sum_fees(s: Seq<Entry>) -> int
    decreases s.len(),
{
    if s.len() == 0 {
        0
    } else {
        sum_fees(s.drop_last()) + s.last().miner_fee
    }
}

proof fn lemma_sums_step(s: Seq<Entry>, i: int)
    requires
        0 <= i < s.len(),
    ensures
        sum_sizes(s.take(i + 1)) == sum_sizes(s.take(i)) + s[i].size,
        sum_fees(s.take(i + 1)) == sum_fees(s.take(i)) + s[i].miner_fee,
        0 <= sum_sizes(s.take(i)) <= i * 0xFFFF_FFFF_FFFF_FFFFint,
        0 <= sum_fees(s.take(i)) <= i * 0xFFFF_FFFF_FFFF_FFFFint,
{
    assert(s.take(i + 1).drop_last() =~= s.take(i));
    lemma_sums_bounds(s.take(i));
}

proof fn lemma_sums_bounds(s: Seq<Entry>)
    ensures
        0 <= sum_sizes(s) <= s.len() * 0xFFFF_FFFF_FFFF_FFFFint,
        0 <= sum_fees(s) <= s.len() * 0xFFFF_FFFF_FFFF_FFFFint,
    decreases s.len(),
{
    if s.len() > 0 {
        lemma_sums_bounds(s.drop_last());
    }
}

/// The outcome of looking for pool entries that spend what a transaction spends.
#[derive(Debug, PartialEq, Eq)]
pub enum DoubleSpendCheckResult {
    NoDoubleSpend,
    /// Conflicting entries, none of which opted in to replacement.
    DoubleSpend(Vec<H256>),
    /// Conflicting entries, at least one of which spends a conflicted outpoint
    /// with a sequence number that is not final.
    NonFinalDoubleSpend(Vec<H256>),
}

/// Ways to walk the pool.
#[derive(Clone, Copy, Debug, PartialEq, Eq, Structural)]
pub enum OrderingStrategy {
    /// Oldest first.
    ByTimestamp,
    /// Highest package fee rate first, lower hash first among equals.
    ByFeeRate,
    /// As `ByFeeRate`, but never an entry before one it depends on.
    ByTransactionScore,
}

pub struct MemoryPool {
    entries: Vec<Entry>,
}

impl View for MemoryPool {
    type V = Seq<Entry>;

    /// The entries, oldest first.
    closed spec fn view(&self) -> Seq<Entry> {
        self.entries@
    }
}

/// Well-formedness of a sequence of pool entries.
pub open spec fn entries_wf(s: Seq<Entry>) -> bool {
    &&& forall|i: int, j: int|
        0 <= i < s.len() && 0 <= j < s.len() && i != j ==> #[trigger] s[i].hash() != #[trigger] s[j].hash()
    &&& forall|i: int, j: int, op: OutPoint|
        0 <= i < s.len() && 0 <= j < s.len() && i != j && #[trigger] claims(s[i], op) ==> !#[trigger] claims(
            s[j],
            op,
        )
    &&& forall|i: int, j: int|
        0 <= i < s.len() && 0 <= j < s.len() && i != j && #[trigger] spends_from(s[j], s[i].hash())
            ==> s[j].ancestors@.contains(s[i].hash())
    &&& forall|j: int, a: int|
        0 <= j < s.len() && 0 <= a < s[j].ancestors@.len() ==> has_hash(s, #[trigger] s[j].ancestors@[a])
    &&& forall|j: int|
        0 <= j < s.len() ==> !#[trigger] s[j].ancestors@.contains(s[j].hash())
            && s[j].ancestors@.no_duplicates() && !s[j].transaction.raw.spec_is_coinbase()
    &&& forall|i: int, j: int, x: H256|
        0 <= i < s.len() && 0 <= j < s.len() && #[trigger] s[j].ancestors@.contains(s[i].hash())
            && #[trigger] s[i].ancestors@.contains(x) && x != s[j].hash() ==> s[j].ancestors@.contains(x)
}

pub fn vec_contains(v: &Vec<H256>, x: &H256) -> (r: bool)
    ensures
        r == v@.contains(*x),
{
    let mut i: usize = 0;
    while i < v.len()
        invariant
            i <= v@.len(),
            forall|j: int| 0 <= j < i ==> v@[j] != *x,
        decreases v@.len() - i,
    {
        if v[i] == *x {
            return true;
        }
        i = i + 1;
    }
    false
}

/// Index of an input of `tx` that spends `op`.
pub fn find_claim(tx: &Transaction, op: &OutPoint) -> (r: Option<usize>)
    ensures
        r.is_none() == !tx_claims(*tx, *op),
        r.is_some() ==> r.unwrap() < tx.inputs@.len() && tx.inputs@[r.unwrap() as int].previous_output == *op,
{
    let mut i: usize = 0;
    while i < tx.inputs.len()
        invariant
            i <= tx.inputs@.len(),
            forall|j: int| 0 <= j < i ==> tx.inputs@[j].previous_output != *op,
        decreases tx.inputs@.len() - i,
    {
        if tx.inputs[i].previous_output == *op {
            return Some(i);
        }
        i = i + 1;
    }
    None
}

/// Whether some input of `tx` spends `op` with a sequence number that is not final.
pub fn claims_nonfinal(tx: &Transaction, op: &OutPoint) -> (r: bool)
    ensures
        r == tx_claims_nonfinal(*tx, *op),
{
    let mut i: usize = 0;
    while i < tx.inputs.len()
        invariant
            i <= tx.inputs@.len(),
            forall|j: int|
                0 <= j < i ==> !(tx.inputs@[j].previous_output == *op && tx.inputs@[j].sequence
                    != SEQUENCE_FINAL),
        decreases tx.inputs@.len() - i,
    {
        if tx.inputs[i].previous_output == *op && tx.inputs[i].sequence != SEQUENCE_FINAL {
            return true;
        }
        i = i + 1;
    }
    false
}

/// Whether some input of `tx` spends an output of the transaction `h`.
pub fn tx_spends_from(tx: &Transaction, h: &H256) -> (r: bool)
    ensures
        r == exists|i: int| 0 <= i < tx.inputs@.len() && #[trigger] tx.inputs@[i].previous_output.hash == *h,
{
    let mut i: usize = 0;
    while i < tx.inputs.len()
        invariant
            i <= tx.inputs@.len(),
            forall|j: int| 0 <= j < i ==> tx.inputs@[j].previous_output.hash != *h,
        decreases tx.inputs@.len() - i,
    {
        if tx.inputs[i].previous_output.hash == *h {
            return true;
        }
        i = i + 1;
    }
    false
}

/// Entry `k` of the pool conflicts with `tx`: it spends an outpoint `tx` spends.
pub open spec fn conflicts(s: Seq<Entry>, tx: Transaction, k: int) -> bool {
    exists|i: int| 0 <= i < tx.inputs@.len() && #[trigger] claims(s[k], tx.inputs@[i].previous_output)
}

/// Entry `k` conflicts with `tx` on an outpoint it spends with a sequence
/// number that is not final.
pub open spec fn conflicts_nonfinal(s: Seq<Entry>, tx: Transaction, k: int) -> bool {
    exists|i: int|
        0 <= i < tx.inputs@.len() && #[trigger] tx_claims_nonfinal(
            s[k].transaction.raw,
            tx.inputs@[i].previous_output,
        )
}

/// `v` lists each entry that conflicts with `tx` once, in pool order.
pub open spec fn lists_conflicts(s: Seq<Entry>, tx: Transaction, v: Seq<H256>) -> bool {
    &&& v.no_duplicates()
    &&& forall|h: H256|
        v.contains(h) <==> exists|k: int| 0 <= k < s.len() && #[trigger] conflicts(s, tx, k) && s[k].hash() == h
}

/// The classification owed by `check_double_spend`.
pub open spec fn double_spend_ok(s: Seq<Entry>, tx: Transaction, r: DoubleSpendCheckResult) -> bool {
    let any = exists|k: int| 0 <= k < s.len() && #[trigger] conflicts(s, tx, k);
    let any_nonfinal = exists|k: int| 0 <= k < s.len() && #[trigger] conflicts_nonfinal(s, tx, k);
    match r {
        DoubleSpendCheckResult::NoDoubleSpend => !any,
        DoubleSpendCheckResult::DoubleSpend(v) => any && !any_nonfinal && lists_conflicts(s, tx, v@),
        DoubleSpendCheckResult::NonFinalDoubleSpend(v) => any && any_nonfinal && lists_conflicts(s, tx, v@),
    }
}

/// `h` is an ancestor of a new transaction `tx`: the hash of a pool entry
/// `tx` spends from, or one of that entry's ancestors.
pub open spec fn new_ancestor(s: Seq<Entry>, tx: Transaction, h: H256) -> bool {
    exists|k: int|
        0 <= k < s.len() && #[trigger] tx_spends(tx, s[k].hash()) && (s[k].hash() == h
            || s[k].ancestors@.contains(h))
}

pub open spec fn tx_spends(tx: Transaction, h: H256) -> bool {
    exists|i: int| 0 <= i < tx.inputs@.len() && #[trigger] tx.inputs@[i].previous_output.hash == h
}

pub open spec fn ancestor_upto(s: Seq<Entry>, tx: Transaction, n: int, h: H256) -> bool {
    exists|k: int|
        0 <= k < n && #[trigger] tx_spends(tx, s[k].hash()) && (s[k].hash() == h || s[k].ancestors@.contains(h))
}

proof fn lemma_remove_final(o: Seq<Entry>, n: Seq<Entry>, idx: Seq<int>, gone: Seq<H256>, h: H256, i0: int)
    requires
        entries_wf(o),
        0 <= i0 < o.len(),
        o[i0].hash() == h,
        kept_by(o, n, idx),
        forall|m: int| 0 <= m < o.len() ==> (exists|k: int| 0 <= k < idx.len() && #[trigger] idx[k] == m)
            || gone.contains(#[trigger] o[m].hash()),
        forall|k: int| 0 <= k < n.len() ==> !gone.contains(#[trigger] n[k].hash()),
        forall|m: int| 0 <= m < o.len() && gone.contains(#[trigger] o[m].hash()) && o[m].hash() != h
            ==> depends_on_any(o[m], gone),
        forall|g: H256| gone.contains(g) ==> has_hash(o, g),
        gone.contains(h),
        forall|k: int| 0 <= k < n.len() ==> !#[trigger] depends_on_any(n[k], gone),
    ensures
        entries_wf(n),
        removal_of(o, n, h),
{
    // an entry of `o` is kept exactly when its hash is not gone
    assert forall|m: int| 0 <= m < o.len() implies (n.contains(#[trigger] o[m]) <==> !gone.contains(o[m].hash())) by {
        if n.contains(o[m]) {
            let k = n.index_of(o[m]);
            assert(n[k] == o[idx[k]]);
            if idx[k] != m {
                assert(o[idx[k]].hash() != o[m].hash());
            }
            assert(!gone.contains(n[k].hash()));
        }
        if !gone.contains(o[m].hash()) {
            let k = choose|k: int| 0 <= k < idx.len() && #[trigger] idx[k] == m;
            assert(n[k] == o[m]);
        }
    }
    assert forall|x: H256| has_hash(o, x) && !gone.contains(x) implies has_hash(n, x) by {
        let m = choose|m: int| 0 <= m < o.len() && #[trigger] o[m].hash() == x;
        let k = choose|k: int| 0 <= k < idx.len() && #[trigger] idx[k] == m;
        assert(n[k].hash() == x);
    }
    assert forall|x: H256| has_hash(n, x) implies !gone.contains(x) by {
        let k = choose|k: int| 0 <= k < n.len() && #[trigger] n[k].hash() == x;
    }
    assert forall|i: int, j: int| 0 <= i < n.len() && 0 <= j < n.len() && i != j implies #[trigger] n[i].hash() != #[trigger] n[j].hash() by {
        if i < j {
            assert(idx[i] < idx[j]);
        } else {
            assert(idx[j] < idx[i]);
        }
        assert(o[idx[i]].hash() != o[idx[j]].hash());
    }
    assert forall|i: int, j: int, op: OutPoint|
        0 <= i < n.len() && 0 <= j < n.len() && i != j && #[trigger] claims(n[i], op) implies !#[trigger] claims(n[j], op) by {
        if i < j {
            assert(idx[i] < idx[j]);
        } else {
            assert(idx[j] < idx[i]);
        }
        assert(claims(o[idx[i]], op));
        assert(!claims(o[idx[j]], op));
    }
    assert forall|i: int, j: int|
        0 <= i < n.len() && 0 <= j < n.len() && i != j && #[trigger] spends_from(n[j], n[i].hash())
            implies n[j].ancestors@.contains(n[i].hash()) by {
        if i < j {
            assert(idx[i] < idx[j]);
        } else {
            assert(idx[j] < idx[i]);
        }
        assert(spends_from(o[idx[j]], o[idx[i]].hash()));
    }
    assert forall|j: int, a: int| 0 <= j < n.len() && 0 <= a < n[j].ancestors@.len() implies has_hash(n, #[trigger] n[j].ancestors@[a]) by {
        assert(n[j] == o[idx[j]]);
        assert(has_hash(o, o[idx[j]].ancestors@[a]));
        if gone.contains(n[j].ancestors@[a]) {
            assert(depends_on_any(n[j], gone));
        }
    }
    assert forall|j: int| 0 <= j < n.len() implies !#[trigger] n[j].ancestors@.contains(n[j].hash())
        && n[j].ancestors@.no_duplicates() && !n[j].transaction.raw.spec_is_coinbase() by {
        assert(n[j] == o[idx[j]]);
        lemma_wf_entry(o, idx[j]);
    }
    assert forall|i: int, j: int, x: H256|
        0 <= i < n.len() && 0 <= j < n.len() && #[trigger] n[j].ancestors@.contains(n[i].hash())
            && #[trigger] n[i].ancestors@.contains(x) && x != n[j].hash() implies n[j].ancestors@.contains(x) by {
        assert(n[i] == o[idx[i]]);
        assert(n[j] == o[idx[j]]);
        assert(o[idx[j]].ancestors@.contains(o[idx[i]].hash()) && o[idx[i]].ancestors@.contains(x));
    }
    assert(kept_in_order(o, n));
    assert(!has_hash(n, h));
    assert forall|m: int| 0 <= m < o.len() && !n.contains(#[trigger] o[m]) implies o[m].hash() == h || exists|m2: int|
        0 <= m2 < o.len() && !n.contains(#[trigger] o[m2]) && o[m].ancestors@.contains(o[m2].hash()) by {
        if o[m].hash() != h {
            assert(gone.contains(o[m].hash()));
            assert(depends_on_any(o[m], gone));
            let a = choose|a: int| 0 <= a < o[m].ancestors@.len() && gone.contains(#[trigger] o[m].ancestors@[a]);
            let g = o[m].ancestors@[a];
            assert(has_hash(o, g));
            let m2 = choose|m2: int| 0 <= m2 < o.len() && #[trigger] o[m2].hash() == g;
            assert(!n.contains(o[m2]));
            assert(o[m].ancestors@.contains(o[m2].hash()));
        }
    }
}

/// Appends `x` unless `v` holds it already.
fn push_unique(v: &mut Vec<H256>, x: H256)
    requires
        old(v)@.no_duplicates(),
    ensures
        final(v)@.no_duplicates(),
        forall|h: H256| final(v)@.contains(h) <==> old(v)@.contains(h) || h == x,
{
    if !vec_contains(v, &x) {
        let ghost o = v@;
        v.push(x);
        proof {
            assert forall|i: int, j: int| 0 <= i < v@.len() && 0 <= j < v@.len() && i != j implies v@[i] != v@[j] by {
                if i < o.len() && j < o.len() {
                    assert(o[i] != o[j]);
                } else if i < o.len() {
                    assert(o.contains(o[i]));
                } else {
                    assert(o.contains(o[j]));
                }
            }
            assert forall|h: H256| v@.contains(h) <==> o.contains(h) || h == x by {
                if v@.contains(h) {
                    let i = v@.index_of(h);
                    if i < o.len() {
                        assert(o[i] == h);
                    }
                }
                if o.contains(h) {
                    assert(v@[o.index_of(h)] == h);
                }
                if h == x {
                    assert(v@[o.len() as int] == h);
                }
            }
        }
    }
}

/// Some ancestor of `e` is listed in `gone`.
pub open spec fn depends_on_any(e: Entry, gone: Seq<H256>) -> bool {
    exists|a: int| 0 <= a < e.ancestors@.len() && gone.contains(#[trigger] e.ancestors@[a])
}

/// `n` keeps entries of `o` in their order: `n[k]` is `o[idx[k]]`.
pub open spec fn kept_by(o: Seq<Entry>, n: Seq<Entry>, idx: Seq<int>) -> bool {
    &&& idx.len() == n.len()
    &&& forall|k: int| 0 <= k < n.len() ==> 0 <= #[trigger] idx[k] < o.len() && n[k] == o[idx[k]]
    &&& forall|a: int, b: int| 0 <= a < b < n.len() ==> #[trigger] idx[a] < #[trigger] idx[b]
}

pub open spec fn kept_in_order(o: Seq<Entry>, n: Seq<Entry>) -> bool {
    exists|idx: Seq<int>| kept_by(o, n, idx)
}

/// Removing the entry `h` from `o` left `n`: every entry of `o` that `n` lost is
/// `h` or has an ancestor that was lost too, and `n` keeps the rest in order.
pub open spec fn removal_of(o: Seq<Entry>, n: Seq<Entry>, h: H256) -> bool {
    &&& kept_in_order(o, n)
    &&& !has_hash(n, h)
    &&& forall|m: int|
        0 <= m < o.len() && !n.contains(#[trigger] o[m]) ==> o[m].hash() == h || exists|m2: int|
            0 <= m2 < o.len() && !n.contains(#[trigger] o[m2]) && o[m].ancestors@.contains(o[m2].hash())
    &&& forall|m: int| 0 <= m < o.len() && !n.contains(#[trigger] o[m]) ==> !has_hash(n, o[m].hash())
}

/// Fee of the pool entry with hash `h`.
pub open spec fn fee_of(s: Seq<Entry>, h: H256) -> int {
    if has_hash(s, h) {
        s[choose|k: int| 0 <= k < s.len() && #[trigger] s[k].hash() == h].miner_fee as int
    } else {
        0
    }
}

pub open spec fn size_of(s: Seq<Entry>, h: H256) -> int {
    if has_hash(s, h) {
        s[choose|k: int| 0 <= k < s.len() && #[trigger] s[k].hash() == h].size as int
    } else {
        0
    }
}

pub open spec fn sum_fee_of(s: Seq<Entry>, hs: Seq<H256>) -> int
    decreases hs.len(),
{
    if hs.len() == 0 {
        0
    } else {
        sum_fee_of(s, hs.drop_last()) + fee_of(s, hs.last())
    }
}

pub open spec fn sum_size_of(s: Seq<Entry>, hs: Seq<H256>) -> int
    decreases hs.len(),
{
    if hs.len() == 0 {
        0
    } else {
        sum_size_of(s, hs.drop_last()) + size_of(s, hs.last())
    }
}

/// Fee of entry `k` together with its ancestors.
pub open spec fn package_fee(s: Seq<Entry>, k: int) -> int {
    s[k].miner_fee + sum_fee_of(s, s[k].ancestors@)
}

/// Size of entry `k` together with its ancestors.
pub open spec fn package_size(s: Seq<Entry>, k: int) -> int {
    s[k].size + sum_size_of(s, s[k].ancestors@)
}

/// Package fee per byte, rounded down (an empty package counts as one byte).
pub open spec fn fee_rate(s: Seq<Entry>, k: int) -> int {
    if package_size(s, k) == 0 {
        package_fee(s, k)
    } else {
        package_fee(s, k) / package_size(s, k)
    }
}

/// Entry `a` goes before entry `b`: a higher fee rate, or the same rate and a lower hash.
pub open spec fn better(s: Seq<Entry>, a: int, b: int) -> bool {
    fee_rate(s, a) > fee_rate(s, b) || (fee_rate(s, a) == fee_rate(s, b) && hash_lt(s[a].hash(), s[b].hash()))
}

proof fn lemma_sum_of_step(s: Seq<Entry>, hs: Seq<H256>, i: int)
    requires
        0 <= i < hs.len(),
    ensures
        sum_fee_of(s, hs.take(i + 1)) == sum_fee_of(s, hs.take(i)) + fee_of(s, hs[i]),
        sum_size_of(s, hs.take(i + 1)) == sum_size_of(s, hs.take(i)) + size_of(s, hs[i]),
        0 <= sum_fee_of(s, hs.take(i)) <= i * 0xFFFF_FFFF_FFFF_FFFFint,
        0 <= sum_size_of(s, hs.take(i)) <= i * 0xFFFF_FFFF_FFFF_FFFFint,
{
    assert(hs.take(i + 1).drop_last() =~= hs.take(i));
    lemma_sum_of_bounds(s, hs.take(i));
}

proof fn lemma_sum_of_bounds(s: Seq<Entry>, hs: Seq<H256>)
    ensures
        0 <= sum_fee_of(s, hs) <= hs.len() * 0xFFFF_FFFF_FFFF_FFFFint,
        0 <= sum_size_of(s, hs) <= hs.len() * 0xFFFF_FFFF_FFFF_FFFFint,
    decreases hs.len(),
{
    if hs.len() > 0 {
        lemma_sum_of_bounds(s, hs.drop_last());
    }
}

proof fn lemma_hash_lt_transitive(a: H256, b: H256, c: H256)
    requires
        hash_lt(a, b),
        hash_lt(b, c),
    ensures
        hash_lt(a, c),
{
}

proof fn lemma_hash_lt_total(a: H256, b: H256)
    ensures
        a == b || hash_lt(a, b) || hash_lt(b, a),
        !(hash_lt(a, b) && hash_lt(b, a)),
        !hash_lt(a, a),
{
}

/// Every ancestor of entry `k` is the hash of an entry marked in `used`.
pub open spec fn ancestors_used(s: Seq<Entry>, used: Seq<bool>, k: int) -> bool {
    forall|a: int| 0 <= a < s[k].ancestors@.len() ==> #[trigger] hash_used(s, used, s[k].ancestors@[a])
}

/// The entry with hash `h` is marked in `used`.
pub open spec fn hash_used(s: Seq<Entry>, used: Seq<bool>, h: H256) -> bool {
    exists|j: int| 0 <= j < s.len() && #[trigger] s[j].hash() == h && used[j]
}

/// Entry `j` may be picked next.
pub open spec fn available(s: Seq<Entry>, used: Seq<bool>, topological: bool, j: int) -> bool {
    !used[j] && (!topological || ancestors_used(s, used, j))
}

/// The hash `h` is among those of the first `b` positions listed in `out`.
pub open spec fn listed_before(s: Seq<Entry>, out: Seq<usize>, b: int, h: H256) -> bool {
    exists|t: int| 0 <= t < b && #[trigger] s[out[t] as int].hash() == h
}

/// `idx` lists distinct positions of `s`, and `r` their hashes.
pub open spec fn lists_positions(s: Seq<Entry>, idx: Seq<int>, r: Seq<H256>) -> bool {
    &&& idx.len() == r.len()
    &&& forall|t: int| 0 <= t < idx.len() ==> 0 <= #[trigger] idx[t] < s.len() && r[t] == s[idx[t]].hash()
    &&& forall|a: int, b: int| 0 <= a < idx.len() && 0 <= b < idx.len() && a != b ==> #[trigger] idx[a] != #[trigger] idx[b]
}

/// No listed entry comes after an entry that would go before it.
pub open spec fn by_rate(s: Seq<Entry>, idx: Seq<int>) -> bool {
    forall|a: int, b: int| 0 <= a < b < idx.len() ==> !#[trigger] better(s, idx[b], idx[a])
}

/// Every listed entry comes after the pool entries it spends from.
pub open spec fn parents_first(s: Seq<Entry>, idx: Seq<int>) -> bool {
    forall|b: int, k: int|
        0 <= b < idx.len() && 0 <= k < s.len() && k != idx[b] && #[trigger] spends_from(s[idx[b]], s[k].hash())
            ==> exists|a: int| 0 <= a < b && #[trigger] idx[a] == k
}

/// Some ancestor of entry `k` is not among the hashes `hs`.
pub open spec fn blocked(s: Seq<Entry>, hs: Seq<H256>, k: int) -> bool {
    exists|a: int| 0 <= a < s[k].ancestors@.len() && !hs.contains(#[trigger] s[k].ancestors@[a])
}

/// Entry `k` could have been listed at position `t` of `idx`: it is not
/// among the first `t` positions, and all its ancestors are.
pub open spec fn avail_at(s: Seq<Entry>, idx: Seq<int>, t: int, k: int) -> bool {
    &&& forall|q: int| 0 <= q < t ==> #[trigger] idx[q] != k
    &&& forall|a: int| 0 <= a < s[k].ancestors@.len() ==> #[trigger] listed_in(s, idx, t, s[k].ancestors@[a])
}

/// The hash `h` belongs to one of the first `t` positions of `idx`.
pub open spec fn listed_in(s: Seq<Entry>, idx: Seq<int>, t: int, h: H256) -> bool {
    exists|q: int| 0 <= q < t && #[trigger] s[idx[q]].hash() == h
}

/// Each listed entry is the best of those that could have been listed in its place.
pub open spec fn greedy(s: Seq<Entry>, idx: Seq<int>) -> bool {
    forall|t: int, k: int|
        0 <= t < idx.len() && 0 <= k < s.len() && #[trigger] avail_at(s, idx, t, k) ==> !better(s, k, idx[t])
}

proof fn lemma_avail_at_prefix(s: Seq<Entry>, idx: Seq<int>, b: int, t: int, k: int)
    requires
        0 <= t <= idx.len(),
    ensures
        avail_at(s, idx.push(b), t, k) == avail_at(s, idx, t, k),
{
    let n = idx.push(b);
    assert forall|h: H256| listed_in(s, n, t, h) == listed_in(s, idx, t, h) by {
        if listed_in(s, n, t, h) {
            let q = choose|q: int| 0 <= q < t && #[trigger] s[n[q]].hash() == h;
            assert(s[idx[q]].hash() == h);
        }
        if listed_in(s, idx, t, h) {
            let q = choose|q: int| 0 <= q < t && #[trigger] s[idx[q]].hash() == h;
            assert(s[n[q]].hash() == h);
        }
    }
    assert forall|q: int| 0 <= q < t implies n[q] == idx[q] by {}
    if avail_at(s, idx, t, k) {
        assert forall|a: int| 0 <= a < s[k].ancestors@.len() implies #[trigger] listed_in(s, n, t, s[k].ancestors@[a]) by {
            assert(listed_in(s, idx, t, s[k].ancestors@[a]));
        }
        assert forall|q: int| 0 <= q < t implies #[trigger] n[q] != k by {
            assert(n[q] == idx[q]);
        }
    }
    if avail_at(s, n, t, k) {
        assert forall|a: int| 0 <= a < s[k].ancestors@.len() implies #[trigger] listed_in(s, idx, t, s[k].ancestors@[a]) by {
            assert(listed_in(s, n, t, s[k].ancestors@[a]));
        }
        assert forall|q: int| 0 <= q < t implies #[trigger] idx[q] != k by {
            assert(n[q] == idx[q]);
        }
    }
}

proof fn lemma_greedy_push(s: Seq<Entry>, idx: Seq<int>, b: int)
    requires
        greedy(s, idx),
        forall|k: int| 0 <= k < s.len() && #[trigger] avail_at(s, idx.push(b), idx.len() as int, k) ==> !better(s, k, b),
    ensures
        greedy(s, idx.push(b)),
{
    let n = idx.push(b);
    assert forall|t: int, k: int| 0 <= t < n.len() && 0 <= k < s.len() && #[trigger] avail_at(s, n, t, k) implies !better(s, k, n[t]) by {
        if t < idx.len() {
            lemma_avail_at_prefix(s, idx, b, t, k);
            assert(avail_at(s, idx, t, k));
            assert(n[t] == idx[t]);
        }
    }
}

pub open spec fn positions(r: Seq<usize>) -> Seq<int> {
    r.map_values(|x: usize| x as int)
}

pub open spec fn hashes_at(s: Seq<Entry>, r: Seq<usize>) -> Seq<H256> {
    r.map_values(|x: usize| s[x as int].hash())
}

pub open spec fn min(a: int, b: int) -> int {
    if a < b {
        a
    } else {
        b
    }
}

proof fn lemma_better_transitive(s: Seq<Entry>, a: int, b: int, c: int)
    requires
        better(s, a, b),
        better(s, b, c),
    ensures
        better(s, a, c),
{
    if fee_rate(s, a) == fee_rate(s, b) && fee_rate(s, b) == fee_rate(s, c) {
        lemma_hash_lt_transitive(s[a].hash(), s[b].hash(), s[c].hash());
    }
}

proof fn lemma_covering_length(idx: Seq<int>, n: int)
    requires
        0 <= n,
        forall|a: int, b: int| 0 <= a < idx.len() && 0 <= b < idx.len() && a != b ==> #[trigger] idx[a] != #[trigger] idx[b],
        forall|k: int| 0 <= k < n ==> idx.contains(k),
    ensures
        idx.len() >= n,
{
    let range = Set::new(|k: int| 0 <= k < n);
    assert(range =~= vstd::set_lib::set_int_range(0, n));
    vstd::set_lib::lemma_int_range(0, n);
    assert(range.subset_of(idx.to_set()));
    idx.lemma_cardinality_of_set();
    vstd::set_lib::lemma_len_subset(range, idx.to_set());
}

proof fn lemma_distinct_bounded_length(idx: Seq<int>, n: int)
    requires
        0 <= n,
        forall|a: int, b: int| 0 <= a < idx.len() && 0 <= b < idx.len() && a != b ==> #[trigger] idx[a] != #[trigger] idx[b],
        forall|t: int| 0 <= t < idx.len() ==> 0 <= #[trigger] idx[t] < n,
    ensures
        idx.len() <= n,
{
    let range = Set::new(|k: int| 0 <= k < n);
    assert(range =~= vstd::set_lib::set_int_range(0, n));
    vstd::set_lib::lemma_int_range(0, n);
    assert(idx.no_duplicates());
    idx.unique_seq_to_set();
    assert(idx.to_set().subset_of(range));
    vstd::set_lib::lemma_len_subset(idx.to_set(), range);
}

/// Ancestor sets are transitively closed: an ancestor of an ancestor of an
/// entry is an ancestor of that entry (or the entry itself).
pub proof fn lemma_ancestors_closed(pool: &MemoryPool, i: int, j: int, x: H256)
    requires
        pool.wf(),
        0 <= i < pool@.len(),
        0 <= j < pool@.len(),
        pool@[j].ancestors@.contains(pool@[i].hash()),
        pool@[i].ancestors@.contains(x),
        x != pool@[j].hash(),
    ensures
        pool@[j].ancestors@.contains(x),
{
}

/// Hashes of the entries that count `h` among their ancestors.
pub open spec fn descendants(s: Seq<Entry>, h: H256) -> Set<H256> {
    Set::new(|x: H256| exists|k: int| 0 <= k < s.len() && #[trigger] s[k].hash() == x && s[k].ancestors@.contains(h))
}

/// No outpoint is spent by two entries of a well-formed pool.
pub proof fn lemma_outpoint_claimed_once(pool: &MemoryPool, op: OutPoint, i: int, j: int)
    requires
        pool.wf(),
        0 <= i < pool@.len(),
        0 <= j < pool@.len(),
        claims(pool@[i], op),
        claims(pool@[j], op),
    ensures
        i == j,
{
}

/// Where an entry spends from another entry of the pool, the parent is among
/// the child's ancestors and the child among the parent's descendants.
pub proof fn lemma_parent_child_linked(pool: &MemoryPool, parent: int, child: int)
    requires
        pool.wf(),
        0 <= parent < pool@.len(),
        0 <= child < pool@.len(),
        parent != child,
        spends_from(pool@[child], pool@[parent].hash()),
    ensures
        pool@[child].ancestors@.contains(pool@[parent].hash()),
        descendants(pool@, pool@[parent].hash()).contains(pool@[child].hash()),
{
    assert(pool@[child].ancestors@.contains(pool@[parent].hash()));
}

/// Hashes of the pool's entries, oldest first: the listing by timestamp.
pub open spec fn pool_hashes(s: Seq<Entry>) -> Seq<H256> {
    s.map_values(|e: Entry| e.hash())
}

/// Any listing of all of a pool's entries, in whatever order (by fee rate,
/// by score), holds the same hashes as the listing by timestamp, each once;
/// so any sum over one index equals the sum over another.
pub proof fn lemma_full_listings_agree(s: Seq<Entry>, idx: Seq<int>, r: Seq<H256>)
    requires
        entries_wf(s),
        lists_positions(s, idx, r),
        r.len() == s.len(),
    ensures
        r.to_multiset() == pool_hashes(s).to_multiset(),
        r.no_duplicates(),
{
    let n = s.len() as int;
    let hs = pool_hashes(s);
    let range = Set::new(|k: int| 0 <= k < n);
    assert(range =~= vstd::set_lib::set_int_range(0, n));
    vstd::set_lib::lemma_int_range(0, n);
    assert(idx.no_duplicates());
    idx.unique_seq_to_set();
    assert(idx.to_set().subset_of(range));
    assert forall|k: int| 0 <= k < n implies idx.contains(k) by {
        if !idx.contains(k) {
            idx.to_set().lemma_subset_not_in_lt(range, k);
        }
    }
    assert(r.no_duplicates()) by {
        assert forall|a: int, b: int| 0 <= a < r.len() && 0 <= b < r.len() && a != b implies r[a] != r[b] by {
            assert(idx[a] != idx[b]);
        }
    }
    assert(hs.no_duplicates()) by {
        assert forall|a: int, b: int| 0 <= a < hs.len() && 0 <= b < hs.len() && a != b implies hs[a] != hs[b] by {
            assert(s[a].hash() != s[b].hash());
        }
    }
    assert forall|x: H256| r.contains(x) <==> hs.contains(x) by {
        if r.contains(x) {
            let t = r.index_of(x);
            assert(hs[idx[t]] == x);
        }
        if hs.contains(x) {
            let k = hs.index_of(x);
            assert(0 <= k < n && hs[k] == x && hs[k] == s[k].hash());
            assert(idx.contains(k));
            let t = idx.index_of(k);
            assert(idx[t] == k);
            assert(r[t] == x);
        }
    }
    r.lemma_multiset_has_no_duplicates();
    hs.lemma_multiset_has_no_duplicates();
    assert forall|x: H256| r.to_multiset().count(x) == hs.to_multiset().count(x) by {
        r.to_multiset_ensures();
        hs.to_multiset_ensures();
    }
    assert(r.to_multiset() =~= hs.to_multiset());
}

/// `b` is `a` with `h` taken out of its ancestors.
pub open spec fn stripped(a: Entry, b: Entry, h: H256) -> bool {
    &&& b.transaction == a.transaction
    &&& b.size == a.size
    &&& b.sigops == a.sigops
    &&& b.miner_fee == a.miner_fee
    &&& b.ancestors@.no_duplicates()
    &&& forall|x: H256| #[trigger] b.ancestors@.contains(x) <==> a.ancestors@.contains(x) && x != h
}

/// `n` is `o` without its entry `i0`, whose hash no longer counts as an
/// ancestor of anything: what including that entry in a block leaves.
pub open spec fn included_out(o: Seq<Entry>, n: Seq<Entry>, i0: int) -> bool {
    &&& 0 <= i0 < o.len()
    &&& n.len() + 1 == o.len()
    &&& forall|k: int| 0 <= k < i0 ==> #[trigger] stripped(o[k], n[k], o[i0].hash())
    &&& forall|k: int| i0 <= k < n.len() ==> #[trigger] stripped(o[k + 1], n[k], o[i0].hash())
}

/// `tx` is the transaction of some entry of `s`.
pub open spec fn from_pool(s: Seq<Entry>, tx: IndexedTransaction) -> bool {
    exists|k: int| 0 <= k < s.len() && #[trigger] s[k].transaction == tx
}

/// Draining took `r` out of `o` one entry at a time, leaving `f`: `states`
/// are the pools in between, and each step is an inclusion of the entry
/// whose transaction is the next of `r`.
pub open spec fn drained_steps(o: Seq<Entry>, f: Seq<Entry>, r: Seq<IndexedTransaction>, states: Seq<Seq<Entry>>) -> bool {
    &&& states.len() == r.len() + 1
    &&& states[0] == o
    &&& states[r.len() as int] == f
    &&& forall|t: int| 0 <= t < r.len() ==> #[trigger] step_at(states, r, t)
}

/// Step `t` of a drain took out the entry whose transaction is `r[t]`.
pub open spec fn step_at(states: Seq<Seq<Entry>>, r: Seq<IndexedTransaction>, t: int) -> bool {
    exists|i0: int| #[trigger] included_out(states[t], states[t + 1], i0) && states[t][i0].transaction == r[t]
}

proof fn lemma_included_out_from_pool(o: Seq<Entry>, before: Seq<Entry>, after: Seq<Entry>, i0: int)
    requires
        included_out(before, after, i0),
        forall|m: int| 0 <= m < before.len() ==> from_pool(o, #[trigger] before[m].transaction),
    ensures
        forall|m: int| 0 <= m < after.len() ==> from_pool(o, #[trigger] after[m].transaction),
{
    let h = before[i0].hash();
    assert forall|m: int| 0 <= m < after.len() implies from_pool(o, #[trigger] after[m].transaction) by {
        if m < i0 {
            assert(stripped(before[m], after[m], h));
            assert(from_pool(o, before[m].transaction));
        } else {
            assert(stripped(before[m + 1], after[m], h));
            assert(from_pool(o, before[m + 1].transaction));
        }
    }
}

proof fn lemma_included_out_wf(o: Seq<Entry>, n: Seq<Entry>, i0: int)
    requires
        entries_wf(o),
        included_out(o, n, i0),
    ensures
        entries_wf(n),
        forall|x: H256| has_hash(n, x) <==> has_hash(o, x) && x != o[i0].hash(),
{
    let h = o[i0].hash();
    let m = |k: int| if k < i0 { k } else { k + 1 };
    assert forall|k: int| 0 <= k < n.len() implies #[trigger] stripped(o[m(k)], n[k], h) && 0 <= m(k) < o.len() && m(k) != i0 by {
        if k < i0 {
            assert(stripped(o[k], n[k], h));
        } else {
            assert(stripped(o[k + 1], n[k], h));
        }
    }
    assert forall|k: int| 0 <= k < n.len() implies #[trigger] n[k].hash() == o[m(k)].hash() && n[k].hash() != h by {
        assert(stripped(o[m(k)], n[k], h));
        assert(o[m(k)].hash() != o[i0].hash());
    }
    assert forall|x: H256| has_hash(n, x) <==> has_hash(o, x) && x != h by {
        if has_hash(n, x) {
            let k = choose|k: int| 0 <= k < n.len() && #[trigger] n[k].hash() == x;
            assert(o[m(k)].hash() == x);
        }
        if has_hash(o, x) && x != h {
            let j = choose|j: int| 0 <= j < o.len() && #[trigger] o[j].hash() == x;
            let k = if j < i0 { j } else { j - 1 };
            assert(j != i0);
            assert(m(k) == j);
            assert(n[k].hash() == x);
        }
    }
    assert forall|i: int, j: int| 0 <= i < n.len() && 0 <= j < n.len() && i != j implies #[trigger] n[i].hash() != #[trigger] n[j].hash() by {
        assert(o[m(i)].hash() != o[m(j)].hash());
    }
    assert forall|i: int, j: int, op: OutPoint|
        0 <= i < n.len() && 0 <= j < n.len() && i != j && #[trigger] claims(n[i], op) implies !#[trigger] claims(n[j], op) by {
        assert(stripped(o[m(i)], n[i], h));
        assert(stripped(o[m(j)], n[j], h));
        assert(claims(o[m(i)], op));
        assert(!claims(o[m(j)], op));
    }
    assert forall|i: int, j: int|
        0 <= i < n.len() && 0 <= j < n.len() && i != j && #[trigger] spends_from(n[j], n[i].hash())
            implies n[j].ancestors@.contains(n[i].hash()) by {
        assert(stripped(o[m(i)], n[i], h));
        assert(stripped(o[m(j)], n[j], h));
        assert(spends_from(o[m(j)], o[m(i)].hash()));
        assert(o[m(j)].ancestors@.contains(o[m(i)].hash()));
    }
    assert forall|j: int, a: int| 0 <= j < n.len() && 0 <= a < n[j].ancestors@.len() implies has_hash(n, #[trigger] n[j].ancestors@[a]) by {
        let x = n[j].ancestors@[a];
        assert(n[j].ancestors@.contains(x));
        assert(stripped(o[m(j)], n[j], h));
        assert(o[m(j)].ancestors@.contains(x));
        let b = o[m(j)].ancestors@.index_of(x);
        assert(has_hash(o, o[m(j)].ancestors@[b]));
    }
    assert forall|j: int| 0 <= j < n.len() implies !#[trigger] n[j].ancestors@.contains(n[j].hash())
        && n[j].ancestors@.no_duplicates() && !n[j].transaction.raw.spec_is_coinbase() by {
        assert(stripped(o[m(j)], n[j], h));
        assert(!o[m(j)].ancestors@.contains(o[m(j)].hash()));
    }
    assert forall|i: int, j: int, x: H256|
        0 <= i < n.len() && 0 <= j < n.len() && #[trigger] n[j].ancestors@.contains(n[i].hash())
            && #[trigger] n[i].ancestors@.contains(x) && x != n[j].hash() implies n[j].ancestors@.contains(x) by {
        assert(stripped(o[m(i)], n[i], h));
        assert(stripped(o[m(j)], n[j], h));
        assert(o[m(j)].ancestors@.contains(o[m(i)].hash()));
        assert(o[m(i)].ancestors@.contains(x));
        assert(o[m(j)].ancestors@.contains(x));
    }
}

/// The refusal of a transaction whose hash the pool holds already.
pub open spec fn duplicate_of(e: DoubleSpendCheckResult, h: H256) -> bool {
    match e {
        DoubleSpendCheckResult::DoubleSpend(v) => v@ == seq![h],
        _ => false,
    }
}

/// Entry `a` depends on the transaction `h` about to be inserted: it spends
/// from `h`, or one of its ancestors in `o` does.
pub open spec fn affected(o: Seq<Entry>, a: Entry, h: H256) -> bool {
    spends_from(a, h) || exists|m: int|
        0 <= m < o.len() && #[trigger] spends_from(o[m], h) && a.ancestors@.contains(o[m].hash())
}

/// `b` is `a` after the insertion of the transaction `h` whose ancestors are
/// `na`: where `a` depends on `h`, `h` and its ancestors join `a`'s ancestors.
pub open spec fn linked(o: Seq<Entry>, a: Entry, b: Entry, h: H256, na: Seq<H256>) -> bool {
    &&& b.transaction == a.transaction
    &&& b.size == a.size
    &&& b.sigops == a.sigops
    &&& b.miner_fee == a.miner_fee
    &&& b.ancestors@.no_duplicates()
    &&& forall|x: H256|
        #[trigger] b.ancestors@.contains(x) <==> a.ancestors@.contains(x) || (affected(o, a, h) && (x == h
            || na.contains(x)) && x != a.hash())
    &&& !affected(o, a, h) ==> b == a
}

/// `n` is `o` after `tx` was inserted with the given fee, size and sigops.
pub open spec fn inserted(o: Seq<Entry>, n: Seq<Entry>, tx: IndexedTransaction, fee: u64, size: usize, sigops: usize) -> bool {
    &&& !has_hash(o, tx.hash)
    &&& forall|k: int| 0 <= k < o.len() ==> !#[trigger] conflicts(o, tx.raw, k)
    &&& n.len() == o.len() + 1
    &&& forall|k: int| 0 <= k < o.len() ==> #[trigger] linked(o, o[k], n[k], tx.hash, n.last().ancestors@)
    &&& n.last().transaction == tx
    &&& n.last().miner_fee == fee
    &&& n.last().size == size
    &&& n.last().sigops == sigops
    &&& n.last().ancestors@.no_duplicates()
    &&& forall|h: H256| n.last().ancestors@.contains(h) <==> #[trigger] new_ancestor(o, tx.raw, h)
}

/// Where nothing depends on `h`, its removal takes out that one entry.
pub open spec fn removed_alone(o: Seq<Entry>, n: Seq<Entry>, h: H256) -> bool {
    (forall|k: int| 0 <= k < o.len() ==> !#[trigger] o[k].ancestors@.contains(h)) ==> exists|i: int|
        0 <= i < o.len() && o[i].hash() == h && n == o.remove(i)
}

/// Inserting a transaction that no pool entry spends from, then removing it
/// by its hash, gives back the pool as it was.
pub proof fn lemma_insert_then_remove_restores(
    o: Seq<Entry>,
    n: Seq<Entry>,
    f: Seq<Entry>,
    tx: IndexedTransaction,
    fee: u64,
    size: usize,
    sigops: usize,
)
    requires
        entries_wf(o),
        entries_wf(n),
        inserted(o, n, tx, fee, size, sigops),
        forall|k: int| 0 <= k < o.len() ==> !#[trigger] spends_from(o[k], tx.hash),
        removed_alone(n, f, tx.hash),
    ensures
        f == o,
{
    let h = tx.hash;
    let last = o.len() as int;
    assert forall|k: int| 0 <= k < n.len() implies !#[trigger] n[k].ancestors@.contains(h) by {
        if k < last {
            assert(linked(o, o[k], n[k], h, n.last().ancestors@));
            assert(!spends_from(o[k], h));
            assert(!affected(o, o[k], h));
            if o[k].ancestors@.contains(h) {
                let a = o[k].ancestors@.index_of(h);
                assert(has_hash(o, o[k].ancestors@[a]));
            }
        } else {
            assert(n[k].hash() == h);
        }
    }
    let i = choose|i: int| 0 <= i < n.len() && n[i].hash() == h && f == n.remove(i);
    if i < last {
        assert(linked(o, o[i], n[i], h, n.last().ancestors@));
        assert(!affected(o, o[i], h));
        assert(has_hash(o, h)) by {
            assert(o[i].hash() == h);
        }
    }
    assert(i == last);
    assert forall|k: int| 0 <= k < o.len() implies f[k] == o[k] by {
        assert(linked(o, o[k], n[k], h, n.last().ancestors@));
        assert(!affected(o, o[k], h));
    }
    assert(f =~= o);
}

proof fn lemma_wf_entry(s: Seq<Entry>, j: int)
    requires
        entries_wf(s),
        0 <= j < s.len(),
    ensures
        !s[j].ancestors@.contains(s[j].hash()),
        s[j].ancestors@.no_duplicates(),
        !s[j].transaction.raw.spec_is_coinbase(),
{
    assert(!s[j].ancestors@.contains(s[j].hash()) && s[j].ancestors@.no_duplicates()
        && !s[j].transaction.raw.spec_is_coinbase());
}

proof fn lemma_push_distinct(s: Seq<H256>, x: H256, y: H256)
    requires
        s.no_duplicates(),
        !s.contains(x),
        !s.contains(y),
        x != y,
    ensures
        s.push(x).no_duplicates(),
        !s.push(x).contains(y),
{
    let t = s.push(x);
    assert forall|i: int, j: int| 0 <= i < t.len() && 0 <= j < t.len() && i != j implies t[i] != t[j] by {
        if i < s.len() && j < s.len() {
        } else if i < s.len() {
            assert(s.contains(s[i]));
        } else {
            assert(s.contains(s[j]));
        }
    }
    if t.contains(y) {
        let i = t.index_of(y);
        if i < s.len() {
            assert(s.contains(s[i]));
        }
    }
}

proof fn lemma_insert_wf(o: Seq<Entry>, n: Seq<Entry>, e: Entry)
    requires
        entries_wf(o),
        n.len() == o.len() + 1,
        n.last() == e,
        forall|m: int| 0 <= m < o.len() ==> #[trigger] linked(o, o[m], n[m], e.hash(), e.ancestors@),
        !has_hash(o, e.hash()),
        forall|k: int| 0 <= k < o.len() ==> !#[trigger] conflicts(o, e.transaction.raw, k),
        !e.transaction.raw.spec_is_coinbase(),
        e.ancestors@.no_duplicates(),
        forall|h: H256| e.ancestors@.contains(h) <==> #[trigger] new_ancestor(o, e.transaction.raw, h),
    ensures
        entries_wf(n),
{
    let h = e.hash();
    let a = e.ancestors@;
    let last = o.len() as int;
    assert(n[last] == e);
    assert forall|m: int| 0 <= m < o.len() implies #[trigger] n[m].hash() == o[m].hash() && o[m].hash() != h by {
        assert(linked(o, o[m], n[m], h, a));
        if o[m].hash() == h {
            assert(has_hash(o, h));
        }
    }
    assert forall|x: H256| has_hash(o, x) implies has_hash(n, x) by {
        let k = choose|k: int| 0 <= k < o.len() && #[trigger] o[k].hash() == x;
        assert(n[k].hash() == x);
    }
    assert(has_hash(n, h)) by {
        assert(n[last].hash() == h);
    }
    // what a new ancestor is
    assert forall|x: H256| #[trigger] a.contains(x) implies has_hash(o, x) && x != h by {
        assert(new_ancestor(o, e.transaction.raw, x));
        let k = choose|k: int|
            0 <= k < o.len() && #[trigger] tx_spends(e.transaction.raw, o[k].hash()) && (o[k].hash() == x
                || o[k].ancestors@.contains(x));
        if o[k].hash() != x {
            let b = o[k].ancestors@.index_of(x);
            assert(has_hash(o, o[k].ancestors@[b]));
        }
    }
    // the new ancestors are closed
    assert forall|i: int, x: H256| 0 <= i < o.len() && #[trigger] a.contains(o[i].hash()) && #[trigger] o[i].ancestors@.contains(x)
        implies a.contains(x) by {
        assert(new_ancestor(o, e.transaction.raw, o[i].hash()));
        let k = choose|k: int|
            0 <= k < o.len() && #[trigger] tx_spends(e.transaction.raw, o[k].hash()) && (o[k].hash() == o[i].hash()
                || o[k].ancestors@.contains(o[i].hash()));
        if o[k].hash() == o[i].hash() {
            if k != i {
                assert(o[k].hash() != o[i].hash());
            }
        } else if x != o[k].hash() {
            assert(o[k].ancestors@.contains(x));
        }
        assert(new_ancestor(o, e.transaction.raw, x));
    }
    // dependence on the new transaction runs down ancestor links
    assert forall|i: int, j: int| 0 <= i < o.len() && 0 <= j < o.len() && #[trigger] o[j].ancestors@.contains(o[i].hash())
        && #[trigger] affected(o, o[i], h) implies affected(o, o[j], h) by {
        if spends_from(o[i], h) {
            assert(spends_from(o[i], h) && o[j].ancestors@.contains(o[i].hash()));
        } else {
            let m = choose|m: int| 0 <= m < o.len() && #[trigger] spends_from(o[m], h) && o[i].ancestors@.contains(o[m].hash());
            if o[m].hash() != o[j].hash() {
                assert(o[j].ancestors@.contains(o[m].hash()));
            } else {
                if m != j {
                    assert(o[m].hash() != o[j].hash());
                }
            }
        }
    }
    assert forall|j: int| 0 <= j < o.len() implies !#[trigger] o[j].ancestors@.contains(h) by {
        if o[j].ancestors@.contains(h) {
            let b = o[j].ancestors@.index_of(h);
            assert(has_hash(o, o[j].ancestors@[b]));
        }
    }
    // distinct hashes
    assert forall|i: int, j: int|
        0 <= i < n.len() && 0 <= j < n.len() && i != j implies #[trigger] n[i].hash() != #[trigger] n[j].hash() by {
        if i < last && j < last {
            assert(o[i].hash() != o[j].hash());
        }
    }
    // each outpoint spent once
    assert forall|i: int, j: int, op: OutPoint|
        0 <= i < n.len() && 0 <= j < n.len() && i != j && #[trigger] claims(n[i], op) implies !#[trigger] claims(
        n[j],
        op,
    ) by {
        if i < last {
            assert(linked(o, o[i], n[i], h, a));
        }
        if j < last {
            assert(linked(o, o[j], n[j], h, a));
        }
        if i < last && j < last {
            assert(claims(o[i], op));
            assert(!claims(o[j], op));
        } else if i < last {
            if claims(n[j], op) {
                let t = choose|t: int| 0 <= t < e.transaction.raw.inputs@.len()
                    && #[trigger] e.transaction.raw.inputs@[t].previous_output == op;
                assert(claims(o[i], e.transaction.raw.inputs@[t].previous_output));
                assert(conflicts(o, e.transaction.raw, i));
            }
        } else {
            if claims(n[j], op) {
                let t = choose|t: int| 0 <= t < e.transaction.raw.inputs@.len()
                    && #[trigger] e.transaction.raw.inputs@[t].previous_output == op;
                assert(claims(o[j], e.transaction.raw.inputs@[t].previous_output));
                assert(conflicts(o, e.transaction.raw, j));
            }
        }
    }
    // a parent is an ancestor
    assert forall|i: int, j: int|
        0 <= i < n.len() && 0 <= j < n.len() && i != j && #[trigger] spends_from(n[j], n[i].hash())
            implies n[j].ancestors@.contains(n[i].hash()) by {
        if i < last && j < last {
            assert(linked(o, o[j], n[j], h, a));
            assert(spends_from(o[j], o[i].hash()));
            assert(o[j].ancestors@.contains(o[i].hash()));
        } else if j < last {
            assert(linked(o, o[j], n[j], h, a));
            assert(spends_from(o[j], h));
            assert(affected(o, o[j], h));
        } else {
            let t = choose|t: int| 0 <= t < e.transaction.raw.inputs@.len()
                && #[trigger] e.transaction.raw.inputs@[t].previous_output.hash == o[i].hash();
            assert(tx_spends(e.transaction.raw, o[i].hash()));
            assert(new_ancestor(o, e.transaction.raw, o[i].hash()));
        }
    }
    // ancestors are pool entries
    assert forall|j: int, b: int| 0 <= j < n.len() && 0 <= b < n[j].ancestors@.len() implies has_hash(
        n,
        #[trigger] n[j].ancestors@[b],
    ) by {
        let x = n[j].ancestors@[b];
        assert(n[j].ancestors@.contains(x));
        if j < last {
            assert(linked(o, o[j], n[j], h, a));
            if o[j].ancestors@.contains(x) {
                let c = o[j].ancestors@.index_of(x);
                assert(has_hash(o, o[j].ancestors@[c]));
            } else if x != h {
                assert(a.contains(x));
            }
        } else {
            assert(a.contains(x));
        }
    }
    assert forall|j: int| 0 <= j < n.len() implies !#[trigger] n[j].ancestors@.contains(n[j].hash())
        && n[j].ancestors@.no_duplicates() && !n[j].transaction.raw.spec_is_coinbase() by {
        if j < last {
            assert(linked(o, o[j], n[j], h, a));
            assert(!o[j].ancestors@.contains(o[j].hash()));
        } else {
            if a.contains(h) {
                assert(has_hash(o, h));
            }
        }
    }
    // ancestors are closed
    assert forall|i: int, j: int, x: H256|
        0 <= i < n.len() && 0 <= j < n.len() && #[trigger] n[j].ancestors@.contains(n[i].hash())
            && #[trigger] n[i].ancestors@.contains(x) && x != n[j].hash() implies n[j].ancestors@.contains(x) by {
        if i < last && j < last {
            assert(linked(o, o[i], n[i], h, a));
            assert(linked(o, o[j], n[j], h, a));
            if o[j].ancestors@.contains(o[i].hash()) {
                if o[i].ancestors@.contains(x) {
                    assert(o[j].ancestors@.contains(x));
                } else {
                    assert(affected(o, o[i], h));
                    assert(affected(o, o[j], h));
                }
            } else {
                assert(affected(o, o[j], h));
                assert(a.contains(o[i].hash()));
                if o[i].ancestors@.contains(x) {
                    assert(a.contains(x));
                }
            }
        } else if j < last {
            assert(linked(o, o[j], n[j], h, a));
            assert(n[i].hash() == h);
            assert(!o[j].ancestors@.contains(h));
            assert(affected(o, o[j], h));
            assert(a.contains(x));
        } else if i < last {
            assert(linked(o, o[i], n[i], h, a));
            assert(a.contains(o[i].hash()));
            if o[i].ancestors@.contains(x) {
                assert(a.contains(x));
            }
        } else {
            assert(a.contains(h) ==> has_hash(o, h));
        }
    }
}

impl MemoryPool {
    pub open spec fn wf(&self) -> bool {
        entries_wf(self@)
    }

    pub fn new() -> (r: MemoryPool)
        ensures
            r.wf(),
            r@.len() == 0,
    {
        MemoryPool { entries: Vec::new() }
    }

    /// Position of the entry with hash `h`.
    fn find(&self, h: &H256) -> (r: Option<usize>)
        ensures
            r.is_none() == !has_hash(self@, *h),
            r.is_some() ==> r.unwrap() < self@.len() && self@[r.unwrap() as int].hash() == *h,
    {
        let mut k: usize = 0;
        while k < self.entries.len()
            invariant
                k <= self.entries@.len(),
                forall|j: int| 0 <= j < k ==> self.entries@[j].hash() != *h,
            decreases self.entries@.len() - k,
        {
            if self.entries[k].transaction.hash == *h {
                assert(self@[k as int].hash() == *h);
                return Some(k);
            }
            k = k + 1;
        }
        None
    }

    /// Position of the entry that spends `op`.
    fn claimant(&self, op: &OutPoint) -> (r: Option<usize>)
        ensures
            r.is_none() == forall|k: int| 0 <= k < self@.len() ==> !#[trigger] claims(self@[k], *op),
            r.is_some() ==> r.unwrap() < self@.len() && claims(self@[r.unwrap() as int], *op),
    {
        let mut k: usize = 0;
        while k < self.entries.len()
            invariant
                k <= self.entries@.len(),
                forall|j: int| 0 <= j < k ==> !#[trigger] claims(self.entries@[j], *op),
            decreases self.entries@.len() - k,
        {
            if find_claim(&self.entries[k].transaction.raw, op).is_some() {
                assert(claims(self@[k as int], *op));
                return Some(k);
            }
            k = k + 1;
        }
        None
    }

    pub fn contains(&self, h: &H256) -> (r: bool)
        ensures
            r == has_hash(self@, *h),
    {
        self.find(h).is_some()
    }

    pub fn read_by_hash(&self, h: &H256) -> (r: Option<&Entry>)
        ensures
            r.is_none() == !has_hash(self@, *h),
            r.is_some() ==> r.unwrap().hash() == *h && self@.contains(*r.unwrap()),
    {
        match self.find(h) {
            Some(k) => Some(&self.entries[k]),
            None => None,
        }
    }

    /// The hash of the entry that spends `op`, if any.
    pub fn hashed_outpoint(&self, op: &OutPoint) -> (r: Option<H256>)
        ensures
            r.is_none() == forall|k: int| 0 <= k < self@.len() ==> !#[trigger] claims(self@[k], *op),
            r.is_some() ==> exists|k: int|
                0 <= k < self@.len() && #[trigger] claims(self@[k], *op) && self@[k].hash() == r.unwrap(),
    {
        match self.claimant(op) {
            Some(k) => Some(self.entries[k].transaction.hash),
            None => None,
        }
    }

    /// Whether a pool entry spends `op`.
    pub fn is_spent(&self, op: &OutPoint) -> (r: bool)
        ensures
            r == exists|k: int| 0 <= k < self@.len() && #[trigger] claims(self@[k], *op),
    {
        self.claimant(op).is_some()
    }

    pub open spec fn spec_output(&self, op: OutPoint) -> Option<TransactionOutput> {
        if has_hash(self@, op.hash) && !(exists|k: int| 0 <= k < self@.len() && #[trigger] claims(self@[k], op)) {
            let k = choose|k: int| 0 <= k < self@.len() && #[trigger] self@[k].hash() == op.hash;
            let outs = self@[k].transaction.raw.outputs@;
            if (op.index as int) < outs.len() {
                Some(outs[op.index as int])
            } else {
                None
            }
        } else {
            None
        }
    }

    /// The output `op` refers to, where a pool entry created it and no pool
    /// entry spends it.
    pub fn transaction_output(&self, op: &OutPoint) -> (r: Option<TransactionOutput>)
        requires
            self.wf(),
        ensures
            r.is_some() == self.spec_output(*op).is_some(),
            r.is_some() ==> r.unwrap().value == self.spec_output(*op).unwrap().value
                && r.unwrap().script_pubkey@ == self.spec_output(*op).unwrap().script_pubkey@,
    {
        if self.is_spent(op) {
            return None;
        }
        match self.find(&op.hash) {
            Some(k) => {
                proof {
                    let c = choose|c: int| 0 <= c < self@.len() && #[trigger] self@[c].hash() == op.hash;
                    assert(self@[c].hash() == self@[k as int].hash());
                }
                let outs = &self.entries[k].transaction.raw.outputs;
                if (op.index as usize) < outs.len() {
                    Some(outs[op.index as usize].clone_output())
                } else {
                    None
                }
            },
            None => None,
        }
    }

    pub fn information(&self) -> (r: Information)
        ensures
            r.count == self@.len(),
            r.total_size == sum_sizes(self@),
            r.total_fee == sum_fees(self@),
    {
        let mut size: u128 = 0;
        let mut fee: u128 = 0;
        let mut k: usize = 0;
        while k < self.entries.len()
            invariant
                k <= self.entries@.len(),
                size == sum_sizes(self.entries@.take(k as int)),
                fee == sum_fees(self.entries@.take(k as int)),
            decreases self.entries@.len() - k,
        {
            proof {
                lemma_sums_step(self.entries@, k as int);
            }
            size = size + self.entries[k].size as u128;
            fee = fee + self.entries[k].miner_fee as u128;
            k = k + 1;
        }
        assert(self.entries@.take(k as int) =~= self.entries@);
        Information { count: self.entries.len(), total_size: size, total_fee: fee }
    }

    /// Entries that spend what `tx` spends, classified by whether they may be replaced.
    pub fn check_double_spend(&self, tx: &Transaction) -> (r: DoubleSpendCheckResult)
        requires
            self.wf(),
        ensures
            double_spend_ok(self@, *tx, r),
    {
        let mut v: Vec<H256> = Vec::new();
        let mut any_nonfinal = false;
        let mut k: usize = 0;
        while k < self.entries.len()
            invariant
                k <= self.entries@.len(),
                entries_wf(self.entries@),
                v@.no_duplicates(),
                forall|h: H256|
                    v@.contains(h) <==> exists|j: int|
                        0 <= j < k && #[trigger] conflicts(self@, *tx, j) && self@[j].hash() == h,
                any_nonfinal == exists|j: int| 0 <= j < k && #[trigger] conflicts_nonfinal(self@, *tx, j),
            decreases self.entries@.len() - k,
        {
            let raw = &self.entries[k].transaction.raw;
            let mut conf = false;
            let mut nonfinal = false;
            let mut i: usize = 0;
            while i < tx.inputs.len()
                invariant
                    i <= tx.inputs@.len(),
                    k < self.entries@.len(),
                    *raw == self@[k as int].transaction.raw,
                    conf == exists|t: int|
                        0 <= t < i && #[trigger] claims(self@[k as int], tx.inputs@[t].previous_output),
                    nonfinal == exists|t: int|
                        0 <= t < i && #[trigger] tx_claims_nonfinal(*raw, tx.inputs@[t].previous_output),
                decreases tx.inputs@.len() - i,
            {
                let op = tx.inputs[i].previous_output;
                if find_claim(raw, &op).is_some() {
                    assert(claims(self@[k as int], tx.inputs@[i as int].previous_output));
                    conf = true;
                }
                if claims_nonfinal(raw, &op) {
                    assert(tx_claims_nonfinal(*raw, tx.inputs@[i as int].previous_output));
                    nonfinal = true;
                }
                i = i + 1;
            }
            let ghost hk = self@[k as int].hash();
            let ghost old_v = v@;
            if conf {
                assert(conflicts(self@, *tx, k as int));
                assert(!v@.contains(hk)) by {
                    if v@.contains(hk) {
                        let j = choose|j: int| 0 <= j < k && #[trigger] conflicts(self@, *tx, j) && self@[j].hash() == hk;
                    }
                }
                v.push(self.entries[k].transaction.hash);
                assert(v@ == old_v.push(hk));
                assert forall|h: H256| v@.contains(h) implies old_v.contains(h) || h == hk by {
                    let a = v@.index_of(h);
                    if a < old_v.len() {
                        assert(old_v[a] == h);
                    }
                }
                assert(v@[old_v.len() as int] == hk);
                assert forall|h: H256| old_v.contains(h) implies v@.contains(h) by {
                    let a = old_v.index_of(h);
                    assert(v@[a] == h);
                }
            } else {
                assert(!conflicts(self@, *tx, k as int));
            }
            if nonfinal {
                assert(conflicts_nonfinal(self@, *tx, k as int));
                any_nonfinal = true;
            } else {
                assert(!conflicts_nonfinal(self@, *tx, k as int));
            }
            proof {
                assert forall|h: H256|
                    v@.contains(h) <==> exists|j: int|
                        0 <= j < k + 1 && #[trigger] conflicts(self@, *tx, j) && self@[j].hash() == h by {
                    if v@.contains(h) {
                        if conf && h == hk {
                            assert(conflicts(self@, *tx, k as int) && self@[k as int].hash() == h);
                        } else {
                            assert(old_v.contains(h));
                            let j = choose|j: int|
                                0 <= j < k && #[trigger] conflicts(self@, *tx, j) && self@[j].hash() == h;
                            assert(0 <= j < k + 1 && conflicts(self@, *tx, j) && self@[j].hash() == h);
                        }
                    }
                    if exists|j: int| 0 <= j < k + 1 && #[trigger] conflicts(self@, *tx, j) && self@[j].hash() == h {
                        let j = choose|j: int| 0 <= j < k + 1 && #[trigger] conflicts(self@, *tx, j) && self@[j].hash() == h;
                        if j < k {
                            assert(old_v.contains(h));
                        } else {
                            assert(conf);
                            assert(h == hk);
                        }
                    }
                }
            }
            k = k + 1;
        }
        proof {
            assert forall|j: int| 0 <= j < self@.len() && #[trigger] conflicts_nonfinal(self@, *tx, j)
                implies conflicts(self@, *tx, j) by {
                let t = choose|t: int| 0 <= t < tx.inputs@.len() && #[trigger] tx_claims_nonfinal(
                    self@[j].transaction.raw, tx.inputs@[t].previous_output);
                let u = choose|u: int| 0 <= u < self@[j].transaction.raw.inputs@.len()
                    && #[trigger] self@[j].transaction.raw.inputs@[u].previous_output == tx.inputs@[t].previous_output
                    && self@[j].transaction.raw.inputs@[u].sequence != SEQUENCE_FINAL;
                assert(claims(self@[j], tx.inputs@[t].previous_output));
            }
        }
        if v.len() == 0 {
            proof {
                assert forall|j: int| 0 <= j < self@.len() implies !#[trigger] conflicts(self@, *tx, j) by {
                    if conflicts(self@, *tx, j) {
                        assert(v@.contains(self@[j].hash()));
                    }
                }
            }
            DoubleSpendCheckResult::NoDoubleSpend
        } else {
            assert(v@.contains(v@[0]));
            if any_nonfinal {
                DoubleSpendCheckResult::NonFinalDoubleSpend(v)
            } else {
                DoubleSpendCheckResult::DoubleSpend(v)
            }
        }
    }

    /// Hashes of the entries that spend from the transaction `h`.
    fn children_of(&self, h: &H256) -> (r: Vec<H256>)
        ensures
            forall|x: H256| r@.contains(x) <==> exists|m: int|
                0 <= m < self@.len() && #[trigger] spends_from(self@[m], *h) && self@[m].hash() == x,
    {
        let mut r: Vec<H256> = Vec::new();
        let mut k: usize = 0;
        while k < self.entries.len()
            invariant
                k <= self@.len(),
                forall|x: H256| r@.contains(x) <==> exists|m: int|
                    0 <= m < k && #[trigger] spends_from(self@[m], *h) && self@[m].hash() == x,
            decreases self@.len() - k,
        {
            let ghost before = r@;
            if tx_spends_from(&self.entries[k].transaction.raw, h) {
                r.push(self.entries[k].transaction.hash);
                proof {
                    assert(spends_from(self@[k as int], *h));
                    assert(r@ == before.push(self@[k as int].hash()));
                }
            }
            proof {
                assert forall|x: H256| r@.contains(x) <==> exists|m: int|
                    0 <= m < k + 1 && #[trigger] spends_from(self@[m], *h) && self@[m].hash() == x by {
                    if r@.contains(x) {
                        let p = r@.index_of(x);
                        if p < before.len() {
                            assert(before[p] == x);
                            assert(before.contains(x));
                            let m = choose|m: int| 0 <= m < k && #[trigger] spends_from(self@[m], *h) && self@[m].hash() == x;
                        } else {
                            assert(spends_from(self@[k as int], *h) && self@[k as int].hash() == x);
                        }
                    }
                    if exists|m: int| 0 <= m < k + 1 && #[trigger] spends_from(self@[m], *h) && self@[m].hash() == x {
                        let m = choose|m: int| 0 <= m < k + 1 && #[trigger] spends_from(self@[m], *h) && self@[m].hash() == x;
                        if m < k {
                            assert(before.contains(x));
                            let p = before.index_of(x);
                            assert(r@[p] == x);
                        } else {
                            assert(r@[r@.len() - 1] == x);
                        }
                    }
                }
            }
            k = k + 1;
        }
        r
    }

    /// The ancestors a transaction would have in this pool.
    fn compute_ancestors(&self, tx: &Transaction) -> (r: Vec<H256>)
        requires
            self.wf(),
        ensures
            r@.no_duplicates(),
            forall|h: H256| r@.contains(h) <==> #[trigger] new_ancestor(self@, *tx, h),
    {
        let mut r: Vec<H256> = Vec::new();
        let mut k: usize = 0;
        while k < self.entries.len()
            invariant
                k <= self.entries@.len(),
                r@.no_duplicates(),
                forall|h: H256| r@.contains(h) <==> #[trigger] ancestor_upto(self@, *tx, k as int, h),
            decreases self.entries@.len() - k,
        {
            let ghost before = r@;
            let e = &self.entries[k];
            if tx_spends_from(tx, &e.transaction.hash) {
                assert(tx_spends(*tx, self@[k as int].hash()));
                push_unique(&mut r, e.transaction.hash);
                let mut a: usize = 0;
                while a < e.ancestors.len()
                    invariant
                        a <= e.ancestors@.len(),
                        *e == self@[k as int],
                        r@.no_duplicates(),
                        forall|h: H256| #[trigger] r@.contains(h) <==> before.contains(h) || h == e.hash() || exists|b: int|
                            0 <= b < a && #[trigger] e.ancestors@[b] == h,
                    decreases e.ancestors@.len() - a,
                {
                    let ghost mid = r@;
                    push_unique(&mut r, e.ancestors[a]);
                    proof {
                        assert forall|h: H256| #[trigger] r@.contains(h) <==> before.contains(h) || h == e.hash() || exists|b: int|
                            0 <= b < a + 1 && #[trigger] e.ancestors@[b] == h by {
                            if r@.contains(h) && !mid.contains(h) {
                                assert(e.ancestors@[a as int] == h);
                            }
                            if mid.contains(h) {
                                if !before.contains(h) && h != e.hash() {
                                    let b = choose|b: int| 0 <= b < a && #[trigger] e.ancestors@[b] == h;
                                    assert(0 <= b < a + 1);
                                }
                            }
                            if before.contains(h) || h == e.hash() {
                                assert(mid.contains(h));
                            }
                            if exists|b: int| 0 <= b < a + 1 && #[trigger] e.ancestors@[b] == h {
                                let b = choose|b: int| 0 <= b < a + 1 && #[trigger] e.ancestors@[b] == h;
                                if b < a {
                                    assert(mid.contains(h));
                                }
                            }
                        }
                    }
                    a = a + 1;
                }
                proof {
                    assert forall|h: H256| r@.contains(h) <==> #[trigger] ancestor_upto(self@, *tx, k + 1, h) by {
                        if r@.contains(h) {
                            if before.contains(h) {
                                assert(ancestor_upto(self@, *tx, k as int, h));
                                let j = choose|j: int| 0 <= j < k && #[trigger] tx_spends(*tx, self@[j].hash())
                                    && (self@[j].hash() == h || self@[j].ancestors@.contains(h));
                                assert(0 <= j < k + 1);
                            } else if h == e.hash() {
                                assert(tx_spends(*tx, self@[k as int].hash()));
                            } else {
                                let b = choose|b: int| 0 <= b < a && #[trigger] e.ancestors@[b] == h;
                                assert(self@[k as int].ancestors@.contains(h));
                                assert(tx_spends(*tx, self@[k as int].hash()));
                            }
                        }
                        if ancestor_upto(self@, *tx, k + 1, h) {
                            let j = choose|j: int| 0 <= j < k + 1 && #[trigger] tx_spends(*tx, self@[j].hash())
                                && (self@[j].hash() == h || self@[j].ancestors@.contains(h));
                            if j < k {
                                assert(ancestor_upto(self@, *tx, k as int, h));
                                assert(before.contains(h));
                                assert(r@.contains(h));
                            } else if self@[j].hash() != h {
                                let b = e.ancestors@.index_of(h);
                                assert(e.ancestors@[b] == h);
                                assert(r@.contains(h));
                            } else {
                                assert(r@.contains(h));
                            }
                        }
                    }
                }
            } else {
                proof {
                    assert(!tx_spends(*tx, self@[k as int].hash()));
                    assert forall|h: H256| r@.contains(h) <==> #[trigger] ancestor_upto(self@, *tx, k + 1, h) by {
                        if ancestor_upto(self@, *tx, k + 1, h) {
                            let j = choose|j: int| 0 <= j < k + 1 && #[trigger] tx_spends(*tx, self@[j].hash())
                                && (self@[j].hash() == h || self@[j].ancestors@.contains(h));
                            assert(ancestor_upto(self@, *tx, k as int, h));
                        }
                        if r@.contains(h) {
                            assert(ancestor_upto(self@, *tx, k as int, h));
                            let j = choose|j: int| 0 <= j < k && #[trigger] tx_spends(*tx, self@[j].hash())
                                && (self@[j].hash() == h || self@[j].ancestors@.contains(h));
                            assert(0 <= j < k + 1);
                        }
                    }
                }
            }
            k = k + 1;
        }
        proof {
            assert forall|h: H256| r@.contains(h) <==> #[trigger] new_ancestor(self@, *tx, h) by {
                assert(ancestor_upto(self@, *tx, k as int, h) == new_ancestor(self@, *tx, h));
            }
        }
        r
    }

    /// Adds `tx` to the pool, unless a pool entry already spends one of its
    /// outpoints or has its hash. Entries that depend on `tx` (a transaction
    /// inserted after its child) count it and its ancestors among their
    /// ancestors from then on.
    pub fn insert(&mut self, tx: IndexedTransaction, fee: u64, size: usize, sigops: usize) -> (r: Result<
        (),
        DoubleSpendCheckResult,
    >)
        requires
            old(self).wf(),
            !tx.raw.spec_is_coinbase(),
        ensures
            final(self).wf(),
            match r {
                Ok(()) => inserted(old(self)@, final(self)@, tx, fee, size, sigops),
                Err(e) => {
                    &&& final(self)@ == old(self)@
                    &&& (exists|k: int| 0 <= k < old(self)@.len() && #[trigger] conflicts(old(self)@, tx.raw, k))
                        ==> double_spend_ok(old(self)@, tx.raw, e)
                    &&& (forall|k: int| 0 <= k < old(self)@.len() ==> !#[trigger] conflicts(old(self)@, tx.raw, k))
                        ==> has_hash(old(self)@, tx.hash) && duplicate_of(e, tx.hash)
                },
            },
    {
        let check = self.check_double_spend(&tx.raw);
        match check {
            DoubleSpendCheckResult::NoDoubleSpend => {},
            _ => {
                return Err(check);
            },
        }
        if self.contains(&tx.hash) {
            let v = vec![tx.hash];
            assert(v@ == seq![tx.hash]);
            return Err(DoubleSpendCheckResult::DoubleSpend(v));
        }
        let ancestors = self.compute_ancestors(&tx.raw);
        let h = tx.hash;
        let kids = self.children_of(&h);
        let ghost o = self.entries@;
        proof {
            assert forall|m: int| 0 <= m < o.len() implies #[trigger] o[m].hash() != h by {
                if o[m].hash() == h {
                    assert(has_hash(o, h));
                }
            }
        }
        let mut k: usize = 0;
        while k < self.entries.len()
            invariant
                entries_wf(o),
                k <= self.entries@.len(),
                self.entries@.len() == o.len(),
                forall|m: int| 0 <= m < o.len() ==> #[trigger] o[m].hash() != h,
                forall|x: H256| kids@.contains(x) <==> exists|m: int|
                    0 <= m < o.len() && #[trigger] spends_from(o[m], h) && o[m].hash() == x,
                forall|m: int| 0 <= m < k ==> #[trigger] linked(o, o[m], self.entries@[m], h, ancestors@),
                forall|m: int| k <= m < o.len() ==> #[trigger] self.entries@[m] == o[m],
            decreases self.entries@.len() - k,
        {
            assert(self.entries@[k as int] == o[k as int]);
            let mut found = tx_spends_from(&self.entries[k].transaction.raw, &h);
            let anc = &self.entries[k].ancestors;
            let mut b: usize = 0;
            while !found && b < anc.len()
                invariant
                    k < o.len(),
                    *anc == o[k as int].ancestors,
                    b <= anc@.len(),
                    forall|x: H256| kids@.contains(x) <==> exists|m: int|
                        0 <= m < o.len() && #[trigger] spends_from(o[m], h) && o[m].hash() == x,
                    found ==> affected(o, o[k as int], h),
                    !found ==> !spends_from(o[k as int], h),
                    !found ==> forall|r: int| 0 <= r < b ==> !kids@.contains(#[trigger] anc@[r]),
                decreases anc@.len() - b,
            {
                if vec_contains(&kids, &anc[b]) {
                    proof {
                        let m = choose|m: int| 0 <= m < o.len() && #[trigger] spends_from(o[m], h) && o[m].hash() == anc@[b as int];
                        assert(o[k as int].ancestors@.contains(o[m].hash()));
                    }
                    found = true;
                }
                b = b + 1;
            }
            proof {
                if !found {
                    assert(!affected(o, o[k as int], h)) by {
                        if exists|m: int| 0 <= m < o.len() && #[trigger] spends_from(o[m], h) && o[k as int].ancestors@.contains(o[m].hash()) {
                            let m = choose|m: int| 0 <= m < o.len() && #[trigger] spends_from(o[m], h) && o[k as int].ancestors@.contains(o[m].hash());
                            let r = anc@.index_of(o[m].hash());
                            assert(kids@.contains(anc@[r]));
                        }
                    }
                }
            }
            if found {
                let mut e = self.entries.remove(k);
                let ghost a0 = e.ancestors@;
                proof {
                    lemma_wf_entry(o, k as int);
                }
                assert(e.transaction.hash != h);
                push_unique(&mut e.ancestors, h);
                let mut q: usize = 0;
                while q < ancestors.len()
                    invariant
                        q <= ancestors@.len(),
                        e.transaction == o[k as int].transaction,
                        e.size == o[k as int].size,
                        e.sigops == o[k as int].sigops,
                        e.miner_fee == o[k as int].miner_fee,
                        e.ancestors@.no_duplicates(),
                        forall|x: H256| #[trigger] e.ancestors@.contains(x) <==> a0.contains(x) || ((x == h || exists|r: int|
                            0 <= r < q && #[trigger] ancestors@[r] == x) && x != e.transaction.hash),
                    decreases ancestors@.len() - q,
                {
                    let ghost before = e.ancestors@;
                    if ancestors[q] != e.transaction.hash {
                        push_unique(&mut e.ancestors, ancestors[q]);
                    }
                    proof {
                        assert forall|x: H256| #[trigger] e.ancestors@.contains(x) <==> a0.contains(x) || ((x == h || exists|r: int|
                            0 <= r < q + 1 && #[trigger] ancestors@[r] == x) && x != e.transaction.hash) by {
                            if exists|r: int| 0 <= r < q + 1 && #[trigger] ancestors@[r] == x {
                                let r = choose|r: int| 0 <= r < q + 1 && #[trigger] ancestors@[r] == x;
                                if r < q {
                                    assert(before.contains(x) || x == e.transaction.hash);
                                }
                            }
                            if e.ancestors@.contains(x) && !before.contains(x) {
                                assert(ancestors@[q as int] == x);
                            }
                        }
                    }
                    q = q + 1;
                }
                proof {
                    assert forall|x: H256| #[trigger] e.ancestors@.contains(x) <==> o[k as int].ancestors@.contains(x) || (affected(o, o[k as int], h) && (x == h
                        || ancestors@.contains(x)) && x != o[k as int].hash()) by {
                        if ancestors@.contains(x) {
                            let r = ancestors@.index_of(x);
                            assert(ancestors@[r] == x);
                        }
                    }
                }
                assert(linked(o, o[k as int], e, h, ancestors@));
                self.entries.insert(k, e);
            } else {
                proof {
                    lemma_wf_entry(o, k as int);
                }
                assert(linked(o, o[k as int], self.entries@[k as int], h, ancestors@));
            }
            k = k + 1;
        }
        let entry = Entry { transaction: tx, size, sigops, miner_fee: fee, ancestors };
        self.entries.push(entry);
        proof {
            lemma_insert_wf(o, self.entries@, entry);
        }
        Ok(())
    }

    /// Position of an entry with an ancestor listed in `gone`.
    fn find_dependent(&self, gone: &Vec<H256>) -> (r: Option<usize>)
        ensures
            r.is_none() ==> forall|k: int| 0 <= k < self@.len() ==> !#[trigger] depends_on_any(self@[k], gone@),
            r.is_some() ==> r.unwrap() < self@.len() && depends_on_any(self@[r.unwrap() as int], gone@),
    {
        let mut k: usize = 0;
        while k < self.entries.len()
            invariant
                k <= self.entries@.len(),
                forall|j: int| 0 <= j < k ==> !#[trigger] depends_on_any(self@[j], gone@),
            decreases self.entries@.len() - k,
        {
            let anc = &self.entries[k].ancestors;
            let mut a: usize = 0;
            while a < anc.len()
                invariant
                    a <= anc@.len(),
                    k < self@.len(),
                    *anc == self@[k as int].ancestors,
                    forall|b: int| 0 <= b < a ==> !gone@.contains(#[trigger] anc@[b]),
                decreases anc@.len() - a,
            {
                if vec_contains(gone, &anc[a]) {
                    assert(depends_on_any(self@[k as int], gone@));
                    return Some(k);
                }
                a = a + 1;
            }
            k = k + 1;
        }
        None
    }

    /// Removes the entry `h` and every entry that depends on a removed one,
    /// and returns the entry `h`.
    pub fn remove_by_hash(&mut self, h: &H256) -> (r: Option<Entry>)
        requires
            old(self).wf(),
        ensures
            final(self).wf(),
            r.is_none() == !has_hash(old(self)@, *h),
            r.is_none() ==> final(self)@ == old(self)@,
            r.is_some() ==> r.unwrap().hash() == *h && old(self)@.contains(r.unwrap()),
            removal_of(old(self)@, final(self)@, *h),
            r.is_some() ==> removed_alone(old(self)@, final(self)@, *h),
    {
        let ghost o = self.entries@;
        let i0 = match self.find(h) {
            Some(i) => i,
            None => {
                proof {
                    let idx = Seq::new(o.len(), |k: int| k);
                    assert(kept_by(o, o, idx));
                    assert forall|m: int| 0 <= m < o.len() implies o.contains(#[trigger] o[m]) by {
                        assert(o[m] == o[m]);
                    }
                }
                return None;
            },
        };
        let victim = self.entries.remove(i0);
        let mut gone: Vec<H256> = vec![*h];
        let ghost first = forall|k: int| 0 <= k < o.len() ==> !#[trigger] o[k].ancestors@.contains(*h);
        let ghost mut idx: Seq<int> = Seq::new(o.len(), |k: int| k).remove(i0 as int);
        proof {
            assert(kept_by(o, self.entries@, idx));
            assert forall|m: int| 0 <= m < o.len() implies (exists|k: int| 0 <= k < idx.len() && #[trigger] idx[k] == m)
                || gone@.contains(o[m].hash()) by {
                if m < i0 {
                    assert(idx[m] == m);
                } else if m > i0 {
                    assert(idx[m - 1] == m);
                } else {
                    assert(gone@[0] == o[m].hash());
                }
            }
        }
        loop
            invariant
                entries_wf(o),
                0 <= i0 < o.len(),
                o[i0 as int].hash() == *h,
                kept_by(o, self.entries@, idx),
                forall|m: int| 0 <= m < o.len() ==> (exists|k: int| 0 <= k < idx.len() && #[trigger] idx[k] == m)
                    || gone@.contains(#[trigger] o[m].hash()),
                forall|k: int| 0 <= k < self.entries@.len() ==> !gone@.contains(#[trigger] self.entries@[k].hash()),
                forall|m: int| 0 <= m < o.len() && gone@.contains(#[trigger] o[m].hash()) && o[m].hash() != *h
                    ==> depends_on_any(o[m], gone@),
                forall|g: H256| gone@.contains(g) ==> has_hash(o, g),
                gone@.contains(*h),
                first ==> self.entries@ == o.remove(i0 as int) && gone@ == seq![*h],
                first == forall|k: int| 0 <= k < o.len() ==> !#[trigger] o[k].ancestors@.contains(*h),
            ensures
                forall|k: int| 0 <= k < self.entries@.len() ==> !#[trigger] depends_on_any(self.entries@[k], gone@),
            decreases self.entries@.len(),
        {
            match self.find_dependent(&gone) {
                None => {
                    assert forall|k: int| 0 <= k < self.entries@.len() implies !#[trigger] depends_on_any(self.entries@[k], gone@) by {
                        assert(!depends_on_any(self@[k], gone@));
                    }
                    break;
                },
                Some(j) => {
                    proof {
                        assert(depends_on_any(self.entries@[j as int], gone@));
                        if first {
                            let a = choose|a: int| 0 <= a < self.entries@[j as int].ancestors@.len()
                                && gone@.contains(#[trigger] self.entries@[j as int].ancestors@[a]);
                            assert(self.entries@[j as int] == o[idx[j as int]]);
                            let p = gone@.index_of(self.entries@[j as int].ancestors@[a]);
                            assert(gone@[p] == self.entries@[j as int].ancestors@[a]);
                            assert(p == 0);
                            assert(o[idx[j as int]].ancestors@.contains(*h));
                            assert(false);
                        }
                    }
                    let ghost g0 = gone@;
                    let ghost e0 = self.entries@;
                    let ghost idx0 = idx;
                    let x = self.entries.remove(j);
                    gone.push(x.transaction.hash);
                    proof {
                        idx = idx.remove(j as int);
                        assert(kept_by(o, self.entries@, idx)) by {
                            assert forall|a: int, b: int| 0 <= a < b < self.entries@.len() implies #[trigger] idx[a] < #[trigger] idx[b] by {
                                if a < j && b >= j {
                                    assert(idx0[a] < idx0[b + 1]);
                                } else if a >= j {
                                    assert(idx0[a + 1] < idx0[b + 1]);
                                } else {
                                    assert(idx0[a] < idx0[b]);
                                }
                            }
                        }
                        assert forall|g: H256| #[trigger] gone@.contains(g) <==> g0.contains(g) || g == x.hash() by {
                            if gone@.contains(g) {
                                let p = gone@.index_of(g);
                                if p < g0.len() {
                                    assert(g0[p] == g);
                                }
                            }
                            if g0.contains(g) {
                                assert(gone@[g0.index_of(g)] == g);
                            }
                            if g == x.hash() {
                                assert(gone@[g0.len() as int] == g);
                            }
                        }
                        let mx = idx0[j as int];
                        assert(o[mx] == x);
                        assert(has_hash(o, x.hash())) by {
                            assert(o[mx].hash() == x.hash());
                        }
                        assert forall|m: int| 0 <= m < o.len() implies (exists|k: int| 0 <= k < idx.len() && #[trigger] idx[k] == m)
                            || gone@.contains(#[trigger] o[m].hash()) by {
                            if !gone@.contains(o[m].hash()) {
                                assert(!g0.contains(o[m].hash()));
                                let k = choose|k: int| 0 <= k < idx0.len() && #[trigger] idx0[k] == m;
                                if k < j {
                                    assert(idx[k] == m);
                                } else if k > j {
                                    assert(idx[k - 1] == m);
                                } else {
                                    assert(o[m].hash() == x.hash());
                                }
                            }
                        }
                        assert forall|k: int| 0 <= k < self.entries@.len() implies !gone@.contains(#[trigger] self.entries@[k].hash()) by {
                            let kk = if k < j { k } else { k + 1 };
                            assert(self.entries@[k] == e0[kk]);
                            assert(!g0.contains(e0[kk].hash()));
                            assert(idx0[kk] != idx0[j as int]);
                            assert(o[idx0[kk]].hash() != o[idx0[j as int]].hash());
                        }
                        assert forall|m: int| 0 <= m < o.len() && gone@.contains(#[trigger] o[m].hash()) && o[m].hash() != *h
                            implies depends_on_any(o[m], gone@) by {
                            if g0.contains(o[m].hash()) {
                                assert(depends_on_any(o[m], g0));
                                let a = choose|a: int| 0 <= a < o[m].ancestors@.len() && g0.contains(#[trigger] o[m].ancestors@[a]);
                                assert(gone@.contains(o[m].ancestors@[a]));
                            } else {
                                assert(o[m].hash() == x.hash());
                                assert(o[m] == x) by {
                                    if m != mx {
                                        assert(o[m].hash() != o[mx].hash());
                                    }
                                }
                                assert(depends_on_any(x, g0));
                                let a = choose|a: int| 0 <= a < x.ancestors@.len() && g0.contains(#[trigger] x.ancestors@[a]);
                                assert(gone@.contains(x.ancestors@[a]));
                            }
                        }
                    }
                },
            }
        }
        proof {
            lemma_remove_final(o, self.entries@, idx, gone@, *h, i0 as int);
        }
        Some(victim)
    }

    /// Removes the entry that spends `op`, with everything that depends on it.
    pub fn remove_by_prevout(&mut self, op: &OutPoint) -> (r: Option<Entry>)
        requires
            old(self).wf(),
        ensures
            final(self).wf(),
            r.is_none() == forall|k: int| 0 <= k < old(self)@.len() ==> !#[trigger] claims(old(self)@[k], *op),
            r.is_none() ==> final(self)@ == old(self)@,
            r.is_some() ==> claims(r.unwrap(), *op) && old(self)@.contains(r.unwrap()) && removal_of(
                old(self)@,
                final(self)@,
                r.unwrap().hash(),
            ) && removed_alone(old(self)@, final(self)@, r.unwrap().hash()),
    {
        match self.claimant(op) {
            Some(k) => {
                let h = self.entries[k].transaction.hash;
                assert(has_hash(self@, h)) by {
                    assert(self@[k as int].hash() == h);
                }
                let r = self.remove_by_hash(&h);
                proof {
                    let e = r.unwrap();
                    let m = old(self)@.index_of(e);
                    assert(old(self)@[m] == e);
                    if m != k {
                        assert(old(self)@[m].hash() != old(self)@[k as int].hash());
                    }
                }
                r
            },
            None => None,
        }
    }

    /// Package fee and package size of entry `k`.
    fn package(&self, k: usize) -> (r: (u128, u128))
        requires
            self.wf(),
            k < self@.len(),
        ensures
            r.0 == package_fee(self@, k as int),
            r.1 == package_size(self@, k as int),
    {
        let anc = &self.entries[k].ancestors;
        let mut fee: u128 = 0;
        let mut size: u128 = 0;
        let mut a: usize = 0;
        while a < anc.len()
            invariant
                a <= anc@.len(),
                k < self@.len(),
                *anc == self@[k as int].ancestors,
                entries_wf(self@),
                fee == sum_fee_of(self@, anc@.take(a as int)),
                size == sum_size_of(self@, anc@.take(a as int)),
            decreases anc@.len() - a,
        {
            proof {
                lemma_sum_of_step(self@, anc@, a as int);
            }
            match self.find(&anc[a]) {
                Some(j) => {
                    proof {
                        let c = choose|c: int| 0 <= c < self@.len() && #[trigger] self@[c].hash() == anc@[a as int];
                        assert(self@[c].hash() == self@[j as int].hash());
                    }
                    fee = fee + self.entries[j].miner_fee as u128;
                    size = size + self.entries[j].size as u128;
                },
                None => {},
            }
            a = a + 1;
        }
        assert(anc@.take(a as int) =~= anc@);
        proof {
            lemma_sum_of_bounds(self@, anc@);
        }
        (fee + self.entries[k].miner_fee as u128, size + self.entries[k].size as u128)
    }

    /// Package fee and package size of the entry `h`: its own fee and size
    /// plus those of all its ancestors.
    pub fn package_fee_and_size(&self, h: &H256) -> (r: Option<(u128, u128)>)
        requires
            self.wf(),
        ensures
            r.is_none() == !has_hash(self@, *h),
            r.is_some() ==> exists|k: int|
                0 <= k < self@.len() && #[trigger] self@[k].hash() == *h && r.unwrap().0 == package_fee(self@, k)
                    && r.unwrap().1 == package_size(self@, k),
    {
        match self.find(h) {
            Some(k) => {
                let p = self.package(k);
                assert(self@[k as int].hash() == *h);
                Some(p)
            },
            None => None,
        }
    }

    /// The fee rate of every entry, in pool order.
    fn fee_rates(&self) -> (r: Vec<u128>)
        requires
            self.wf(),
        ensures
            r@.len() == self@.len(),
            forall|k: int| 0 <= k < r@.len() ==> r@[k] == #[trigger] fee_rate(self@, k),
    {
        let mut r: Vec<u128> = Vec::new();
        let mut k: usize = 0;
        while k < self.entries.len()
            invariant
                k <= self@.len(),
                entries_wf(self@),
                r@.len() == k,
                forall|j: int| 0 <= j < k ==> r@[j] == #[trigger] fee_rate(self@, j),
            decreases self@.len() - k,
        {
            let (fee, size) = self.package(k);
            let rate = if size == 0 {
                fee
            } else {
                fee / size
            };
            r.push(rate);
            k = k + 1;
        }
        r
    }

    /// Whether every ancestor of entry `k` is marked in `used`.
    fn all_ancestors_used(&self, used: &Vec<bool>, k: usize) -> (r: bool)
        requires
            self.wf(),
            k < self@.len(),
            used@.len() == self@.len(),
        ensures
            r == ancestors_used(self@, used@, k as int),
    {
        let anc = &self.entries[k].ancestors;
        let mut a: usize = 0;
        while a < anc.len()
            invariant
                a <= anc@.len(),
                k < self@.len(),
                used@.len() == self@.len(),
                *anc == self@[k as int].ancestors,
                entries_wf(self@),
                forall|b: int| 0 <= b < a ==> #[trigger] hash_used(self@, used@, self@[k as int].ancestors@[b]),
            decreases anc@.len() - a,
        {
            match self.find(&anc[a]) {
                Some(j) => {
                    if !used[j] {
                        proof {
                            assert(!ancestors_used(self@, used@, k as int)) by {
                                let ai = a as int;
                                assert(self@[k as int].ancestors@[ai] == anc@[ai]);
                                if hash_used(self@, used@, anc@[ai]) {
                                    let j2 = choose|j2: int| 0 <= j2 < self@.len() && #[trigger] self@[j2].hash() == anc@[ai] && used@[j2];
                                    assert(self@[j2].hash() == self@[j as int].hash());
                                }
                                assert(!hash_used(self@, used@, self@[k as int].ancestors@[ai]));
                            }
                        }
                        return false;
                    }
                    proof {
                        assert(self@[j as int].hash() == self@[k as int].ancestors@[a as int]);
                        assert(hash_used(self@, used@, self@[k as int].ancestors@[a as int]));
                    }
                },
                None => {
                    proof {
                        assert(!ancestors_used(self@, used@, k as int)) by {
                            let ai = a as int;
                            assert(self@[k as int].ancestors@[ai] == anc@[ai]);
                            assert(!hash_used(self@, used@, self@[k as int].ancestors@[ai]));
                        }
                    }
                    return false;
                },
            }
            a = a + 1;
        }
        proof {
            assert(anc@.len() == self@[k as int].ancestors@.len());
            assert(ancestors_used(self@, used@, k as int));
        }
        true
    }

    /// The best entry not yet used (and, with `topological`, whose ancestors are all used).
    fn pick_best(&self, rates: &Vec<u128>, used: &Vec<bool>, topological: bool) -> (best: Option<usize>)
        requires
            entries_wf(self@),
            rates@.len() == self@.len(),
            forall|j: int| 0 <= j < self@.len() ==> rates@[j] == #[trigger] fee_rate(self@, j),
            used@.len() == self@.len(),
        ensures
            best.is_some() ==> best.unwrap() < self@.len() && !used@[best.unwrap() as int]
                && (!topological || ancestors_used(self@, used@, best.unwrap() as int)),
            forall|j: int|
                0 <= j < self@.len() && #[trigger] available(self@, used@, topological, j) ==> best.is_some()
                    && !better(self@, j, best.unwrap() as int),
    {
        let n = self.entries.len();
            let mut best: Option<usize> = None;
            let mut k: usize = 0;
            while k < n
                invariant
                    k <= n,
                    n == self@.len(),
                    entries_wf(self@),
                    rates@.len() == n,
                    forall|j: int| 0 <= j < n ==> rates@[j] == #[trigger] fee_rate(self@, j),
                    used@.len() == n,
                    best.is_some() ==> best.unwrap() < k && !used@[best.unwrap() as int]
                        && (!topological || ancestors_used(self@, used@, best.unwrap() as int)),
                    forall|j: int|
                        0 <= j < k && #[trigger] available(self@, used@, topological, j) ==> best.is_some()
                            && !better(self@, j, best.unwrap() as int),
                decreases n - k,
            {
                if !used[k] && (!topological || self.all_ancestors_used(used, k)) {
                    let take = match best {
                        None => true,
                        Some(b) => rates[k] > rates[b] || (rates[k] == rates[b] && hash_less(
                            &self.entries[k].transaction.hash,
                            &self.entries[b].transaction.hash,
                        )),
                    };
                    proof {
                        assert(rates@[k as int] == fee_rate(self@, k as int));
                        if best.is_some() {
                            let b = best.unwrap() as int;
                            assert(rates@[b] == fee_rate(self@, b));
                            assert(take == better(self@, k as int, b));
                        }
                    }
                    if take {
                        proof {
                            assert forall|j: int|
                                0 <= j < k && #[trigger] available(self@, used@, topological, j)
                                    implies !better(self@, j, k as int) by {
                                assert(best.is_some() && !better(self@, j, best.unwrap() as int));
                                let b = best.unwrap() as int;
                                assert(better(self@, k as int, b));
                                if better(self@, j, k as int) {
                                    lemma_better_transitive(self@, j, k as int, b);
                                }
                            }
                        }
                        best = Some(k);
                    } else {
                        proof {
                            let b = best.unwrap() as int;
                            lemma_hash_lt_total(self@[k as int].hash(), self@[b].hash());
                            if k as int != b {
                                assert(self@[k as int].hash() != self@[b].hash());
                            }
                        }
                    }
                }
                k = k + 1;
            }
        best
    }

    /// Up to `limit` positions, best first; with `topological`, only entries
    /// whose ancestors are all listed already.
    fn select(&self, limit: usize, topological: bool) -> (r: Vec<usize>)
        requires
            self.wf(),
        ensures
            r@.len() <= limit,
            lists_positions(self@, positions(r@), hashes_at(self@, r@)),
            !topological ==> r@.len() == min(limit as int, self@.len() as int),
            !topological ==> by_rate(self@, positions(r@)),
            topological ==> parents_first(self@, positions(r@)),
            topological ==> greedy(self@, positions(r@)),
            topological && r@.len() < limit ==> forall|k: int|
                0 <= k < self@.len() && !r@.contains(k as usize) ==> #[trigger] blocked(
                    self@,
                    hashes_at(self@, r@),
                    k,
                ),
    {
        let n = self.entries.len();
        let rates = self.fee_rates();
        let mut used: Vec<bool> = Vec::new();
        while used.len() < n
            invariant
                used@.len() <= n,
                forall|k: int| 0 <= k < used@.len() ==> !used@[k],
            decreases n - used@.len(),
        {
            used.push(false);
        }
        let mut out: Vec<usize> = Vec::new();
        let mut done = false;
        while !done && out.len() < limit
            invariant
                done ==> forall|k: int| 0 <= k < n ==> !#[trigger] available(self@, used@, topological, k),
                topological ==> greedy(self@, positions(out@)),
                n == self@.len(),
                entries_wf(self@),
                rates@.len() == n,
                forall|k: int| 0 <= k < n ==> rates@[k] == #[trigger] fee_rate(self@, k),
                used@.len() == n,
                out@.len() <= limit,
                forall|t: int| 0 <= t < out@.len() ==> (#[trigger] out@[t] as int) < n && used@[out@[t] as int],
                forall|k: int| 0 <= k < n && #[trigger] used@[k] ==> out@.contains(k as usize),
                forall|a: int, b: int| 0 <= a < out@.len() && 0 <= b < out@.len() && a != b ==> #[trigger] out@[a] != #[trigger] out@[b],
                !topological ==> forall|t: int, k: int|
                    0 <= t < out@.len() && 0 <= k < n && !used@[k] ==> !#[trigger] better(self@, k, #[trigger] out@[t] as int),
                !topological ==> forall|a: int, b: int| 0 <= a < b < out@.len() ==> !#[trigger] better(self@, out@[b] as int, out@[a] as int),
                topological ==> forall|b: int, a: int|
                    0 <= b < out@.len() && 0 <= a < self@[out@[b] as int].ancestors@.len() ==> #[trigger] listed_before(
                        self@,
                        out@,
                        b,
                        self@[out@[b] as int].ancestors@[a],
                    ),
            decreases limit - out@.len() + (if done { 0int } else { 1int }),
        {
            let best = self.pick_best(&rates, &used, topological);
            match best {
                None => {
                    done = true;
                },
                Some(b) => {
                    let ghost out0 = out@;
                    let ghost used0 = used@;
                    proof {
                        assert(!out@.contains(b)) by {
                            if out@.contains(b) {
                                let t = out@.index_of(b);
                                assert(used@[out@[t] as int]);
                            }
                        }
                    }
                    proof {
                        if topological {
                            let idx0 = positions(out0);
                            assert forall|k: int| 0 <= k < self@.len() && #[trigger] avail_at(self@, idx0.push(b as int), idx0.len() as int, k)
                                implies !better(self@, k, b as int) by {
                                lemma_avail_at_prefix(self@, idx0, b as int, idx0.len() as int, k);
                                assert(avail_at(self@, idx0, idx0.len() as int, k));
                                assert(!used0[k]) by {
                                    if used0[k] {
                                        let q = out0.index_of(k as usize);
                                        assert(idx0[q] == k);
                                    }
                                }
                                assert forall|a: int| 0 <= a < self@[k].ancestors@.len() implies #[trigger] hash_used(self@, used0, self@[k].ancestors@[a]) by {
                                    assert(listed_in(self@, idx0, idx0.len() as int, self@[k].ancestors@[a]));
                                    let q = choose|q: int| 0 <= q < idx0.len() && #[trigger] self@[idx0[q]].hash() == self@[k].ancestors@[a];
                                    assert(used0[out0[q] as int]);
                                    assert(self@[out0[q] as int].hash() == self@[k].ancestors@[a]);
                                }
                                assert(available(self@, used0, topological, k));
                            }
                            lemma_greedy_push(self@, idx0, b as int);
                        }
                    }
                    used.set(b, true);
                    out.push(b);
                    proof {
                        if topological {
                            assert(positions(out@) =~= positions(out0).push(b as int));
                        }
                    }
                    proof {
                        assert(out@[out0.len() as int] == b);
                        assert forall|j: int| 0 <= j < n && #[trigger] used@[j] implies out@.contains(j as usize) by {
                            if j != b {
                                assert(used0[j]);
                                let t = out0.index_of(j as usize);
                                assert(out@[t] == j as usize);
                            }
                        }
                        assert forall|t: int| 0 <= t < out@.len() implies (#[trigger] out@[t] as int) < n && used@[out@[t] as int] by {
                            if t < out0.len() {
                                assert(out@[t] == out0[t]);
                            }
                        }
                        assert forall|x: int, y: int| 0 <= x < out@.len() && 0 <= y < out@.len() && x != y implies #[trigger] out@[x] != #[trigger] out@[y] by {
                            if x < out0.len() && y < out0.len() {
                                assert(out0[x] != out0[y]);
                            } else if x < out0.len() {
                                assert(out0.contains(out0[x]));
                            } else if y < out0.len() {
                                assert(out0.contains(out0[y]));
                            }
                        }
                        if !topological {
                            assert forall|t: int, j: int|
                                0 <= t < out@.len() && 0 <= j < n && !used@[j] implies !#[trigger] better(self@, j, #[trigger] out@[t] as int) by {
                                if t < out0.len() {
                                    assert(out@[t] == out0[t]);
                                    assert(!used0[j]);
                                } else {
                                    assert(j != b as int);
                                    assert(available(self@, used0, topological, j));
                                }
                            }
                            assert forall|x: int, y: int| 0 <= x < y < out@.len() implies !#[trigger] better(self@, out@[y] as int, out@[x] as int) by {
                                if y < out0.len() {
                                    assert(out@[x] == out0[x]);
                                    assert(out@[y] == out0[y]);
                                } else {
                                    assert(out@[x] == out0[x]);
                                    assert(!used0[b as int]);
                                }
                            }
                        } else {
                            assert forall|y: int, a: int|
                                0 <= y < out@.len() && 0 <= a < self@[out@[y] as int].ancestors@.len() implies #[trigger] listed_before(
                                    self@,
                                    out@,
                                    y,
                                    self@[out@[y] as int].ancestors@[a],
                                ) by {
                                if y < out0.len() {
                                    assert(out@[y] == out0[y]);
                                    assert(listed_before(self@, out0, y, self@[out0[y] as int].ancestors@[a]));
                                    let t = choose|t: int| 0 <= t < y && #[trigger] self@[out0[t] as int].hash() == self@[out0[y] as int].ancestors@[a];
                                    assert(out@[t] == out0[t]);
                                } else {
                                    assert(ancestors_used(self@, used0, b as int));
                                    assert(hash_used(self@, used0, self@[b as int].ancestors@[a]));
                                    let j = choose|j: int| 0 <= j < self@.len() && #[trigger] self@[j].hash() == self@[b as int].ancestors@[a] && used0[j];
                                    let t = out0.index_of(j as usize);
                                    assert(out@[t] == out0[t]);
                                }
                            }
                        }
                    }
                },
            }
        }
        proof {
            let idx = positions(out@);
            let hs = hashes_at(self@, out@);
            assert forall|a: int, b: int| 0 <= a < idx.len() && 0 <= b < idx.len() && a != b implies #[trigger] idx[a] != #[trigger] idx[b] by {
                assert(out@[a] != out@[b]);
            }
            if !topological {
                if out@.len() < limit {
                    assert forall|k: int| 0 <= k < n implies idx.contains(k) by {
                        assert(!available(self@, used@, topological, k));
                        assert(used@[k]);
                        let t = out@.index_of(k as usize);
                        assert(idx[t] == k);
                    }
                    lemma_covering_length(idx, n as int);
                }
                lemma_distinct_bounded_length(idx, n as int);
                assert(by_rate(self@, idx));
            } else {
                assert forall|b: int, k: int|
                    0 <= b < idx.len() && 0 <= k < self@.len() && k != idx[b] && #[trigger] spends_from(self@[idx[b]], self@[k].hash())
                        implies exists|a: int| 0 <= a < b && #[trigger] idx[a] == k by {
                    assert(self@[idx[b]].ancestors@.contains(self@[k].hash()));
                    let p = self@[idx[b]].ancestors@.index_of(self@[k].hash());
                    assert(listed_before(self@, out@, b, self@[out@[b] as int].ancestors@[p]));
                    let t = choose|t: int| 0 <= t < b && #[trigger] self@[out@[t] as int].hash() == self@[out@[b] as int].ancestors@[p];
                    if out@[t] as int != k {
                        assert(self@[out@[t] as int].hash() != self@[k].hash());
                    }
                    assert(idx[t] == k);
                }
                if out@.len() < limit {
                    assert forall|k: int| 0 <= k < self@.len() && !out@.contains(k as usize) implies #[trigger] blocked(self@, hs, k) by {
                        assert(!used@[k]);
                        assert(!available(self@, used@, topological, k));
                        assert(!ancestors_used(self@, used@, k));
                        let a = choose|a: int| 0 <= a < self@[k].ancestors@.len() && !#[trigger] hash_used(self@, used@, self@[k].ancestors@[a]);
                        if hs.contains(self@[k].ancestors@[a]) {
                            let t = hs.index_of(self@[k].ancestors@[a]);
                            assert(used@[out@[t] as int]);
                            assert(self@[out@[t] as int].hash() == self@[k].ancestors@[a]);
                        }
                    }
                }
            }
        }
        out
    }

    /// Hashes of up to `n` entries in the order the strategy gives.  With
    /// `ByTransactionScore` it stops early where every entry left waits for an
    /// ancestor that is not listed.
    pub fn read_n_with_strategy(&self, n: usize, strategy: OrderingStrategy) -> (r: Vec<H256>)
        requires
            self.wf(),
        ensures
            strategy == OrderingStrategy::ByTimestamp ==> r@.len() == min(n as int, self@.len() as int)
                && forall|t: int| 0 <= t < r@.len() ==> r@[t] == #[trigger] self@[t].hash(),
            strategy != OrderingStrategy::ByTimestamp ==> exists|idx: Seq<int>| #[trigger]
                lists_positions(self@, idx, r@) && r@.len() <= n && (strategy == OrderingStrategy::ByFeeRate ==> r@.len() == min(
                    n as int,
                    self@.len() as int,
                ) && by_rate(self@, idx)) && (strategy == OrderingStrategy::ByTransactionScore ==> parents_first(self@, idx) && greedy(self@, idx) && (
                r@.len() < n ==> forall|k: int| 0 <= k < self@.len() && !idx.contains(k) ==> #[trigger] blocked(self@, r@, k))),
    {
        let mut r: Vec<H256> = Vec::new();
        match strategy {
            OrderingStrategy::ByTimestamp => {
                let mut t: usize = 0;
                while t < n && t < self.entries.len()
                    invariant
                        t <= self@.len(),
                        t <= n,
                        r@.len() == t,
                        forall|j: int| 0 <= j < t ==> r@[j] == #[trigger] self@[j].hash(),
                    decreases self@.len() - t,
                {
                    r.push(self.entries[t].transaction.hash);
                    t = t + 1;
                }
                r
            },
            _ => {
                let topological = strategy == OrderingStrategy::ByTransactionScore;
                let out = self.select(n, topological);
                let len = self.entries.len();
                proof {
                    assert forall|q: int| 0 <= q < out@.len() implies (#[trigger] out@[q] as int) < self@.len() by {
                        assert(positions(out@)[q] == out@[q] as int);
                    }
                }
                let mut t: usize = 0;
                while t < out.len()
                    invariant
                        t <= out@.len(),
                        r@.len() == t,
                        forall|q: int| 0 <= q < out@.len() ==> (#[trigger] out@[q] as int) < self@.len(),
                        forall|j: int| 0 <= j < t ==> r@[j] == #[trigger] self@[out@[j] as int].hash(),
                    decreases out@.len() - t,
                {
                    r.push(self.entries[out[t]].transaction.hash);
                    t = t + 1;
                }
                proof {
                    let idx = positions(out@);
                    assert(r@ =~= hashes_at(self@, out@));
                    assert(lists_positions(self@, idx, r@));
                    if topological && r@.len() < n {
                        assert forall|k: int| 0 <= k < self@.len() && !idx.contains(k) implies #[trigger] blocked(self@, r@, k) by {
                            assert(k < len);
                            if out@.contains(k as usize) {
                                let q = out@.index_of(k as usize);
                                assert(idx[q] == k);
                            }
                        }
                    }
                }
                r
            },
        }
    }

    /// Hashes of the entries that depend on the entry `h`.
    pub fn descendant_set(&self, h: &H256) -> (r: Vec<H256>)
        requires
            self.wf(),
        ensures
            r@.no_duplicates(),
            r@.to_set() == descendants(self@, *h),
    {
        let mut r: Vec<H256> = Vec::new();
        let mut k: usize = 0;
        while k < self.entries.len()
            invariant
                k <= self@.len(),
                entries_wf(self@),
                r@.no_duplicates(),
                forall|x: H256| r@.contains(x) <==> exists|j: int|
                    0 <= j < k && #[trigger] self@[j].hash() == x && self@[j].ancestors@.contains(*h),
            decreases self@.len() - k,
        {
            let ghost before = r@;
            if vec_contains(&self.entries[k].ancestors, h) {
                push_unique(&mut r, self.entries[k].transaction.hash);
            }
            proof {
                assert forall|x: H256| r@.contains(x) <==> exists|j: int|
                    0 <= j < k + 1 && #[trigger] self@[j].hash() == x && self@[j].ancestors@.contains(*h) by {
                    if r@.contains(x) && !before.contains(x) {
                        assert(self@[k as int].hash() == x);
                    }
                    if exists|j: int| 0 <= j < k + 1 && #[trigger] self@[j].hash() == x && self@[j].ancestors@.contains(*h) {
                        let j = choose|j: int| 0 <= j < k + 1 && #[trigger] self@[j].hash() == x && self@[j].ancestors@.contains(*h);
                        if j < k {
                            assert(before.contains(x));
                        }
                    }
                }
            }
            k = k + 1;
        }
        proof {
            assert(r@.to_set() =~= descendants(self@, *h));
        }
        r
    }

    /// Takes the entry `h` out of the pool, as when a block includes it;
    /// entries that spend from it stay, and no longer count it as an ancestor.
    pub fn remove_included(&mut self, h: &H256) -> (r: Option<Entry>)
        requires
            old(self).wf(),
        ensures
            final(self).wf(),
            r.is_none() == !has_hash(old(self)@, *h),
            r.is_none() ==> final(self)@ == old(self)@,
            r.is_some() ==> r.unwrap().hash() == *h && exists|i0: int|
                #[trigger] included_out(old(self)@, final(self)@, i0) && old(self)@[i0] == r.unwrap(),
            forall|x: H256| has_hash(final(self)@, x) <==> has_hash(old(self)@, x) && x != *h,
    {
        let i0 = match self.find(h) {
            Some(i) => i,
            None => {
                return None;
            },
        };
        let ghost o = self.entries@;
        let victim = self.entries.remove(i0);
        let mut k: usize = 0;
        while k < self.entries.len()
            invariant
                0 <= i0 < o.len(),
                o[i0 as int].hash() == *h,
                entries_wf(o),
                self.entries@.len() + 1 == o.len(),
                k <= self.entries@.len(),
                forall|j: int| 0 <= j < k && j < i0 ==> #[trigger] stripped(o[j], self.entries@[j], *h),
                forall|j: int| 0 <= j < k && i0 <= j ==> #[trigger] stripped(o[j + 1], self.entries@[j], *h),
                forall|j: int| k <= j < self.entries@.len() && j < i0 ==> #[trigger] self.entries@[j] == o[j],
                forall|j: int| k <= j < self.entries@.len() && i0 <= j ==> #[trigger] self.entries@[j] == o[j + 1],
            decreases self.entries@.len() - k,
        {
            let ghost src = if (k as int) < i0 { k as int } else { k as int + 1 };
            assert(self.entries@[k as int] == o[src]);
            let mut e = self.entries.remove(k);
            let ghost a0 = e.ancestors@;
            assert(entries_wf(o) && 0 <= src < o.len());
            proof {
                lemma_wf_entry(o, src);
            }
            let mut p: usize = 0;
            while p < e.ancestors.len()
                invariant
                    p <= e.ancestors@.len(),
                    e.ancestors@ == a0,
                    forall|q: int| 0 <= q < p ==> a0[q] != *h,
                ensures
                    p <= e.ancestors@.len(),
                    e.ancestors@ == a0,
                    forall|q: int| 0 <= q < p ==> a0[q] != *h,
                    p < e.ancestors@.len() ==> a0[p as int] == *h,
                decreases e.ancestors@.len() - p,
            {
                if e.ancestors[p] == *h {
                    break;
                }
                p = p + 1;
            }
            if p < e.ancestors.len() {
                e.ancestors.remove(p);
                proof {
                    assert(a0[p as int] == *h);
                    assert forall|x: H256| #[trigger] e.ancestors@.contains(x) <==> a0.contains(x) && x != *h by {
                        if e.ancestors@.contains(x) {
                            let q = e.ancestors@.index_of(x);
                            if q < p {
                                assert(a0[q] == x);
                            } else {
                                assert(a0[q + 1] == x);
                                assert(q + 1 != p);
                            }
                        }
                        if a0.contains(x) && x != *h {
                            let q = a0.index_of(x);
                            if q < p {
                                assert(e.ancestors@[q] == x);
                            } else {
                                assert(q != p);
                                assert(e.ancestors@[q - 1] == x);
                            }
                        }
                    }
                    assert forall|x: int, y: int| 0 <= x < e.ancestors@.len() && 0 <= y < e.ancestors@.len() && x != y implies e.ancestors@[x] != e.ancestors@[y] by {
                        let xx = if x < p { x } else { x + 1 };
                        let yy = if y < p { y } else { y + 1 };
                        assert(a0[xx] != a0[yy]);
                    }
                }
            } else {
                proof {
                    assert forall|x: H256| #[trigger] e.ancestors@.contains(x) <==> a0.contains(x) && x != *h by {
                        if a0.contains(x) {
                            let q = a0.index_of(x);
                            assert(a0[q] != *h);
                        }
                    }
                }
            }
            assert(stripped(o[src], e, *h));
            self.entries.insert(k, e);
            k = k + 1;
        }
        proof {
            assert(victim == o[i0 as int]);
            assert(included_out(o, self.entries@, i0 as int));
            lemma_included_out_wf(o, self.entries@, i0 as int);
        }
        Some(victim)
    }

    /// Takes up to `n` entries out of the pool in the order the strategy gives
    /// (see `read_n_with_strategy`) and returns their transactions.
    pub fn drain_as_vec(&mut self, n: usize, strategy: OrderingStrategy) -> (r: Vec<IndexedTransaction>)
        requires
            old(self).wf(),
        ensures
            final(self).wf(),
            r@.len() <= n,
            final(self)@.len() == old(self)@.len() - r@.len(),
            forall|t: int| 0 <= t < r@.len() ==> !has_hash(final(self)@, #[trigger] r@[t].hash),
            forall|x: H256| has_hash(final(self)@, x) ==> has_hash(old(self)@, x),
            exists|states: Seq<Seq<Entry>>| #[trigger] drained_steps(old(self)@, final(self)@, r@, states),
            forall|t: int| 0 <= t < r@.len() ==> from_pool(old(self)@, #[trigger] r@[t]),
            strategy == OrderingStrategy::ByTimestamp ==> r@.len() == min(n as int, old(self)@.len() as int)
                && forall|t: int| 0 <= t < r@.len() ==> #[trigger] r@[t].hash == old(self)@[t].hash(),
            strategy != OrderingStrategy::ByTimestamp ==> exists|idx: Seq<int>, hs: Seq<H256>|
                #[trigger] lists_positions(old(self)@, idx, hs) && hs.len() == r@.len() && (forall|t: int|
                    0 <= t < r@.len() ==> #[trigger] r@[t].hash == hs[t]) && (strategy == OrderingStrategy::ByFeeRate
                    ==> r@.len() == min(n as int, old(self)@.len() as int) && by_rate(old(self)@, idx)) && (strategy
                    == OrderingStrategy::ByTransactionScore ==> parents_first(old(self)@, idx) && greedy(old(self)@, idx)
                    && (r@.len() < n ==> forall|k: int|
                    0 <= k < old(self)@.len() && !idx.contains(k) ==> #[trigger] blocked(old(self)@, hs, k))),
    {
        let order = self.read_n_with_strategy(n, strategy);
        let ghost o = self@;
        proof {
            if strategy == OrderingStrategy::ByTimestamp {
                assert forall|a: int, b: int| 0 <= a < order@.len() && 0 <= b < order@.len() && a != b implies order@[a] != order@[b] by {
                    assert(o[a].hash() != o[b].hash());
                }
                assert forall|t: int| 0 <= t < order@.len() implies has_hash(o, order@[t]) by {
                    assert(o[t].hash() == order@[t]);
                }
            } else {
                let idx = choose|idx: Seq<int>| #[trigger] lists_positions(o, idx, order@) && order@.len() <= n;
                assert forall|a: int, b: int| 0 <= a < order@.len() && 0 <= b < order@.len() && a != b implies order@[a] != order@[b] by {
                    assert(idx[a] != idx[b]);
                    assert(o[idx[a]].hash() != o[idx[b]].hash());
                }
                assert forall|t: int| 0 <= t < order@.len() implies has_hash(o, order@[t]) by {
                    assert(o[idx[t]].hash() == order@[t]);
                }
            }
        }
        let mut r: Vec<IndexedTransaction> = Vec::new();
        let mut t: usize = 0;
        let ghost mut states: Seq<Seq<Entry>> = seq![o];
        proof {
            assert forall|m: int| 0 <= m < o.len() implies from_pool(o, #[trigger] o[m].transaction) by {
                assert(o[m].transaction == o[m].transaction);
            }
        }
        while t < order.len()
            invariant
                self.wf(),
                drained_steps(o, self@, r@, states),
                forall|m: int| 0 <= m < self@.len() ==> from_pool(o, #[trigger] self@[m].transaction),
                forall|q: int| 0 <= q < r@.len() ==> from_pool(o, #[trigger] r@[q]),
                t <= order@.len(),
                r@.len() == t,
                self@.len() + t == o.len(),
                forall|a: int, b: int| 0 <= a < order@.len() && 0 <= b < order@.len() && a != b ==> order@[a] != order@[b],
                forall|q: int| 0 <= q < order@.len() ==> has_hash(o, #[trigger] order@[q]),
                forall|x: H256| has_hash(self@, x) <==> has_hash(o, x) && !order@.take(t as int).contains(x),
                forall|q: int| 0 <= q < t ==> #[trigger] r@[q].hash == order@[q],
            decreases order@.len() - t,
        {
            assert(has_hash(self@, order@[t as int])) by {
                assert(has_hash(o, order@[t as int]));
                if order@.take(t as int).contains(order@[t as int]) {
                    let q = order@.take(t as int).index_of(order@[t as int]);
                    assert(order@[q] == order@[t as int]);
                }
            }
            let ghost before = self@;
            let ghost r0 = r@;
            let ghost states0 = states;
            let e = self.remove_included(&order[t]);
            proof {
                let i0 = choose|i0: int| #[trigger] included_out(before, self@, i0) && before[i0] == e.unwrap();
                lemma_included_out_from_pool(o, before, self@, i0);
                assert(from_pool(o, before[i0].transaction));
                states = states0.push(self@);
                assert forall|x: H256| has_hash(self@, x) <==> has_hash(o, x) && !order@.take(t as int + 1).contains(x) by {
                    if order@.take(t as int + 1).contains(x) && x != order@[t as int] {
                        let q = order@.take(t as int + 1).index_of(x);
                        assert(order@.take(t as int).contains(x)) by {
                            assert(order@.take(t as int)[q] == x);
                        }
                    }
                    if order@.take(t as int).contains(x) {
                        let q = order@.take(t as int).index_of(x);
                        assert(order@.take(t as int + 1)[q] == x);
                    }
                    if x == order@[t as int] {
                        assert(order@.take(t as int + 1)[t as int] == x);
                    }
                }
            }
            match e {
                Some(entry) => {
                    r.push(entry.transaction);
                },
                None => {},
            }
            proof {
                let i0 = choose|i0: int| #[trigger] included_out(before, self@, i0) && before[i0] == e.unwrap();
                assert(r@ == r0.push(before[i0].transaction));
                assert forall|q: int| 0 <= q < r@.len() implies from_pool(o, #[trigger] r@[q]) by {
                    if q < r0.len() {
                        assert(r@[q] == r0[q]);
                    }
                }
                assert forall|q: int| 0 <= q < r@.len() implies #[trigger] step_at(states, r@, q) by {
                    if q < r0.len() {
                        assert(states[q] == states0[q] && states[q + 1] == states0[q + 1]);
                        assert(r@[q] == r0[q]);
                        assert(step_at(states0, r0, q));
                        let j0 = choose|j0: int| #[trigger] included_out(states0[q], states0[q + 1], j0) && states0[q][j0].transaction == r0[q];
                        assert(included_out(states[q], states[q + 1], j0));
                    } else {
                        assert(states[q] == before);
                        assert(states[q + 1] == self@);
                        assert(included_out(states[q], states[q + 1], i0));
                    }
                }
                assert(drained_steps(o, self@, r@, states));
            }
            t = t + 1;
        }
        proof {
            assert(order@.take(t as int) =~= order@);
            assert forall|q: int| 0 <= q < r@.len() implies !has_hash(self@, #[trigger] r@[q].hash) by {
                assert(order@.contains(order@[q]));
            }
            if strategy != OrderingStrategy::ByTimestamp {
                let idx = choose|idx: Seq<int>| #[trigger] lists_positions(o, idx, order@) && order@.len() <= n && (strategy == OrderingStrategy::ByFeeRate ==> order@.len() == min(
                    n as int,
                    o.len() as int,
                ) && by_rate(o, idx)) && (strategy == OrderingStrategy::ByTransactionScore ==> parents_first(o, idx) && greedy(o, idx) && (
                order@.len() < n ==> forall|k: int| 0 <= k < o.len() && !idx.contains(k) ==> #[trigger] blocked(o, order@, k)));
                assert(lists_positions(o, idx, order@));
                assert(r@.len() == order@.len());
            }
        }
        r
    }
}

} // verus!
