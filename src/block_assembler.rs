//! Assembly of a candidate block from the memory pool.
use vstd::prelude::*;
use crate::chain::{same_transaction, H256, IndexedTransaction, OutPoint, Transaction, TransactionInput, TransactionOutput, SEQUENCE_FINAL};
use crate::memory_pool::{
    Entry, MemoryPool, OrderingStrategy, blocked, entries_wf, greedy, has_hash, lists_positions, parents_first, vec_contains,
};
use crate::script::{build_p2pkh, push_data};

verus! {

/// What has been chosen so far while walking the pool.
pub struct Assembly {
    pub included: Seq<H256>,
    pub size: int,
    pub sigops: int,
    pub fees: int,
}

/// The pool entry with hash `h`.
pub open spec fn entry_of(s: Seq<Entry>, h: H256) -> Entry {
    s[choose|k: int| 0 <= k < s.len() && #[trigger] s[k].hash() == h]
}

/// Entry `e` fits next: its ancestors are all chosen, and the block stays
/// within its size and sigop budgets and the coinbase value within `u64`.
pub open spec fn admissible(
    st: Assembly,
    e: Entry,
    max_size: int,
    max_sigops: int,
    subsidy: int,
) -> bool {
    &&& forall|a: int| 0 <= a < e.ancestors@.len() ==> st.included.contains(#[trigger] e.ancestors@[a])
    &&& st.size + e.size <= max_size
    &&& st.sigops + e.sigops <= max_sigops
    &&& subsidy + st.fees + e.miner_fee <= 0xFFFF_FFFF_FFFF_FFFFint
}

/// Walks `order` and takes each entry that fits, skipping the others.
pub open spec fn assemble(
    s: Seq<Entry>,
    order: Seq<H256>,
    max_size: int,
    max_sigops: int,
    subsidy: int,
) -> Assembly
    decreases order.len(),
{
    if order.len() == 0 {
        Assembly { included: Seq::empty(), size: 0, sigops: 0, fees: 0 }
    } else {
        let st = assemble(s, order.drop_last(), max_size, max_sigops, subsidy);
        let e = entry_of(s, order.last());
        if admissible(st, e, max_size, max_sigops, subsidy) {
            Assembly {
                included: st.included.push(e.hash()),
                size: st.size + e.size,
                sigops: st.sigops + e.sigops,
                fees: st.fees + e.miner_fee,
            }
        } else {
            st
        }
    }
}

/// Every chosen entry comes after all of its ancestors.
pub open spec fn ancestors_first(s: Seq<Entry>, included: Seq<H256>) -> bool {
    forall|t: int, x: H256|
        0 <= t < included.len() && #[trigger] entry_of(s, included[t]).ancestors@.contains(x) ==> exists|q: int|
            0 <= q < t && #[trigger] included[q] == x
}

/// The walk never takes an entry before its ancestors, so the block's pool
/// transactions are in a valid order: parents before children.
pub proof fn lemma_assemble_ancestors_first(
    s: Seq<Entry>,
    order: Seq<H256>,
    max_size: int,
    max_sigops: int,
    subsidy: int,
)
    requires
        entries_wf(s),
        forall|q: int| 0 <= q < order.len() ==> has_hash(s, #[trigger] order[q]),
    ensures
        ancestors_first(s, assemble(s, order, max_size, max_sigops, subsidy).included),
        forall|t: int| 0 <= t < assemble(s, order, max_size, max_sigops, subsidy).included.len()
            ==> has_hash(s, #[trigger] assemble(s, order, max_size, max_sigops, subsidy).included[t]),
    decreases order.len(),
{
    if order.len() > 0 {
        let rest = order.drop_last();
        assert forall|q: int| 0 <= q < rest.len() implies has_hash(s, #[trigger] rest[q]) by {
            assert(rest[q] == order[q]);
        }
        lemma_assemble_ancestors_first(s, rest, max_size, max_sigops, subsidy);
        let st = assemble(s, rest, max_size, max_sigops, subsidy);
        let h = order.last();
        let e = entry_of(s, h);
        assert(has_hash(s, order[order.len() - 1]));
        let k = choose|k: int| 0 <= k < s.len() && #[trigger] s[k].hash() == h;
        assert(e.hash() == h);
        if admissible(st, e, max_size, max_sigops, subsidy) {
            let inc = st.included.push(e.hash());
            assert(inc == assemble(s, order, max_size, max_sigops, subsidy).included);
            assert forall|t: int| 0 <= t < inc.len() implies has_hash(s, #[trigger] inc[t]) by {
                if t < st.included.len() {
                    assert(inc[t] == st.included[t]);
                }
            }
            assert forall|t: int, x: H256|
                0 <= t < inc.len() && #[trigger] entry_of(s, inc[t]).ancestors@.contains(x) implies exists|q: int|
                    0 <= q < t && #[trigger] inc[q] == x by {
                if t < st.included.len() {
                    assert(inc[t] == st.included[t]);
                    let q = choose|q: int| 0 <= q < t && #[trigger] st.included[q] == x;
                    assert(inc[q] == x);
                } else {
                    assert(inc[t] == h);
                    let a = e.ancestors@.index_of(x);
                    assert(st.included.contains(e.ancestors@[a]));
                    let q = st.included.index_of(x);
                    assert(inc[q] == x);
                }
            }
        }
    }
}

/// A candidate block: the header fields, the coinbase, and the pool
/// transactions that follow it.
pub struct BlockTemplate {
    pub version: u32,
    pub previous_header_hash: H256,
    pub time: u32,
    pub bits: u32,
    pub height: u32,
    pub coinbase: Transaction,
    pub transactions: Vec<IndexedTransaction>,
    pub coinbase_value: u64,
    pub size: usize,
    pub sigop_count: usize,
}

/// The coinbase input: the null outpoint, with a script that pushes the height.
pub open spec fn coinbase_script(height: u32) -> Seq<u8> {
    seq![
        4u8,
        (height % 256) as u8,
        ((height / 256) % 256) as u8,
        ((height / 65536) % 256) as u8,
        (height / 16777216) as u8,
    ]
}

pub struct BlockAssembler {
    pub max_block_size: usize,
    pub max_block_sigops: usize,
}

impl BlockAssembler {
    /// The coinbase transaction paying `value` to the key hash `recipient`; its
    /// lock time is the height of the block, which keeps each coinbase unique.
    pub fn create_coinbase(recipient: &Vec<u8>, height: u32, value: u64) -> (r: Transaction)
        requires
            recipient@.len() == 20,
        ensures
            r.spec_is_coinbase(),
            r.inputs@[0].script_sig@ == coinbase_script(height),
            r.inputs@[0].sequence == SEQUENCE_FINAL,
            r.inputs@[0].script_witness@.len() == 0,
            r.outputs@.len() == 1,
            r.outputs@[0].value == value,
            r.outputs@[0].script_pubkey@ == seq![0x76u8, 0xa9u8, 20u8] + recipient@ + seq![0x88u8, 0xacu8],
            r.version == 0,
            r.lock_time == height,
    {
        let mut height_bytes: Vec<u8> = Vec::new();
        height_bytes.push((height % 256) as u8);
        height_bytes.push(((height / 256) % 256) as u8);
        height_bytes.push(((height / 65536) % 256) as u8);
        height_bytes.push((height / 16777216) as u8);
        let mut script_sig: Vec<u8> = Vec::new();
        push_data(&mut script_sig, &height_bytes);
        assert(script_sig@ =~= coinbase_script(height));
        let input = TransactionInput {
            previous_output: OutPoint::null(),
            script_sig,
            sequence: SEQUENCE_FINAL,
            script_witness: Vec::new(),
        };
        let output = TransactionOutput { value, script_pubkey: build_p2pkh(recipient) };
        let mut inputs: Vec<TransactionInput> = Vec::new();
        inputs.push(input);
        let mut outputs: Vec<TransactionOutput> = Vec::new();
        outputs.push(output);
        Transaction { version: 0, inputs, outputs, lock_time: height }
    }

    /// Walks the pool by transaction score and takes every entry whose
    /// ancestors are taken already and that keeps the block within its size
    /// and sigop budgets; the coinbase pays `subsidy` plus the fees taken.
    pub fn create_new_block(
        &self,
        pool: &MemoryPool,
        previous_header_hash: H256,
        time: u32,
        bits: u32,
        height: u32,
        recipient: &Vec<u8>,
        subsidy: u64,
    ) -> (r: BlockTemplate)
        requires
            pool.wf(),
            recipient@.len() == 20,
        ensures
            exists|idx: Seq<int>, order: Seq<H256>|
                #[trigger] lists_positions(pool@, idx, order) && parents_first(pool@, idx) && greedy(pool@, idx) && (order.len() < pool@.len()
                    ==> forall|k: int| 0 <= k < pool@.len() && !idx.contains(k) ==> #[trigger] blocked(pool@, order, k)) && ({
                    let st = assemble(pool@, order, self.max_block_size as int, self.max_block_sigops as int, subsidy as int);
                    &&& r.transactions@.len() == st.included.len()
                    &&& forall|t: int| 0 <= t < st.included.len() ==> #[trigger] r.transactions@[t].hash == st.included[t]
                    &&& r.size == st.size
                    &&& r.sigop_count == st.sigops
                    &&& r.coinbase_value == subsidy + st.fees
                }),
            r.version == 1,
            forall|t: int| 0 <= t < r.transactions@.len() ==> same_transaction(
                #[trigger] r.transactions@[t].raw,
                entry_of(pool@, r.transactions@[t].hash).transaction.raw,
            ),
            forall|t: int, x: H256|
                0 <= t < r.transactions@.len() && #[trigger] entry_of(pool@, r.transactions@[t].hash).ancestors@.contains(x)
                    ==> exists|q: int| 0 <= q < t && #[trigger] r.transactions@[q].hash == x,
            r.coinbase.spec_is_coinbase(),
            r.coinbase.version == 0,
            r.coinbase.lock_time == height,
            r.coinbase.outputs@.len() == 1,
            r.coinbase.outputs@[0].value == r.coinbase_value,
            r.coinbase.outputs@[0].script_pubkey@ == seq![0x76u8, 0xa9u8, 20u8] + recipient@ + seq![0x88u8, 0xacu8],
            r.coinbase.inputs@[0].script_sig@ == coinbase_script(height),
            r.previous_header_hash == previous_header_hash,
            r.time == time,
            r.bits == bits,
            r.height == height,
            r.size <= self.max_block_size,
            r.sigop_count <= self.max_block_sigops,
    {
        let n = pool.information().count;
        let order = pool.read_n_with_strategy(n, OrderingStrategy::ByTransactionScore);
        let ghost s = pool@;
        let ghost idx = choose|idx: Seq<int>| #[trigger] lists_positions(s, idx, order@) && order@.len() <= n && parents_first(s, idx) && greedy(s, idx)
            && (order@.len() < n ==> forall|k: int| 0 <= k < s.len() && !idx.contains(k) ==> #[trigger] blocked(s, order@, k));
        proof {
            assert forall|q: int| 0 <= q < order@.len() implies has_hash(s, #[trigger] order@[q]) by {
                assert(s[idx[q]].hash() == order@[q]);
            }
        }
        let mut included: Vec<H256> = Vec::new();
        let mut chosen: Vec<IndexedTransaction> = Vec::new();
        let mut size: usize = 0;
        let mut sigops: usize = 0;
        let mut fees: u64 = 0;
        let mut t: usize = 0;
        while t < order.len()
            invariant
                pool.wf(),
                s == pool@,
                t <= order@.len(),
                forall|q: int| 0 <= q < order@.len() ==> has_hash(s, #[trigger] order@[q]),
                ({
                    let st = assemble(s, order@.take(t as int), self.max_block_size as int, self.max_block_sigops as int, subsidy as int);
                    &&& included@ == st.included
                    &&& size == st.size
                    &&& sigops == st.sigops
                    &&& fees == st.fees
                    &&& subsidy + st.fees <= 0xFFFF_FFFF_FFFF_FFFFint
                    &&& st.size <= self.max_block_size
                    &&& st.sigops <= self.max_block_sigops
                }),
                chosen@.len() == included@.len(),
                forall|q: int| 0 <= q < chosen@.len() ==> #[trigger] chosen@[q].hash == included@[q],
                forall|q: int| 0 <= q < chosen@.len() ==> same_transaction(
                    #[trigger] chosen@[q].raw,
                    entry_of(s, chosen@[q].hash).transaction.raw,
                ),
            decreases order@.len() - t,
        {
            proof {
                assert(order@.take(t as int + 1).drop_last() =~= order@.take(t as int));
            }
            let e = pool.read_by_hash(&order[t]);
            match e {
                Some(e) => {
                    proof {
                        let k = choose|k: int| 0 <= k < s.len() && #[trigger] s[k].hash() == order@[t as int];
                        let m = s.index_of(*e);
                        assert(s[m] == *e);
                        if m != k {
                            assert(s[m].hash() != s[k].hash());
                        }
                        assert(entry_of(s, order@[t as int]) == *e);
                    }
                    let mut ok = true;
                    let mut a: usize = 0;
                    while a < e.ancestors.len()
                        invariant
                            a <= e.ancestors@.len(),
                            ok == forall|b: int| 0 <= b < a ==> included@.contains(#[trigger] e.ancestors@[b]),
                        decreases e.ancestors@.len() - a,
                    {
                        if !vec_contains(&included, &e.ancestors[a]) {
                            ok = false;
                        }
                        a = a + 1;
                    }
                    if ok && e.size <= self.max_block_size - size && e.sigops <= self.max_block_sigops - sigops
                        && e.miner_fee <= u64::MAX - subsidy - fees {
                        included.push(e.transaction.hash);
                        chosen.push(IndexedTransaction { hash: e.transaction.hash, raw: e.transaction.raw.clone_transaction() });
                        size = size + e.size;
                        sigops = sigops + e.sigops;
                        fees = fees + e.miner_fee;
                    }
                },
                None => {},
            }
            t = t + 1;
        }
        proof {
            assert(order@.take(t as int) =~= order@);
            assert(lists_positions(pool@, idx, order@));
            lemma_assemble_ancestors_first(s, order@, self.max_block_size as int, self.max_block_sigops as int, subsidy as int);
            let inc = assemble(s, order@, self.max_block_size as int, self.max_block_sigops as int, subsidy as int).included;
            assert forall|t: int, x: H256|
                0 <= t < chosen@.len() && #[trigger] entry_of(pool@, chosen@[t].hash).ancestors@.contains(x)
                    implies exists|q: int| 0 <= q < t && #[trigger] chosen@[q].hash == x by {
                assert(chosen@[t].hash == inc[t]);
                assert(entry_of(s, inc[t]).ancestors@.contains(x));
                let q = choose|q: int| 0 <= q < t && #[trigger] inc[q] == x;
                assert(chosen@[q].hash == x);
            }
        }
        let coinbase_value = subsidy + fees;
        let coinbase = BlockAssembler::create_coinbase(recipient, height, coinbase_value);
        BlockTemplate {
            version: 1,
            previous_header_hash,
            time,
            bits,
            height,
            coinbase,
            transactions: chosen,
            coinbase_value,
            size,
            sigop_count: sigops,
        }
    }
}

} // verus!
