//! Namespace proofs: the transactions of one namespace in a block, bound to the block's
//! namespace table and commitment.
use vstd::prelude::*;

use crate::block::{in_ns, strictly_sorted, table_ids, BuildBlockInfo, NsRange};
use crate::bytes::{bytes_eq, copy_bytes};
use crate::transaction::{tx_models, Transaction, TxModel};

verus! {

/// A proof that `transactions` are the transactions of `namespace` in a block: they are
/// the payload positions `start..end`, recorded at `ns_index` of the block's namespace
/// table, in the block with commitment `block_commitment`.
#[derive(Debug)]
pub struct NsProof {
    pub namespace: u64,
    pub ns_index: usize,
    pub start: usize,
    pub end: usize,
    pub transactions: Vec<Transaction>,
    pub block_commitment: Vec<u8>,
}

/// The answer to a namespace query: a proof and the namespace's transactions, or no proof
/// and no transactions where the block holds none of that namespace.
#[derive(Debug)]
pub struct NamespaceProofQueryData {
    pub proof: Option<NsProof>,
    pub transactions: Vec<Transaction>,
}

/// Whether the table holds an entry for namespace `ns`.
pub open spec fn table_has(table: Seq<NsRange>, ns: u64) -> bool {
    exists|k: int| 0 <= k < table.len() && (#[trigger] table[k]).namespace == ns
}

/// Finds the entry for namespace `ns` in a table sorted by namespace id.
pub fn find_ns_id(table: &Vec<NsRange>, ns: u64) -> (r: Option<usize>)
    requires
        strictly_sorted(table_ids(table@)),
    ensures
        r matches Some(k) ==> (k < table@.len() && table@[k as int].namespace == ns),
        r is None <==> !table_has(table@, ns),
{
    let ghost ids = table_ids(table@);
    let mut lo: usize = 0;
    let mut hi: usize = table.len();
    while lo < hi
        invariant
            lo <= hi <= table@.len(),
            ids == table_ids(table@),
            strictly_sorted(ids),
            forall|k: int| 0 <= k < lo ==> (#[trigger] table@[k]).namespace < ns,
            forall|k: int| hi <= k < table@.len() ==> (#[trigger] table@[k]).namespace > ns,
        decreases hi - lo,
    {
        let mid = lo + (hi - lo) / 2;
        let v = table[mid].namespace;
        assert(ids[mid as int] == v);
        if v == ns {
            return Some(mid);
        } else if v < ns {
            assert forall|k: int| 0 <= k < mid + 1 implies (#[trigger] table@[k]).namespace < ns by {
                assert(ids[k] == table@[k].namespace);
            }
            lo = mid + 1;
        } else {
            assert forall|k: int| mid <= k < table@.len() implies (#[trigger] table@[k]).namespace > ns by {
                assert(ids[k] == table@[k].namespace);
            }
            hi = mid;
        }
    }
    None
}

/// Copies the transactions at positions `start..end`.
fn copy_range(txs: &Vec<Transaction>, start: usize, end: usize) -> (r: Vec<Transaction>)
    requires
        start <= end <= txs@.len(),
    ensures
        tx_models(r@) == tx_models(txs@).subrange(start as int, end as int),
{
    let mut r: Vec<Transaction> = Vec::new();
    let mut i: usize = start;
    while i < end
        invariant
            start <= i <= end <= txs@.len(),
            r@.len() == i - start,
            forall|k: int| 0 <= k < r@.len() ==> (#[trigger] r@[k])@ == txs@[start + k]@,
        decreases end - i,
    {
        r.push(txs[i].duplicate());
        i = i + 1;
    }
    assert(tx_models(r@) =~= tx_models(txs@).subrange(start as int, end as int));
    r
}

/// Proves which transactions of `block` are in namespace `ns`. Returns `None` exactly when
/// the block holds no transaction of that namespace.
pub fn prove(block: &BuildBlockInfo, ns: u64) -> (r: Option<NsProof>)
    requires
        block.wf(),
    ensures
        r is None <==> !(exists|i: int| 0 <= i < block.txs().len() && (#[trigger] block.txs()[i]).namespace == ns),
        r is None <==> !table_has(block.ns_table@, ns),
        r matches Some(p) ==> {
            &&& p.namespace == ns
            &&& tx_models(p.transactions@) == in_ns(block.txs(), ns)
            &&& p.block_commitment@ == block.block_commitment@
            &&& p.ns_index < block.ns_table@.len()
            &&& block.ns_table@[p.ns_index as int] == (NsRange { namespace: ns, start: p.start, end: p.end })
        },
{
    proof {
        let ids = table_ids(block.ns_table@);
        assert(table_has(block.ns_table@, ns) <==> ids.contains(ns)) by {
            if ids.contains(ns) {
                let k = choose|k: int| 0 <= k < ids.len() && ids[k] == ns;
                assert(block.ns_table@[k].namespace == ns);
            }
            if table_has(block.ns_table@, ns) {
                let k = choose|k: int| 0 <= k < block.ns_table@.len() && (#[trigger] block.ns_table@[k]).namespace == ns;
                assert(ids[k] == ns);
            }
        }
    }
    match find_ns_id(&block.ns_table, ns) {
        None => None,
        Some(k) => {
            let e = block.ns_table[k];
            let transactions = copy_range(&block.payload, e.start, e.end);
            Some(NsProof {
                namespace: ns,
                ns_index: k,
                start: e.start,
                end: e.end,
                transactions,
                block_commitment: copy_bytes(&block.block_commitment),
            })
        },
    }
}

/// A proof checks against a block: the commitment is the block's, the table entry it
/// names is there with its namespace and range, and its transactions are the payload's in
/// that range.
pub open spec fn proof_checks(proof: NsProof, block: BuildBlockInfo) -> bool {
    &&& proof.block_commitment@ == block.block_commitment@
    &&& proof.ns_index < block.ns_table@.len()
    &&& block.ns_table@[proof.ns_index as int] == (NsRange {
        namespace: proof.namespace,
        start: proof.start,
        end: proof.end,
    })
    &&& proof.start <= proof.end <= block.payload@.len()
    &&& tx_models(proof.transactions@) == tx_models(block.payload@).subrange(
        proof.start as int,
        proof.end as int,
    )
}

/// Whether two transactions are equal.
fn same_tx(a: &Transaction, b: &Transaction) -> (r: bool)
    ensures
        r == (a@ == b@),
{
    a.namespace == b.namespace && bytes_eq(&a.payload, &b.payload) && bytes_eq(&a.commitment, &b.commitment)
}

/// Checks a namespace proof against a block: the commitment is the block's, the table
/// entry it names is there, and its transactions are the payload's in that range.
pub fn verify(proof: &NsProof, block: &BuildBlockInfo) -> (r: bool)
    ensures
        r == proof_checks(*proof, *block),
{
    if !bytes_eq(&proof.block_commitment, &block.block_commitment) {
        return false;
    }
    if proof.ns_index >= block.ns_table.len() {
        return false;
    }
    let e = block.ns_table[proof.ns_index];
    if e.namespace != proof.namespace || e.start != proof.start || e.end != proof.end {
        return false;
    }
    if e.start > e.end || e.end > block.payload.len() {
        return false;
    }
    if proof.transactions.len() != e.end - e.start {
        assert(tx_models(proof.transactions@).len() != tx_models(block.payload@).subrange(
            proof.start as int,
            proof.end as int,
        ).len());
        return false;
    }
    let mut i: usize = 0;
    while i < proof.transactions.len()
        invariant
            i <= proof.transactions@.len(),
            proof.transactions@.len() == e.end - e.start,
            e.start == proof.start,
            e.end == proof.end,
            e.start <= e.end,
            e.end <= block.payload@.len(),
            forall|k: int| 0 <= k < i ==> (#[trigger] proof.transactions@[k])@ == block.payload@[e.start + k]@,
        decreases proof.transactions@.len() - i,
    {
        if !same_tx(&proof.transactions[i], &block.payload[e.start + i]) {
            assert(tx_models(proof.transactions@)[i as int] != tx_models(block.payload@).subrange(
                proof.start as int,
                proof.end as int,
            )[i as int]);
            return false;
        }
        i = i + 1;
    }
    assert(tx_models(proof.transactions@) =~= tx_models(block.payload@).subrange(
        proof.start as int,
        proof.end as int,
    ));
    true
}

/// Answers a namespace query on a block: the proof and the namespace's transactions when
/// the block holds any, else no proof and no transactions.
pub fn namespace_proof_query(block: &BuildBlockInfo, ns: u64) -> (r: NamespaceProofQueryData)
    requires
        block.wf(),
    ensures
        r.proof is None <==> !table_has(block.ns_table@, ns),
        tx_models(r.transactions@) == in_ns(block.txs(), ns),
        r.proof matches Some(p) ==> tx_models(p.transactions@) == in_ns(block.txs(), ns)
            && p.namespace == ns && p.block_commitment@ == block.block_commitment@,
{
    match prove(block, ns) {
        Some(p) => {
            let transactions = copy_range(&p.transactions, 0, p.transactions.len());
            assert(tx_models(p.transactions@).subrange(0, p.transactions@.len() as int) =~= tx_models(
                p.transactions@,
            ));
            NamespaceProofQueryData { proof: Some(p), transactions }
        },
        None => {
            proof {
                reveal(Seq::filter);
                lemma_in_ns_empty(block.txs(), ns);
            }
            NamespaceProofQueryData { proof: None, transactions: Vec::new() }
        },
    }
}

/// A namespace that no transaction carries selects nothing.
proof fn lemma_in_ns_empty(txs: Seq<TxModel>, ns: u64)
    requires
        !(exists|i: int| 0 <= i < txs.len() && (#[trigger] txs[i]).namespace == ns),
    ensures
        in_ns(txs, ns) == Seq::<TxModel>::empty(),
    decreases txs.len(),
{
    reveal(Seq::filter);
    if txs.len() > 0 {
        let rest = txs.drop_last();
        assert forall|i: int| 0 <= i < rest.len() implies (#[trigger] rest[i]).namespace != ns by {
            assert(rest[i] == txs[i]);
        }
        lemma_in_ns_empty(rest, ns);
        assert(txs[txs.len() - 1] == txs.last());
        assert(in_ns(txs, ns) == in_ns(rest, ns));
    }
}

} // verus!
