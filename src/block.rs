//! Block assembly: selecting pending transactions under a size budget, grouping them by
//! namespace, the namespace table, the offered fee and the block commitment.
use vstd::prelude::*;

use crate::bytes::{byte_seqs, contains_bytes, copy_bytes, keccak256, keccak_of, push_bytes, push_u64_le, u64_le};
use crate::transaction::{tx_models, Transaction, TxModel};

verus! {

/// One entry of a namespace table: the transactions of `namespace` are the payload's
/// positions `start..end`.
#[derive(Clone, Copy, Debug, PartialEq, Eq, Structural)]
pub struct NsRange {
    pub namespace: u64,
    pub start: usize,
    pub end: usize,
}

/// A block built for one fork, with everything needed to offer and hand it out.
#[derive(Debug)]
pub struct BuildBlockInfo {
    /// The view the block is built for.
    pub view: u64,
    /// The commitment of the block it extends.
    pub parent: Vec<u8>,
    /// The included transactions, in arrival order.
    pub transactions: Vec<Transaction>,
    /// The included transactions grouped by namespace, namespaces in increasing order.
    pub payload: Vec<Transaction>,
    /// Where each namespace's transactions lie in `payload`, by increasing namespace id.
    pub ns_table: Vec<NsRange>,
    /// The number of payload bytes of the included transactions.
    pub payload_size: usize,
    /// The fee offered for the block: the base fee for each payload byte.
    pub offered_fee: u128,
    /// The commitment that identifies the block.
    pub block_commitment: Vec<u8>,
}

/// The number of payload bytes of `txs`.
pub open spec fn total_size(txs: Seq<TxModel>) -> nat
    decreases txs.len(),
{
    if txs.len() == 0 {
        0
    } else {
        total_size(txs.drop_last()) + txs.last().payload.len()
    }
}

/// The transactions a block takes from `txs`: in arrival order, each one whose commitment
/// is not in `excluded` and that still fits in `budget` bytes. All pay the same fee per
/// byte, so the order of fee density is the order of arrival.
pub open spec fn select(txs: Seq<TxModel>, excluded: Seq<Seq<u8>>, budget: nat) -> Seq<TxModel>
    decreases txs.len(),
{
    if txs.len() == 0 {
        seq![]
    } else {
        let prev = select(txs.drop_last(), excluded, budget);
        let t = txs.last();
        if !excluded.contains(t.commitment) && total_size(prev) + t.payload.len() <= budget {
            prev.push(t)
        } else {
            prev
        }
    }
}

/// The transactions of `txs` in namespace `ns`, in order.
pub open spec fn in_ns(txs: Seq<TxModel>, ns: u64) -> Seq<TxModel> {
    txs.filter(|t: TxModel| t.namespace == ns)
}

/// The transactions of `txs` grouped by the namespaces `ids`, in the order of `ids`.
pub open spec fn grouped(txs: Seq<TxModel>, ids: Seq<u64>) -> Seq<TxModel>
    decreases ids.len(),
{
    if ids.len() == 0 {
        seq![]
    } else {
        grouped(txs, ids.drop_last()) + in_ns(txs, ids.last())
    }
}

/// `ids` is strictly increasing.
pub open spec fn strictly_sorted(ids: Seq<u64>) -> bool {
    forall|i: int, j: int| 0 <= i < j < ids.len() ==> ids[i] < ids[j]
}

/// `ids` holds exactly the namespaces that occur in `txs`.
pub open spec fn namespaces_of(ids: Seq<u64>, txs: Seq<TxModel>) -> bool {
    forall|ns: u64| ids.contains(ns) <==> exists|i: int| 0 <= i < txs.len() && (#[trigger] txs[i]).namespace == ns
}

/// The namespace ids of a table, in order.
pub open spec fn table_ids(table: Seq<NsRange>) -> Seq<u64> {
    table.map_values(|r: NsRange| r.namespace)
}

/// The transactions' commitments, one after the other.
pub open spec fn concat_commitments(txs: Seq<TxModel>) -> Seq<u8>
    decreases txs.len(),
{
    if txs.len() == 0 {
        seq![]
    } else {
        concat_commitments(txs.drop_last()) + txs.last().commitment
    }
}

/// The bytes a block commitment is computed over: the view, the parent and the
/// commitments of the payload's transactions.
pub open spec fn block_bytes(view: u64, parent: Seq<u8>, payload: Seq<TxModel>) -> Seq<u8> {
    u64_le(view) + parent + concat_commitments(payload)
}

/// The commitment of a block with this view, parent and payload.
pub open spec fn block_commitment_of(view: u64, parent: Seq<u8>, payload: Seq<TxModel>) -> Seq<u8> {
    keccak_of(block_bytes(view, parent, payload))
}

impl BuildBlockInfo {
    /// The included transactions, in arrival order.
    pub open spec fn txs(&self) -> Seq<TxModel> {
        tx_models(self.transactions@)
    }

    /// The commitments of the included transactions.
    pub open spec fn included(&self) -> Seq<Seq<u8>> {
        self.txs().map_values(|t: TxModel| t.commitment)
    }

    /// The payload and the namespace table agree with the included transactions.
    pub open spec fn wf(&self) -> bool {
        let ids = table_ids(self.ns_table@);
        &&& strictly_sorted(ids)
        &&& namespaces_of(ids, self.txs())
        &&& tx_models(self.payload@) == grouped(self.txs(), ids)
        &&& forall|k: int|
            0 <= k < self.ns_table@.len() ==> {
                let r = #[trigger] self.ns_table@[k];
                &&& r.start == grouped(self.txs(), ids.take(k)).len()
                &&& r.start <= r.end <= self.payload@.len()
                &&& tx_models(self.payload@).subrange(r.start as int, r.end as int) == in_ns(
                    self.txs(),
                    r.namespace,
                )
            }
        &&& self.payload_size == total_size(self.txs())
        &&& self.block_commitment@ == block_commitment_of(self.view, self.parent@, tx_models(self.payload@))
    }
}

/// What building a block for `view` on `parent` from `pending`, without `excluded`, within
/// `max_block_size` bytes at `base_fee` per byte, yields.
pub open spec fn build_post(
    b: BuildBlockInfo,
    view: u64,
    parent: Seq<u8>,
    pending: Seq<TxModel>,
    excluded: Seq<Seq<u8>>,
    max_block_size: usize,
    base_fee: u64,
) -> bool {
    &&& b.wf()
    &&& b.view == view
    &&& b.parent@ == parent
    &&& b.txs() == select(pending, excluded, max_block_size as nat)
    &&& b.offered_fee == base_fee * b.payload_size
}

/// Selection stays within the budget.
pub proof fn lemma_select_size(txs: Seq<TxModel>, excluded: Seq<Seq<u8>>, budget: nat)
    ensures
        total_size(select(txs, excluded, budget)) <= budget,
    decreases txs.len(),
{
    if txs.len() > 0 {
        lemma_select_size(txs.drop_last(), excluded, budget);
        let prev = select(txs.drop_last(), excluded, budget);
        assert(prev.push(txs.last()).drop_last() =~= prev);
    }
}

/// Every selected transaction comes from `txs` and is not excluded.
pub proof fn lemma_select_from(txs: Seq<TxModel>, excluded: Seq<Seq<u8>>, budget: nat)
    ensures
        forall|i: int|
            0 <= i < select(txs, excluded, budget).len() ==> {
                let t = #[trigger] select(txs, excluded, budget)[i];
                txs.contains(t) && !excluded.contains(t.commitment)
            },
    decreases txs.len(),
{
    if txs.len() > 0 {
        let rest = txs.drop_last();
        lemma_select_from(rest, excluded, budget);
        let prev = select(rest, excluded, budget);
        let s = select(txs, excluded, budget);
        assert forall|i: int| 0 <= i < s.len() implies {
            let t = #[trigger] s[i];
            txs.contains(t) && !excluded.contains(t.commitment)
        } by {
            if i < prev.len() {
                assert(s[i] == prev[i]);
                let t = prev[i];
                assert(rest.contains(t));
                let j = choose|j: int| 0 <= j < rest.len() && rest[j] == t;
                assert(txs[j] == t);
            } else {
                assert(s[i] == txs.last());
                assert(txs[txs.len() - 1] == txs.last());
            }
        }
    }
}

/// Takes, in arrival order, the pending transactions that are not excluded and fit in
/// `budget` bytes; returns them and their total size.
pub(crate) fn select_pending(pending: &Vec<Transaction>, excluded: &Vec<Vec<u8>>, budget: usize) -> (r: (
    Vec<Transaction>,
    usize,
))
    ensures
        tx_models(r.0@) == select(tx_models(pending@), byte_seqs(excluded@), budget as nat),
        r.1 == total_size(tx_models(r.0@)),
{
    let ghost src = tx_models(pending@);
    let ghost ex = byte_seqs(excluded@);
    let mut sel: Vec<Transaction> = Vec::new();
    let mut total: usize = 0;
    let mut i: usize = 0;
    while i < pending.len()
        invariant
            i <= pending@.len(),
            src == tx_models(pending@),
            ex == byte_seqs(excluded@),
            tx_models(sel@) == select(src.take(i as int), ex, budget as nat),
            total == total_size(tx_models(sel@)),
            total <= budget,
        decreases pending@.len() - i,
    {
        let ghost before = tx_models(sel@);
        proof {
            assert(src.take(i as int + 1).drop_last() =~= src.take(i as int));
            assert(src.take(i as int + 1).last() == src[i as int]);
            assert(src[i as int] == pending@[i as int]@);
        }
        let t = &pending[i];
        if !contains_bytes(excluded, &t.commitment) && t.payload.len() <= budget - total {
            sel.push(t.duplicate());
            assert(tx_models(sel@) =~= before.push(src[i as int]));
            assert(tx_models(sel@).drop_last() =~= before);
            total = total + t.payload.len();
        }
        i = i + 1;
    }
    assert(src.take(src.len() as int) =~= src);
    (sel, total)
}

/// Inserts `x` into the strictly increasing `ids`, unless it is there already.
fn insert_sorted(ids: &mut Vec<u64>, x: u64)
    requires
        strictly_sorted(old(ids)@),
    ensures
        strictly_sorted(final(ids)@),
        forall|y: u64| final(ids)@.contains(y) <==> (old(ids)@.contains(y) || y == x),
{
    let ghost orig = ids@;
    let mut p: usize = 0;
    while p < ids.len() && ids[p] < x
        invariant
            ids@ == orig,
            orig == old(ids)@,
            p <= ids@.len(),
            forall|k: int| 0 <= k < p ==> ids@[k] < x,
        decreases ids@.len() - p,
    {
        p = p + 1;
    }
    if p < ids.len() && ids[p] == x {
        assert(ids@[p as int] == x);
        assert(old(ids)@.contains(x));
        return;
    }
    let ghost before = ids@;
    assert(before == old(ids)@);
    ids.insert(p, x);
    assert(ids@ == before.insert(p as int, x));
    assert forall|y: u64| #[trigger] ids@.contains(y) <==> (old(ids)@.contains(y) || y == x) by {
        if ids@.contains(y) {
            let k = choose|k: int| 0 <= k < ids@.len() && ids@[k] == y;
            if k < p {
                assert(before[k] == y);
            } else if k > p {
                assert(before[k - 1] == y);
            }
        }
        if before.contains(y) {
            let k = choose|k: int| 0 <= k < before.len() && before[k] == y;
            if k < p {
                assert(ids@[k] == y);
            } else {
                assert(ids@[k + 1] == y);
            }
        }
        if y == x {
            assert(ids@[p as int] == x);
        }
    }
}

/// The strictly increasing list of the namespaces that occur in `txs`.
fn namespace_ids(txs: &Vec<Transaction>) -> (ids: Vec<u64>)
    ensures
        strictly_sorted(ids@),
        namespaces_of(ids@, tx_models(txs@)),
{
    let ghost src = tx_models(txs@);
    let mut ids: Vec<u64> = Vec::new();
    let mut i: usize = 0;
    while i < txs.len()
        invariant
            i <= txs@.len(),
            src == tx_models(txs@),
            strictly_sorted(ids@),
            forall|ns: u64|
                ids@.contains(ns) <==> exists|j: int| 0 <= j < i && (#[trigger] src[j]).namespace == ns,
        decreases txs@.len() - i,
    {
        insert_sorted(&mut ids, txs[i].namespace);
        assert(src[i as int].namespace == txs@[i as int].namespace);
        assert forall|ns: u64|
            ids@.contains(ns) <==> exists|j: int| 0 <= j < i + 1 && (#[trigger] src[j]).namespace == ns by {
            if ns == txs@[i as int].namespace {
                assert(src[i as int].namespace == ns);
            }
        }
        i = i + 1;
    }
    ids
}

/// Appends the transactions of `txs` in namespace `ns` to `out`, in order.
fn push_namespace(out: &mut Vec<Transaction>, txs: &Vec<Transaction>, ns: u64)
    ensures
        tx_models(final(out)@) == tx_models(old(out)@) + in_ns(tx_models(txs@), ns),
{
    let ghost src = tx_models(txs@);
    let ghost start = tx_models(out@);
    let ghost pred = |t: TxModel| t.namespace == ns;
    let mut i: usize = 0;
    while i < txs.len()
        invariant
            i <= txs@.len(),
            src == tx_models(txs@),
            pred == (|t: TxModel| t.namespace == ns),
            tx_models(out@) == start + src.take(i as int).filter(pred),
        decreases txs@.len() - i,
    {
        let ghost before = tx_models(out@);
        proof {
            reveal(Seq::filter);
            assert(src.take(i as int + 1).drop_last() =~= src.take(i as int));
            assert(src.take(i as int + 1).last() == src[i as int]);
            assert(src[i as int] == txs@[i as int]@);
        }
        if txs[i].namespace == ns {
            out.push(txs[i].duplicate());
            assert(tx_models(out@) =~= before.push(src[i as int]));
            assert(src.take(i as int + 1).filter(pred) == src.take(i as int).filter(pred).push(src[i as int]));
            assert(tx_models(out@) =~= start + src.take(i as int + 1).filter(pred));
        } else {
            assert(src.take(i as int + 1).filter(pred) == src.take(i as int).filter(pred));
        }
        i = i + 1;
    }
    assert(src.take(src.len() as int) =~= src);
}

/// Groups `txs` by the namespaces `ids` and returns the payload and its namespace table.
fn group_by_namespace(txs: &Vec<Transaction>, ids: &Vec<u64>) -> (r: (Vec<Transaction>, Vec<NsRange>))
    ensures
        tx_models(r.0@) == grouped(tx_models(txs@), ids@),
        table_ids(r.1@) == ids@,
        forall|k: int|
            0 <= k < r.1@.len() ==> {
                let e = #[trigger] r.1@[k];
                &&& e.start == grouped(tx_models(txs@), ids@.take(k)).len()
                &&& e.start <= e.end <= r.0@.len()
                &&& tx_models(r.0@).subrange(e.start as int, e.end as int) == in_ns(
                    tx_models(txs@),
                    e.namespace,
                )
            },
{
    let ghost src = tx_models(txs@);
    let mut payload: Vec<Transaction> = Vec::new();
    let mut table: Vec<NsRange> = Vec::new();
    let mut k: usize = 0;
    while k < ids.len()
        invariant
            k <= ids@.len(),
            src == tx_models(txs@),
            tx_models(payload@) == grouped(src, ids@.take(k as int)),
            table_ids(table@) == ids@.take(k as int),
            forall|m: int|
                0 <= m < table@.len() ==> {
                    let e = #[trigger] table@[m];
                    &&& e.start == grouped(src, ids@.take(m)).len()
                    &&& e.start <= e.end <= payload@.len()
                    &&& tx_models(payload@).subrange(e.start as int, e.end as int) == in_ns(src, e.namespace)
                },
        decreases ids@.len() - k,
    {
        let ns = ids[k];
        let start = payload.len();
        let ghost before = tx_models(payload@);
        let ghost old_table = table@;
        push_namespace(&mut payload, txs, ns);
        let end = payload.len();
        proof {
            assert(ids@.take(k as int + 1).drop_last() =~= ids@.take(k as int));
            assert(ids@.take(k as int + 1).last() == ns);
            assert(tx_models(payload@).len() == payload@.len());
            assert(before.len() == start);
            assert(tx_models(payload@).subrange(start as int, end as int) =~= in_ns(src, ns));
            assert forall|m: int| 0 <= m < old_table.len() implies {
                let e = #[trigger] old_table[m];
                tx_models(payload@).subrange(e.start as int, e.end as int) == in_ns(src, e.namespace)
            } by {
                let e = old_table[m];
                assert(tx_models(payload@).subrange(e.start as int, e.end as int) =~= before.subrange(
                    e.start as int,
                    e.end as int,
                ));
            }
        }
        table.push(NsRange { namespace: ns, start, end });
        assert(table_ids(table@) =~= ids@.take(k as int + 1));
        assert(table@[k as int] == NsRange { namespace: ns, start, end });
        assert forall|m: int| 0 <= m < table@.len() implies {
            let e = #[trigger] table@[m];
            &&& e.start == grouped(src, ids@.take(m)).len()
            &&& e.start <= e.end <= payload@.len()
            &&& tx_models(payload@).subrange(e.start as int, e.end as int) == in_ns(src, e.namespace)
        } by {
            if m < k {
                assert(table@[m] == old_table[m]);
                assert(ids@.take(k as int + 1).take(m) =~= ids@.take(m));
            } else {
                assert(ids@.take(k as int) =~= ids@.take(m));
            }
        }
        k = k + 1;
    }
    assert(ids@.take(ids@.len() as int) =~= ids@);
    (payload, table)
}

/// Computes the commitment of a block with this view, parent and payload.
fn compute_block_commitment(view: u64, parent: &Vec<u8>, payload: &Vec<Transaction>) -> (r: Vec<u8>)
    ensures
        r@ == block_commitment_of(view, parent@, tx_models(payload@)),
{
    let ghost src = tx_models(payload@);
    let mut data: Vec<u8> = Vec::new();
    push_u64_le(&mut data, view);
    push_bytes(&mut data, parent);
    let ghost head = data@;
    let mut i: usize = 0;
    while i < payload.len()
        invariant
            i <= payload@.len(),
            src == tx_models(payload@),
            head == u64_le(view) + parent@,
            data@ == head + concat_commitments(src.take(i as int)),
        decreases payload@.len() - i,
    {
        push_bytes(&mut data, &payload[i].commitment);
        proof {
            assert(src.take(i as int + 1).drop_last() =~= src.take(i as int));
            assert(src.take(i as int + 1).last() == src[i as int]);
            assert(src[i as int] == payload@[i as int]@);
            assert(data@ =~= head + concat_commitments(src.take(i as int + 1)));
        }
        i = i + 1;
    }
    assert(src.take(src.len() as int) =~= src);
    assert(data@ =~= block_bytes(view, parent@, src));
    keccak256(data.as_slice())
}

/// Builds the block for `view` on `parent` from the pending transactions: those not in
/// `excluded`, in arrival order, while they fit in `max_block_size` payload bytes. The
/// offered fee is `base_fee` for each payload byte.
pub fn build_block(
    view: u64,
    parent: &Vec<u8>,
    pending: &Vec<Transaction>,
    excluded: &Vec<Vec<u8>>,
    max_block_size: usize,
    base_fee: u64,
) -> (b: BuildBlockInfo)
    ensures
        build_post(b, view, parent@, tx_models(pending@), byte_seqs(excluded@), max_block_size, base_fee),
        b.payload_size <= max_block_size,
{
    let (transactions, payload_size) = select_pending(pending, excluded, max_block_size);
    proof {
        lemma_select_size(tx_models(pending@), byte_seqs(excluded@), max_block_size as nat);
    }
    let ids = namespace_ids(&transactions);
    let (payload, ns_table) = group_by_namespace(&transactions, &ids);
    let block_commitment = compute_block_commitment(view, parent, &payload);
    proof {
        let f = base_fee as int;
        let z = payload_size as int;
        assert(0 <= f <= u64::MAX && 0 <= z <= usize::MAX);
        assert(f * z <= (u64::MAX as int) * (usize::MAX as int)) by (nonlinear_arith)
            requires
                0 <= f <= u64::MAX,
                0 <= z <= usize::MAX,
        ;
    }
    let offered_fee: u128 = (base_fee as u128) * (payload_size as u128);
    BuildBlockInfo {
        view,
        parent: copy_bytes(parent),
        transactions,
        payload,
        ns_table,
        payload_size,
        offered_fee,
        block_commitment,
    }
}

} // verus!
