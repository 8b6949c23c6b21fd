//! The pool of pending transactions, deduplicated by commitment, in arrival order.
use vstd::prelude::*;

use crate::block::{select, select_pending};
use crate::bytes::{byte_seqs, bytes_eq, contains_bytes, copy_bytes};
use crate::transaction::{tx_commitment, tx_models, SubmitError, Transaction, TxModel, MAX_NAMESPACE};

verus! {

/// Whether some transaction of `txs` has commitment `c`.
pub open spec fn has_commitment(txs: Seq<TxModel>, c: Seq<u8>) -> bool {
    exists|i: int| 0 <= i < txs.len() && (#[trigger] txs[i]).commitment == c
}

/// No two transactions of `txs` share a commitment.
pub open spec fn unique_commitments(txs: Seq<TxModel>) -> bool {
    forall|i: int, j: int|
        0 <= i < txs.len() && 0 <= j < txs.len() && i != j ==> (#[trigger] txs[i]).commitment
            != (#[trigger] txs[j]).commitment
}

/// The transactions of `txs` whose commitment is not among `decided`, in order.
pub open spec fn without_decided(txs: Seq<TxModel>, decided: Seq<Seq<u8>>) -> Seq<TxModel> {
    txs.filter(|t: TxModel| !decided.contains(t.commitment))
}

/// What a submission of `(namespace, payload)` does to the pool `old` of bound `capacity`
/// and returns: an id out of range is refused; a commitment already pending is refused
/// as a duplicate, naming that commitment; a full pool refuses; otherwise the transaction
/// is appended and its commitment returned. A refusal changes nothing.
pub open spec fn submit_post(
    old: Seq<TxModel>,
    capacity: nat,
    namespace: u64,
    payload: Seq<u8>,
    new: Seq<TxModel>,
    r: Result<Vec<u8>, SubmitError>,
) -> bool {
    let c = tx_commitment(namespace, payload);
    if namespace > MAX_NAMESPACE {
        (r matches Err(SubmitError::InvalidNamespace)) && new == old
    } else if has_commitment(old, c) {
        (r matches Err(SubmitError::Duplicate { commitment }) && commitment@ == c) && new == old
    } else if old.len() >= capacity {
        (r matches Err(SubmitError::PoolFull)) && new == old
    } else {
        (r matches Ok(rc) && rc@ == c) && new == old.push(
            TxModel { namespace, payload, commitment: c },
        )
    }
}

/// Pending transactions in arrival order, with a bound on how many it holds.
pub struct TransactionPool {
    pub entries: Vec<Transaction>,
    pub capacity: usize,
}

impl View for TransactionPool {
    type V = Seq<TxModel>;

    open spec fn view(&self) -> Seq<TxModel> {
        self.entries@.map_values(|t: Transaction| t@)
    }
}

impl TransactionPool {
    /// Every entry is a valid transaction, commitments are unique, and the bound holds.
    pub open spec fn wf(&self) -> bool {
        &&& self@.len() <= self.capacity
        &&& forall|i: int| 0 <= i < self@.len() ==> (#[trigger] self@[i]).valid()
        &&& unique_commitments(self@)
    }

    /// An empty pool that holds at most `capacity` transactions.
    pub fn new(capacity: usize) -> (r: TransactionPool)
        ensures
            r.wf(),
            r@ == Seq::<TxModel>::empty(),
            r.capacity == capacity,
    {
        let r = TransactionPool { entries: Vec::new(), capacity };
        assert(r@ =~= Seq::<TxModel>::empty());
        r
    }

    /// How many transactions are pending.
    pub fn len(&self) -> (r: usize)
        ensures
            r == self@.len(),
    {
        self.entries.len()
    }

    /// The position of the transaction with commitment `c`, if one is pending.
    pub fn position(&self, c: &Vec<u8>) -> (r: Option<usize>)
        ensures
            r matches Some(i) ==> (i < self@.len() && self@[i as int].commitment == c@),
            r is None <==> !has_commitment(self@, c@),
    {
        let mut i: usize = 0;
        while i < self.entries.len()
            invariant
                i <= self@.len(),
                forall|k: int| 0 <= k < i ==> (#[trigger] self@[k]).commitment != c@,
            decreases self@.len() - i,
        {
            if bytes_eq(&self.entries[i].commitment, c) {
                assert(self@[i as int].commitment == c@);
                return Some(i);
            }
            i = i + 1;
        }
        None
    }

    /// Adds a transaction and returns its commitment. It is refused when the namespace id
    /// does not fit in 32 bits, when a transaction with the same commitment is pending
    /// (the error carries that commitment), or when the pool is full; then nothing changes.
    pub fn submit(&mut self, namespace: u64, payload: Vec<u8>) -> (r: Result<Vec<u8>, SubmitError>)
        requires
            old(self).wf(),
        ensures
            final(self).wf(),
            final(self).capacity == old(self).capacity,
            submit_post(old(self)@, old(self).capacity as nat, namespace, payload@, final(self)@, r),
    {
        let tx = match Transaction::new(namespace, payload) {
            Ok(tx) => tx,
            Err(e) => return Err(e),
        };
        if self.position(&tx.commitment).is_some() {
            return Err(SubmitError::Duplicate { commitment: tx.commitment });
        }
        if self.entries.len() >= self.capacity {
            return Err(SubmitError::PoolFull);
        }
        let c = copy_bytes(&tx.commitment);
        let ghost before = self@;
        let ghost t = tx@;
        self.entries.push(tx);
        assert(self@ =~= before.push(t));
        assert forall|i: int, j: int|
            0 <= i < self@.len() && 0 <= j < self@.len() && i != j implies (#[trigger] self@[i]).commitment
                != (#[trigger] self@[j]).commitment by {
            if i == before.len() as int {
                assert(before[j] == self@[j]);
            } else if j == before.len() as int {
                assert(before[i] == self@[i]);
            }
        }
        Ok(c)
    }

    /// The pending transactions not in `exclude`, in arrival order, taken while they fit in
    /// `budget` payload bytes. The pool does not change.
    pub fn drain_candidates(&self, exclude: &Vec<Vec<u8>>, budget: usize) -> (r: Vec<Transaction>)
        ensures
            tx_models(r@) == select(self@, byte_seqs(exclude@), budget as nat),
    {
        let (candidates, _size) = select_pending(&self.entries, exclude, budget);
        candidates
    }

    /// Drops every pending transaction whose commitment is among `decided`, keeping the
    /// order of the rest.
    pub fn remove_decided(&mut self, decided: &Vec<Vec<u8>>)
        requires
            old(self).wf(),
        ensures
            final(self).wf(),
            final(self).capacity == old(self).capacity,
            final(self)@ == without_decided(old(self)@, byte_seqs(decided@)),
    {
        let ghost d = byte_seqs(decided@);
        let ghost pred = |t: TxModel| !d.contains(t.commitment);
        let ghost src = self@;
        let mut kept: Vec<Transaction> = Vec::new();
        let mut i: usize = 0;
        while i < self.entries.len()
            invariant
                i <= self.entries@.len(),
                self.entries == old(self).entries,
                d == byte_seqs(decided@),
                pred == (|t: TxModel| !d.contains(t.commitment)),
                src == self.entries@.map_values(|t: Transaction| t@),
                kept@.map_values(|t: Transaction| t@) == src.take(i as int).filter(pred),
            decreases self.entries@.len() - i,
        {
            let ghost before = kept@.map_values(|t: Transaction| t@);
            proof {
                reveal(Seq::filter);
                assert(src.take(i as int + 1).drop_last() =~= src.take(i as int));
                assert(src.take(i as int + 1).last() == src[i as int]);
            }
            assert(src[i as int] == self.entries@[i as int]@);
            assert(pred(src[i as int]) == !d.contains(src[i as int].commitment));
            if !contains_bytes(decided, &self.entries[i].commitment) {
                kept.push(self.entries[i].duplicate());
                assert(src.take(i as int + 1).filter(pred) == src.take(i as int).filter(pred).push(
                    src[i as int],
                ));
                assert(kept@.map_values(|t: Transaction| t@) =~= before.push(src[i as int]));
            } else {
                assert(src.take(i as int + 1).filter(pred) == src.take(i as int).filter(pred));
            }
            i = i + 1;
        }
        assert(src.take(src.len() as int) =~= src);
        self.entries = kept;
        proof {
            let s = self@;
            src.lemma_filter_len(pred);
            assert forall|k: int| 0 <= k < s.len() implies (#[trigger] s[k]).valid() by {
                assert(s.contains(s[k]));
                src.lemma_filter_contains_rev(pred, s[k]);
                let j = choose|j: int| 0 <= j < src.len() && src[j] == s[k];
            }
            lemma_filter_unique(src, pred);
        }
    }
}

/// Filtering keeps commitments unique.
proof fn lemma_filter_unique(s: Seq<TxModel>, pred: spec_fn(TxModel) -> bool)
    requires
        unique_commitments(s),
    ensures
        unique_commitments(s.filter(pred)),
    decreases s.len(),
{
    reveal(Seq::filter);
    if s.len() > 0 {
        let rest = s.drop_last();
        assert(unique_commitments(rest)) by {
            assert forall|i: int, j: int|
                0 <= i < rest.len() && 0 <= j < rest.len() && i != j implies (#[trigger] rest[i]).commitment
                    != (#[trigger] rest[j]).commitment by {
                assert(rest[i] == s[i] && rest[j] == s[j]);
            }
        }
        lemma_filter_unique(rest, pred);
        let f = rest.filter(pred);
        if pred(s.last()) {
            let g = f.push(s.last());
            assert forall|i: int, j: int|
                0 <= i < g.len() && 0 <= j < g.len() && i != j implies (#[trigger] g[i]).commitment
                    != (#[trigger] g[j]).commitment by {
                if i == f.len() as int || j == f.len() as int {
                    let k = if i == f.len() as int { j } else { i };
                    assert(f.contains(f[k]));
                    rest.lemma_filter_contains_rev(pred, f[k]);
                    let m = choose|m: int| 0 <= m < rest.len() && rest[m] == f[k];
                    assert(s[m] == rest[m]);
                    assert(s.last() == s[s.len() - 1]);
                }
            }
        }
    }
}

} // verus!
