//! Signed state commitments: the stake-table commitment (recomputed only when the table
//! changes), the commitment to a finalized state, and a store of signatures by view that
//! keeps only the most recent views.
use vstd::prelude::*;

use crate::bytes::{bytes_eq, copy_bytes, keccak256, keccak_of, push_bytes, push_u64_le, u64_le};

verus! {

/// One stake-table entry: the staking key, its stake and its state verification key.
#[derive(Debug)]
pub struct StakeTableEntry {
    pub stake_key: Vec<u8>,
    pub stake_amount: u64,
    pub state_ver_key: Vec<u8>,
}

/// A stake-table entry as mathematical values.
pub struct StakeModel {
    pub stake_key: Seq<u8>,
    pub stake_amount: u64,
    pub state_ver_key: Seq<u8>,
}

impl View for StakeTableEntry {
    type V = StakeModel;

    open spec fn view(&self) -> StakeModel {
        StakeModel {
            stake_key: self.stake_key@,
            stake_amount: self.stake_amount,
            state_ver_key: self.state_ver_key@,
        }
    }
}

/// The signature of the state commitment of one decided view.
#[derive(Debug)]
pub struct StateSignature {
    pub view: u64,
    pub state_commitment: Vec<u8>,
    pub signature: Vec<u8>,
}

/// Why a signature was not stored.
#[derive(Debug, PartialEq, Eq, Structural)]
pub enum SignerError {
    /// The view is not later than the last view stored.
    StaleView,
    /// The retention window is empty.
    NoRetention,
}

/// The models of a stake table.
pub open spec fn stake_models(t: Seq<StakeTableEntry>) -> Seq<StakeModel> {
    t.map_values(|e: StakeTableEntry| e@)
}

/// The encoding of one entry: each key with its length before it, and the stake.
pub open spec fn entry_bytes(e: StakeModel) -> Seq<u8> {
    u64_le(e.stake_key.len() as u64) + e.stake_key + u64_le(e.stake_amount) + u64_le(
        e.state_ver_key.len() as u64,
    ) + e.state_ver_key
}

/// The encoding of a stake table: its entries one after the other, in order.
pub open spec fn stake_table_bytes(t: Seq<StakeModel>) -> Seq<u8>
    decreases t.len(),
{
    if t.len() == 0 {
        seq![]
    } else {
        stake_table_bytes(t.drop_last()) + entry_bytes(t.last())
    }
}

/// The commitment of a stake table.
pub open spec fn stake_table_commitment_of(t: Seq<StakeModel>) -> Seq<u8> {
    keccak_of(stake_table_bytes(t))
}

/// The commitment of a finalized state under a stake table.
pub open spec fn state_commitment_of(state: Seq<u8>, t: Seq<StakeModel>) -> Seq<u8> {
    keccak_of(stake_table_commitment_of(t) + state)
}

/// Whether view `v` is within `retention` views of `latest`.
pub open spec fn in_window(v: u64, latest: u64, retention: u64) -> bool {
    v + retention > latest
}

/// The views of a list of signatures.
pub open spec fn sig_views(s: Seq<StateSignature>) -> Seq<u64> {
    s.map_values(|x: StateSignature| x.view)
}

/// Signs state commitments of decided views and keeps those of the last `retention` views.
pub struct StateSigner {
    pub retention: u64,
    pub signatures: Vec<StateSignature>,
    pub stake_table: Vec<StakeTableEntry>,
    pub stake_table_commitment: Option<Vec<u8>>,
}

impl StateSigner {
    /// Views are strictly increasing and all within the window of the latest one, and a
    /// cached stake-table commitment is that of the cached table.
    pub open spec fn wf(&self) -> bool {
        &&& forall|i: int, j: int|
            0 <= i < j < self.signatures@.len() ==> (#[trigger] self.signatures@[i]).view
                < (#[trigger] self.signatures@[j]).view
        &&& self.signatures@.len() > 0 ==> forall|i: int|
            0 <= i < self.signatures@.len() ==> in_window(
                (#[trigger] self.signatures@[i]).view,
                self.signatures@.last().view,
                self.retention,
            )
        &&& self.stake_table_commitment matches Some(c) ==> c@ == stake_table_commitment_of(
            stake_models(self.stake_table@),
        )
    }

    /// A signer keeping the signatures of the last `retention` views, with nothing stored.
    pub fn new(retention: u64) -> (r: StateSigner)
        ensures
            r.wf(),
            r.retention == retention,
            r.signatures@.len() == 0,
    {
        StateSigner {
            retention,
            signatures: Vec::new(),
            stake_table: Vec::new(),
            stake_table_commitment: None,
        }
    }
}

/// Computes the commitment of a stake table.
pub fn compute_stake_table_commitment(table: &Vec<StakeTableEntry>) -> (r: Vec<u8>)
    ensures
        r@ == stake_table_commitment_of(stake_models(table@)),
{
    let ghost src = stake_models(table@);
    let mut data: Vec<u8> = Vec::new();
    let mut i: usize = 0;
    while i < table.len()
        invariant
            i <= table@.len(),
            src == stake_models(table@),
            data@ == stake_table_bytes(src.take(i as int)),
        decreases table@.len() - i,
    {
        let e = &table[i];
        let ghost before = data@;
        push_u64_le(&mut data, e.stake_key.len() as u64);
        push_bytes(&mut data, &e.stake_key);
        push_u64_le(&mut data, e.stake_amount);
        push_u64_le(&mut data, e.state_ver_key.len() as u64);
        push_bytes(&mut data, &e.state_ver_key);
        proof {
            assert(src.take(i as int + 1).drop_last() =~= src.take(i as int));
            assert(src.take(i as int + 1).last() == src[i as int]);
            assert(src[i as int] == table@[i as int]@);
            assert(data@ =~= before + entry_bytes(src[i as int]));
        }
        i = i + 1;
    }
    assert(src.take(src.len() as int) =~= src);
    keccak256(data.as_slice())
}

/// Whether two stake tables are equal.
fn same_stake_table(a: &Vec<StakeTableEntry>, b: &Vec<StakeTableEntry>) -> (r: bool)
    ensures
        r == (stake_models(a@) == stake_models(b@)),
{
    if a.len() != b.len() {
        assert(stake_models(a@).len() != stake_models(b@).len());
        return false;
    }
    let mut i: usize = 0;
    while i < a.len()
        invariant
            a@.len() == b@.len(),
            i <= a@.len(),
            forall|k: int| 0 <= k < i ==> (#[trigger] a@[k])@ == b@[k]@,
        decreases a@.len() - i,
    {
        let x = &a[i];
        let y = &b[i];
        if !(bytes_eq(&x.stake_key, &y.stake_key) && x.stake_amount == y.stake_amount && bytes_eq(
            &x.state_ver_key,
            &y.state_ver_key,
        )) {
            assert(stake_models(a@)[i as int] != stake_models(b@)[i as int]);
            return false;
        }
        i = i + 1;
    }
    assert(stake_models(a@) =~= stake_models(b@));
    true
}

/// A copy of a stake table.
fn copy_stake_table(t: &Vec<StakeTableEntry>) -> (r: Vec<StakeTableEntry>)
    ensures
        stake_models(r@) == stake_models(t@),
{
    let mut r: Vec<StakeTableEntry> = Vec::new();
    let mut i: usize = 0;
    while i < t.len()
        invariant
            i <= t@.len(),
            r@.len() == i,
            forall|k: int| 0 <= k < i ==> (#[trigger] r@[k])@ == t@[k]@,
        decreases t@.len() - i,
    {
        r.push(
            StakeTableEntry {
                stake_key: copy_bytes(&t[i].stake_key),
                stake_amount: t[i].stake_amount,
                state_ver_key: copy_bytes(&t[i].state_ver_key),
            },
        );
        i = i + 1;
    }
    assert(stake_models(r@) =~= stake_models(t@));
    r
}

impl StateSigner {
    /// The commitment of `table`, taken from the cache when the table is the cached one and
    /// computed (and cached) otherwise.
    pub fn stake_table_commitment(&mut self, table: &Vec<StakeTableEntry>) -> (r: Vec<u8>)
        requires
            old(self).wf(),
        ensures
            final(self).wf(),
            r@ == stake_table_commitment_of(stake_models(table@)),
            final(self).signatures == old(self).signatures,
            final(self).retention == old(self).retention,
            stake_models(final(self).stake_table@) == stake_models(table@),
            final(self).stake_table_commitment is Some,
    {
        match &self.stake_table_commitment {
            Some(c) => {
                if same_stake_table(&self.stake_table, table) {
                    return copy_bytes(c);
                }
            },
            None => {},
        }
        let c = compute_stake_table_commitment(table);
        self.stake_table = copy_stake_table(table);
        self.stake_table_commitment = Some(copy_bytes(&c));
        c
    }

    /// The commitment of a finalized `state` under the stake table `table`.
    pub fn state_commitment(&mut self, state: &Vec<u8>, table: &Vec<StakeTableEntry>) -> (r: Vec<u8>)
        requires
            old(self).wf(),
        ensures
            final(self).wf(),
            r@ == state_commitment_of(state@, stake_models(table@)),
            final(self).signatures == old(self).signatures,
            final(self).retention == old(self).retention,
    {
        let mut data = self.stake_table_commitment(table);
        push_bytes(&mut data, state);
        keccak256(data.as_slice())
    }

    /// The stored signature for `view`, if any.
    pub fn get_signature(&self, view: u64) -> (r: Option<&StateSignature>)
        ensures
            r matches Some(s) ==> (s.view == view && self.signatures@.contains(*s)),
            r is None <==> !sig_views(self.signatures@).contains(view),
    {
        let mut i: usize = 0;
        while i < self.signatures.len()
            invariant
                i <= self.signatures@.len(),
                forall|k: int| 0 <= k < i ==> (#[trigger] self.signatures@[k]).view != view,
            decreases self.signatures@.len() - i,
        {
            if self.signatures[i].view == view {
                assert(self.signatures@[i as int] == self.signatures@[i as int]);
                assert(self.signatures@.contains(self.signatures@[i as int]));
                assert(sig_views(self.signatures@)[i as int] == view);
                return Some(&self.signatures[i]);
            }
            i = i + 1;
        }
        assert(!sig_views(self.signatures@).contains(view)) by {
            if sig_views(self.signatures@).contains(view) {
                let k = choose|k: int| 0 <= k < sig_views(self.signatures@).len() && sig_views(self.signatures@)[k] == view;
                assert(self.signatures@[k].view == view);
            }
        }
        None
    }

    /// Stores the signature of the state commitment of a decided `view` and drops every
    /// signature that falls out of the window of the last `retention` views. Refuses a view
    /// that is not later than the last one stored, and an empty window.
    pub fn record(&mut self, view: u64, state_commitment: Vec<u8>, signature: Vec<u8>) -> (r: Result<(), SignerError>)
        requires
            old(self).wf(),
        ensures
            final(self).wf(),
            final(self).retention == old(self).retention,
            old(self).retention == 0 ==> (r == Err::<(), SignerError>(SignerError::NoRetention)
                && *final(self) == *old(self)),
            old(self).retention > 0 && old(self).signatures@.len() > 0 && view <= old(self).signatures@.last().view
                ==> (r == Err::<(), SignerError>(SignerError::StaleView) && *final(self) == *old(self)),
            old(self).retention > 0 && (old(self).signatures@.len() == 0 || view > old(self).signatures@.last().view)
                ==> {
                &&& r is Ok
                &&& final(self).signatures@ == old(self).signatures@.filter(
                    |s: StateSignature| in_window(s.view, view, old(self).retention),
                ).push(final(self).signatures@.last())
                &&& final(self).signatures@.last().view == view
                &&& final(self).signatures@.last().state_commitment@ == state_commitment@
                &&& final(self).signatures@.last().signature@ == signature@
            },
    {
        if self.retention == 0 {
            return Err(SignerError::NoRetention);
        }
        let n = self.signatures.len();
        if n > 0 && view <= self.signatures[n - 1].view {
            return Err(SignerError::StaleView);
        }
        let ghost src = self.signatures@;
        let ghost last_view = if src.len() > 0 { src.last().view } else { 0 };
        let ghost ret = self.retention;
        let ghost pred = |s: StateSignature| in_window(s.view, view, ret);
        proof {
            assert forall|k: int| 0 <= k < src.len() implies (#[trigger] src[k]).view < view by {
                if k < src.len() - 1 {
                    assert(src[k].view < src[src.len() - 1].view);
                }
            }
        }
        let mut i: usize = 0;
        let ghost mut j: int = 0;
        while i < self.signatures.len()
            invariant
                0 <= j <= src.len(),
                self.stake_table_commitment matches Some(c) ==> c@ == stake_table_commitment_of(
                    stake_models(self.stake_table@),
                ),
                ret == self.retention,
                ret > 0,
                pred == (|s: StateSignature| in_window(s.view, view, ret)),
                forall|k: int| 0 <= k < src.len() ==> (#[trigger] src[k]).view < view,
                i == src.take(j).filter(pred).len(),
                self.signatures@ == src.take(j).filter(pred) + src.subrange(j, src.len() as int),
            decreases self.signatures@.len() - i,
        {
            let ghost kept = src.take(j).filter(pred);
            proof {
                reveal(Seq::filter);
                assert(src.take(j + 1).drop_last() =~= src.take(j));
                assert(src.take(j + 1).last() == src[j]);
                assert(self.signatures@[i as int] == src[j]);
            }
            let keep = view - self.signatures[i].view < self.retention;
            assert(keep == pred(src[j]));
            if keep {
                assert(src.take(j + 1).filter(pred) == kept.push(src[j]));
                assert(self.signatures@ =~= src.take(j + 1).filter(pred) + src.subrange(j + 1, src.len() as int));
                i = i + 1;
            } else {
                self.signatures.remove(i);
                assert(src.take(j + 1).filter(pred) == kept);
                assert(self.signatures@ =~= src.take(j + 1).filter(pred) + src.subrange(j + 1, src.len() as int));
            }
            proof {
                j = j + 1;
            }
        }
        proof {
            assert(src.take(src.len() as int) =~= src);
            assert(self.signatures@ =~= src.filter(pred));
        }
        let ghost kept = self.signatures@;
        self.signatures.push(StateSignature { view, state_commitment, signature });
        proof {
            lemma_filter_increasing(src, pred);
            assert forall|k: int| 0 <= k < kept.len() implies (#[trigger] kept[k]).view < view
                && in_window(kept[k].view, view, ret) by {
                assert(kept.contains(kept[k]));
                src.lemma_filter_contains_rev(pred, kept[k]);
                src.lemma_filter_pred(pred, k);
            }
            let s = self.signatures@;
            assert forall|a: int, b: int| 0 <= a < b < s.len() implies (#[trigger] s[a]).view < (#[trigger] s[b]).view by {
                if b < kept.len() {
                    assert(s[a] == kept[a] && s[b] == kept[b]);
                } else {
                    assert(s[a] == kept[a]);
                }
            }
            assert forall|k: int| 0 <= k < s.len() implies in_window((#[trigger] s[k]).view, s.last().view, ret) by {
                if k < kept.len() {
                    assert(s[k] == kept[k]);
                }
            }
        }
        Ok(())
    }
}

/// Filtering keeps views strictly increasing.
proof fn lemma_filter_increasing(s: Seq<StateSignature>, pred: spec_fn(StateSignature) -> bool)
    requires
        forall|i: int, j: int| 0 <= i < j < s.len() ==> (#[trigger] s[i]).view < (#[trigger] s[j]).view,
    ensures
        forall|i: int, j: int|
            0 <= i < j < s.filter(pred).len() ==> (#[trigger] s.filter(pred)[i]).view < (#[trigger] s.filter(pred)[j]).view,
    decreases s.len(),
{
    reveal(Seq::filter);
    if s.len() > 0 {
        let rest = s.drop_last();
        assert forall|i: int, j: int| 0 <= i < j < rest.len() implies (#[trigger] rest[i]).view < (#[trigger] rest[j]).view by {
            assert(rest[i] == s[i] && rest[j] == s[j]);
        }
        lemma_filter_increasing(rest, pred);
        let f = rest.filter(pred);
        if pred(s.last()) {
            let g = f.push(s.last());
            assert forall|i: int, j: int| 0 <= i < j < g.len() implies (#[trigger] g[i]).view < (#[trigger] g[j]).view by {
                if j == f.len() as int {
                    assert(f.contains(f[i]));
                    rest.lemma_filter_contains_rev(pred, f[i]);
                    let m = choose|m: int| 0 <= m < rest.len() && rest[m] == f[i];
                    assert(s[m] == rest[m]);
                    assert(s.last() == s[s.len() - 1]);
                } else {
                    assert(g[i] == f[i] && g[j] == f[j]);
                }
            }
        }
    }
}

} // verus!
