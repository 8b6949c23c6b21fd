//! The registry of builder states, one per fork, keyed by view and parent commitment.
use vstd::prelude::*;

use crate::block::{build_block, lemma_select_from, BuildBlockInfo};
use crate::bytes::{append_byte_list, byte_seqs, bytes_eq, copy_byte_list, copy_bytes};
use crate::transaction::{tx_models, Transaction};

verus! {

/// Identifies a fork: the view a block is built for and the commitment of its parent.
#[derive(Debug)]
pub struct ForkKey {
    pub view: u64,
    pub parent: Vec<u8>,
}

impl View for ForkKey {
    type V = (u64, Seq<u8>);

    open spec fn view(&self) -> (u64, Seq<u8>) {
        (self.view, self.parent@)
    }
}

/// The builder state of one fork.
#[derive(Debug)]
pub struct BuilderState {
    pub key: ForkKey,
    /// Commitments of the transactions that the blocks on this fork's path already include.
    pub excluded: Vec<Vec<u8>>,
    /// The block built for this fork, once built; it does not change afterwards.
    pub built: Option<BuildBlockInfo>,
}

/// What a fork's builder offers: the block commitment and the fee.
#[derive(Debug)]
pub struct AvailableBlock {
    pub block_commitment: Vec<u8>,
    pub offered_fee: u128,
    pub block_size: usize,
}

/// A quorum proposal: the block `block_commitment` for `view`, extending `parent`, with
/// the commitments of the transactions it includes.
#[derive(Debug)]
pub struct QuorumProposal {
    pub view: u64,
    pub parent: Vec<u8>,
    pub block_commitment: Vec<u8>,
    pub included: Vec<Vec<u8>>,
}

/// Why a registry request failed.
#[derive(Debug, PartialEq, Eq, Structural)]
pub enum BuilderError {
    /// No fork, block or parent with that identity is known.
    NotFound,
    /// The proposal's view is the last representable one; no later view can follow it.
    ViewOverflow,
}

/// Whether no included commitment of `b` is among `excluded`.
pub open spec fn disjoint_from(b: BuildBlockInfo, excluded: Seq<Seq<u8>>) -> bool {
    forall|i: int| 0 <= i < b.included().len() ==> !excluded.contains(#[trigger] b.included()[i])
}

impl BuilderState {
    /// A built block belongs to this fork, is well formed, and repeats nothing the fork's
    /// path already included.
    pub open spec fn wf(&self) -> bool {
        self.built matches Some(b) ==> {
            &&& b.wf()
            &&& b.view == self.key.view
            &&& b.parent@ == self.key.parent@
            &&& disjoint_from(b, byte_seqs(self.excluded@))
        }
    }

    /// The offer of a built state.
    pub open spec fn offer(&self) -> Option<(Seq<u8>, u128)> {
        match self.built {
            Some(b) => Some((b.block_commitment@, b.offered_fee)),
            None => None,
        }
    }
}

/// The registry of builder states and the parameters blocks are built with.
pub struct GlobalState {
    pub states: Vec<BuilderState>,
    pub last_decided_view: u64,
    pub max_block_size: usize,
    pub base_fee: u64,
}

/// Whether a state keyed `key` stays after a decide of `view` along `chain`.
pub open spec fn survives_decide(key: (u64, Seq<u8>), view: u64, chain: Seq<(u64, Seq<u8>)>) -> bool {
    key.0 >= view || chain.contains(key)
}

/// The keys of a chain of forks.
pub open spec fn chain_keys(chain: Seq<ForkKey>) -> Seq<(u64, Seq<u8>)> {
    chain.map_values(|k: ForkKey| k@)
}

impl GlobalState {
    /// Keys are unique and every state is well formed.
    pub open spec fn wf(&self) -> bool {
        &&& forall|i: int, j: int|
            0 <= i < self.states@.len() && 0 <= j < self.states@.len() && i != j
                ==> (#[trigger] self.states@[i]).key@ != (#[trigger] self.states@[j]).key@
        &&& forall|i: int| 0 <= i < self.states@.len() ==> (#[trigger] self.states@[i]).wf()
    }

    /// Whether a state for the fork `key` is registered.
    pub open spec fn has_fork(&self, key: (u64, Seq<u8>)) -> bool {
        exists|i: int| 0 <= i < self.states@.len() && (#[trigger] self.states@[i]).key@ == key
    }

    /// The position of the state for `key`, where there is one.
    pub open spec fn fork_index(&self, key: (u64, Seq<u8>)) -> int {
        choose|i: int| 0 <= i < self.states@.len() && (#[trigger] self.states@[i]).key@ == key
    }

    /// A registry with one state, for `view` on `genesis`.
    pub fn new(view: u64, genesis: Vec<u8>, max_block_size: usize, base_fee: u64) -> (r: GlobalState)
        ensures
            r.wf(),
            r.states@.len() == 1,
            r.states@[0].key@ == (view, genesis@),
            r.states@[0].excluded@.len() == 0,
            r.states@[0].built is None,
            r.last_decided_view == 0,
            r.max_block_size == max_block_size,
            r.base_fee == base_fee,
    {
        let mut states: Vec<BuilderState> = Vec::new();
        states.push(BuilderState { key: ForkKey { view, parent: genesis }, excluded: Vec::new(), built: None });
        GlobalState { states, last_decided_view: 0, max_block_size, base_fee }
    }

    /// Finds the state for the fork `(view, parent)`.
    pub fn find(&self, view: u64, parent: &Vec<u8>) -> (r: Option<usize>)
        ensures
            r matches Some(i) ==> (i < self.states@.len() && self.states@[i as int].key@ == (view, parent@)),
            r is None <==> !self.has_fork((view, parent@)),
    {
        let mut i: usize = 0;
        while i < self.states.len()
            invariant
                i <= self.states@.len(),
                forall|k: int| 0 <= k < i ==> (#[trigger] self.states@[k]).key@ != (view, parent@),
            decreases self.states@.len() - i,
        {
            if self.states[i].key.view == view && bytes_eq(&self.states[i].key.parent, parent) {
                return Some(i);
            }
            i = i + 1;
        }
        None
    }

    /// Registers a fork with the commitments its path already includes. Where the fork is
    /// registered already nothing changes; either way the fork's position is returned.
    pub fn register_fork(&mut self, key: ForkKey, excluded: Vec<Vec<u8>>) -> (r: usize)
        requires
            old(self).wf(),
        ensures
            final(self).wf(),
            r < final(self).states@.len(),
            final(self).states@[r as int].key@ == key@,
            old(self).has_fork(key@) ==> *final(self) == *old(self),
            !old(self).has_fork(key@) ==> {
                &&& final(self).states@ == old(self).states@.push(final(self).states@[r as int])
                &&& final(self).states@[r as int].built is None
                &&& byte_seqs(final(self).states@[r as int].excluded@) == byte_seqs(excluded@)
                &&& final(self).last_decided_view == old(self).last_decided_view
                &&& final(self).max_block_size == old(self).max_block_size
                &&& final(self).base_fee == old(self).base_fee
            },
    {
        match self.find(key.view, &key.parent) {
            Some(i) => i,
            None => {
                let ghost before = self.states@;
                let ghost k = key@;
                self.states.push(BuilderState { key, excluded, built: None });
                assert(self.states@[before.len() as int].key@ == k);
                assert forall|i: int, j: int|
                    0 <= i < self.states@.len() && 0 <= j < self.states@.len() && i != j
                        implies (#[trigger] self.states@[i]).key@ != (#[trigger] self.states@[j]).key@ by {
                    if i < before.len() && j < before.len() {
                        assert(self.states@[i] == before[i] && self.states@[j] == before[j]);
                    } else if i < before.len() {
                        assert(self.states@[i] == before[i]);
                    } else if j < before.len() {
                        assert(self.states@[j] == before[j]);
                    }
                }
                assert forall|i: int| 0 <= i < self.states@.len() implies (#[trigger] self.states@[i]).wf() by {
                    if i < before.len() {
                        assert(self.states@[i] == before[i]);
                    }
                }
                self.states.len() - 1
            },
        }
    }
}

/// Whether `a` is the first position of `states` whose fork has parent `parent`.
pub open spec fn is_first_with_parent(states: Seq<BuilderState>, parent: Seq<u8>, a: int) -> bool {
    &&& 0 <= a < states.len()
    &&& states[a].key.parent@ == parent
    &&& forall|j: int| 0 <= j < a ==> (#[trigger] states[j]).key.parent@ != parent
}

/// What a request for the fork `(view, parent)` does to the registry and returns: an
/// unknown fork gives `NotFound` and changes nothing; a known fork's state is built if it
/// was not, nothing else changes, and the offer returned is the state's cached one.
pub open spec fn offer_post(
    old: GlobalState,
    view: u64,
    parent: Seq<u8>,
    new: GlobalState,
    r: Result<AvailableBlock, BuilderError>,
) -> bool {
    if !old.has_fork((view, parent)) {
        r == Err::<AvailableBlock, BuilderError>(BuilderError::NotFound) && new == old
    } else {
        let i = old.fork_index((view, parent));
        &&& new.states@.len() == old.states@.len()
        &&& forall|j: int| 0 <= j < old.states@.len() && j != i ==> new.states@[j] == old.states@[j]
        &&& new.states@[i].key == old.states@[i].key
        &&& new.states@[i].excluded == old.states@[i].excluded
        &&& old.states@[i].built is Some ==> new == old
        &&& new.states@[i].built is Some
        &&& new.last_decided_view == old.last_decided_view
        &&& new.max_block_size == old.max_block_size
        &&& new.base_fee == old.base_fee
        &&& (r matches Ok(a) && new.states@[i].offer() == Some((a.block_commitment@, a.offered_fee)))
    }
}

/// What a quorum proposal does to the registry `old` and returns: on the last view it is
/// refused with `ViewOverflow`; when no state has the proposal's parent, with `NotFound`;
/// otherwise the fork for the next view on the proposed block is registered (unless it is
/// already), its path including what the first state with that parent excludes plus the
/// proposal's transactions. A refusal changes nothing.
pub open spec fn proposal_post(old: GlobalState, p: QuorumProposal, new: GlobalState, r: Result<usize, BuilderError>) -> bool {
    let key = ((p.view + 1) as u64, p.block_commitment@);
    if p.view == u64::MAX {
        r == Err::<usize, BuilderError>(BuilderError::ViewOverflow) && new == old
    } else if forall|j: int| 0 <= j < old.states@.len() ==> (#[trigger] old.states@[j]).key.parent@ != p.parent@ {
        r == Err::<usize, BuilderError>(BuilderError::NotFound) && new == old
    } else {
        &&& r is Ok
        &&& r->Ok_0 < new.states@.len()
        &&& new.states@[r->Ok_0 as int].key@ == key
        &&& old.has_fork(key) ==> new == old
        &&& !old.has_fork(key) ==> {
            &&& new.states@ == old.states@.push(new.states@[r->Ok_0 as int])
            &&& new.states@[r->Ok_0 as int].built is None
            &&& new.last_decided_view == old.last_decided_view
            &&& new.max_block_size == old.max_block_size
            &&& new.base_fee == old.base_fee
            &&& exists|a: int| is_first_with_parent(old.states@, p.parent@, a)
                && byte_seqs(new.states@[r->Ok_0 as int].excluded@) == byte_seqs(old.states@[a].excluded@)
                + byte_seqs(p.included@)
        }
    }
}

/// Whether some state holds a built block with commitment `c`.
pub open spec fn has_block(states: Seq<BuilderState>, c: Seq<u8>) -> bool {
    exists|i: int|
        0 <= i < states.len() && ((#[trigger] states[i]).built matches Some(b) && b.block_commitment@ == c)
}

/// Whether the fork `key` is one of `chain`.
fn chain_contains(chain: &Vec<ForkKey>, key: &ForkKey) -> (r: bool)
    ensures
        r == chain_keys(chain@).contains(key@),
{
    let mut i: usize = 0;
    while i < chain.len()
        invariant
            i <= chain@.len(),
            forall|k: int| 0 <= k < i ==> (#[trigger] chain@[k])@ != key@,
        decreases chain@.len() - i,
    {
        if chain[i].view == key.view && bytes_eq(&chain[i].parent, &key.parent) {
            assert(chain_keys(chain@)[i as int] == key@);
            return true;
        }
        i = i + 1;
    }
    assert(!chain_keys(chain@).contains(key@)) by {
        if chain_keys(chain@).contains(key@) {
            let k = choose|k: int| 0 <= k < chain_keys(chain@).len() && chain_keys(chain@)[k] == key@;
            assert(chain@[k]@ == key@);
        }
    }
    false
}

impl GlobalState {
    /// The state found for a key is the one `fork_index` names.
    pub proof fn lemma_fork_index(&self, key: (u64, Seq<u8>), i: int)
        requires
            self.wf(),
            0 <= i < self.states@.len(),
            self.states@[i].key@ == key,
        ensures
            self.has_fork(key),
            self.fork_index(key) == i,
    {
        assert(self.has_fork(key));
        let j = self.fork_index(key);
        if j != i {
            assert(self.states@[j].key@ != self.states@[i].key@);
        }
    }

    /// Offers the block of the fork `(view, parent)`, building it from `pending` on the
    /// first request and answering every later request from the cached block.
    pub fn get_available_blocks(&mut self, view: u64, parent: &Vec<u8>, pending: &Vec<Transaction>) -> (r:
        Result<AvailableBlock, BuilderError>)
        requires
            old(self).wf(),
        ensures
            final(self).wf(),
            offer_post(*old(self), view, parent@, *final(self), r),
            old(self).has_fork((view, parent@)) && old(self).states@[old(self).fork_index(
                (view, parent@),
            )].built is None ==> ({
                let i = old(self).fork_index((view, parent@));
                (final(self).states@[i].built matches Some(b) && b.txs() == crate::block::select(
                    tx_models(pending@),
                    byte_seqs(old(self).states@[i].excluded@),
                    old(self).max_block_size as nat,
                ) && b.offered_fee == old(self).base_fee * b.payload_size)
            }),
    {
        let idx = match self.find(view, parent) {
            None => return Err(BuilderError::NotFound),
            Some(i) => i,
        };
        proof {
            self.lemma_fork_index((view, parent@), idx as int);
        }
        match &self.states[idx].built {
            Some(b) => {
                return Ok(
                    AvailableBlock {
                        block_commitment: copy_bytes(&b.block_commitment),
                        offered_fee: b.offered_fee,
                        block_size: b.payload_size,
                    },
                );
            },
            None => {},
        }
        let b = build_block(
            view,
            parent,
            pending,
            &self.states[idx].excluded,
            self.max_block_size,
            self.base_fee,
        );
        proof {
            let ex = byte_seqs(self.states@[idx as int].excluded@);
            lemma_select_from(tx_models(pending@), ex, self.max_block_size as nat);
            assert forall|i: int| 0 <= i < b.included().len() implies !ex.contains(#[trigger] b.included()[i]) by {
                assert(b.included()[i] == b.txs()[i].commitment);
            }
        }
        let offer = AvailableBlock {
            block_commitment: copy_bytes(&b.block_commitment),
            offered_fee: b.offered_fee,
            block_size: b.payload_size,
        };
        let ghost before = self.states@;
        let mut st = self.states.remove(idx);
        st.built = Some(b);
        self.states.insert(idx, st);
        proof {
            assert(self.states@ =~= before.update(idx as int, self.states@[idx as int]));
            assert forall|i: int, j: int|
                0 <= i < self.states@.len() && 0 <= j < self.states@.len() && i != j
                    implies (#[trigger] self.states@[i]).key@ != (#[trigger] self.states@[j]).key@ by {
                assert(self.states@[i].key == before[i].key && self.states@[j].key == before[j].key);
            }
            assert forall|i: int| 0 <= i < self.states@.len() implies (#[trigger] self.states@[i]).wf() by {
                if i != idx {
                    assert(self.states@[i] == before[i]);
                }
            }
        }
        Ok(offer)
    }

    /// Hands out the block offered under `commitment`; `NotFound` when no registered fork
    /// holds such a block.
    pub fn claim_block(&self, commitment: &Vec<u8>) -> (r: Result<&BuildBlockInfo, BuilderError>)
        ensures
            r matches Ok(b) ==> (b.block_commitment@ == commitment@ && (exists|i: int|
                0 <= i < self.states@.len() && (#[trigger] self.states@[i]).built == Some(*b))),
            r is Err <==> !has_block(self.states@, commitment@),
            r is Err ==> r == Err::<&BuildBlockInfo, BuilderError>(BuilderError::NotFound),
    {
        let mut i: usize = 0;
        while i < self.states.len()
            invariant
                i <= self.states@.len(),
                forall|k: int| 0 <= k < i ==> !((#[trigger] self.states@[k]).built matches Some(b)
                    && b.block_commitment@ == commitment@),
            decreases self.states@.len() - i,
        {
            match &self.states[i].built {
                Some(b) => {
                    if bytes_eq(&b.block_commitment, commitment) {
                        return Ok(b);
                    }
                },
                None => {},
            }
            i = i + 1;
        }
        Err(BuilderError::NotFound)
    }

    /// Finds the first state whose fork has parent `parent`.
    fn first_with_parent(&self, parent: &Vec<u8>) -> (r: Option<usize>)
        ensures
            r matches Some(a) ==> is_first_with_parent(self.states@, parent@, a as int),
            r is None ==> forall|j: int| 0 <= j < self.states@.len() ==> (#[trigger] self.states@[j]).key.parent@ != parent@,
    {
        let mut i: usize = 0;
        while i < self.states.len()
            invariant
                i <= self.states@.len(),
                forall|j: int| 0 <= j < i ==> (#[trigger] self.states@[j]).key.parent@ != parent@,
            decreases self.states@.len() - i,
        {
            if bytes_eq(&self.states[i].key.parent, parent) {
                return Some(i);
            }
            i = i + 1;
        }
        None
    }

    /// Registers the fork that builds on a proposed block, for the view after it. Its
    /// path includes what the path of the proposal's parent included, taken from the first
    /// state with that parent, and the proposal's own transactions. Fails with `NotFound`
    /// when no state has that parent, and with `ViewOverflow` on the last view.
    pub fn handle_quorum_proposal(&mut self, p: &QuorumProposal) -> (r: Result<usize, BuilderError>)
        requires
            old(self).wf(),
        ensures
            final(self).wf(),
            proposal_post(*old(self), *p, *final(self), r),
    {
        if p.view == u64::MAX {
            return Err(BuilderError::ViewOverflow);
        }
        let a = match self.first_with_parent(&p.parent) {
            None => return Err(BuilderError::NotFound),
            Some(a) => a,
        };
        let mut excluded = copy_byte_list(&self.states[a].excluded);
        append_byte_list(&mut excluded, &p.included);
        let key = ForkKey { view: p.view + 1, parent: copy_bytes(&p.block_commitment) };
        let i = self.register_fork(key, excluded);
        Ok(i)
    }
}

impl GlobalState {
    /// Prunes the registry after the decide of `view` along `chain`: a state stays only
    /// when its view is not older than `view` or its fork is on the decided chain.
    pub fn handle_decide(&mut self, view: u64, chain: &Vec<ForkKey>)
        requires
            old(self).wf(),
        ensures
            final(self).wf(),
            final(self).states@ == old(self).states@.filter(
                |s: BuilderState| survives_decide(s.key@, view, chain_keys(chain@)),
            ),
            forall|i: int|
                0 <= i < final(self).states@.len() ==> survives_decide(
                    (#[trigger] final(self).states@[i]).key@,
                    view,
                    chain_keys(chain@),
                ),
            final(self).last_decided_view == if view > old(self).last_decided_view {
                view
            } else {
                old(self).last_decided_view
            },
            final(self).max_block_size == old(self).max_block_size,
            final(self).base_fee == old(self).base_fee,
    {
        let ghost src = self.states@;
        let ghost (d0, m0, f0) = (self.last_decided_view, self.max_block_size, self.base_fee);
        let ghost ck = chain_keys(chain@);
        let ghost pred = |s: BuilderState| survives_decide(s.key@, view, ck);
        let mut i: usize = 0;
        let ghost mut j: int = 0;
        while i < self.states.len()
            invariant
                0 <= j <= src.len(),
                d0 == old(self).last_decided_view && m0 == old(self).max_block_size && f0 == old(self).base_fee,
                self.last_decided_view == d0 && self.max_block_size == m0 && self.base_fee == f0,
                ck == chain_keys(chain@),
                pred == (|s: BuilderState| survives_decide(s.key@, view, ck)),
                i == src.take(j).filter(pred).len(),
                self.states@ == src.take(j).filter(pred) + src.subrange(j, src.len() as int),
            decreases self.states@.len() - i,
        {
            let ghost kept = src.take(j).filter(pred);
            proof {
                reveal(Seq::filter);
                assert(src.take(j + 1).drop_last() =~= src.take(j));
                assert(src.take(j + 1).last() == src[j]);
                assert(self.states@[i as int] == src[j]);
            }
            let keep = self.states[i].key.view >= view || chain_contains(chain, &self.states[i].key);
            assert(keep == pred(src[j]));
            if keep {
                assert(src.take(j + 1).filter(pred) == kept.push(src[j]));
                assert(self.states@ =~= src.take(j + 1).filter(pred) + src.subrange(j + 1, src.len() as int));
                i = i + 1;
            } else {
                self.states.remove(i);
                assert(src.take(j + 1).filter(pred) == kept);
                assert(self.states@ =~= src.take(j + 1).filter(pred) + src.subrange(j + 1, src.len() as int));
            }
            proof {
                j = j + 1;
            }
        }
        proof {
            assert(src.take(src.len() as int) =~= src);
            assert(self.states@ =~= src.filter(pred));
            lemma_filter_distinct_keys(src, pred);
            assert forall|k: int| 0 <= k < self.states@.len() implies {
                &&& (#[trigger] self.states@[k]).wf()
                &&& survives_decide(self.states@[k].key@, view, ck)
            } by {
                assert(self.states@.contains(self.states@[k]));
                src.lemma_filter_contains_rev(pred, self.states@[k]);
                src.lemma_filter_pred(pred, k);
            }
        }
        if view > self.last_decided_view {
            self.last_decided_view = view;
        }
    }
}

/// Filtering keeps keys distinct.
proof fn lemma_filter_distinct_keys(s: Seq<BuilderState>, pred: spec_fn(BuilderState) -> bool)
    requires
        forall|i: int, j: int|
            0 <= i < s.len() && 0 <= j < s.len() && i != j ==> (#[trigger] s[i]).key@ != (#[trigger] s[j]).key@,
    ensures
        forall|i: int, j: int|
            0 <= i < s.filter(pred).len() && 0 <= j < s.filter(pred).len() && i != j
                ==> (#[trigger] s.filter(pred)[i]).key@ != (#[trigger] s.filter(pred)[j]).key@,
    decreases s.len(),
{
    reveal(Seq::filter);
    if s.len() > 0 {
        let rest = s.drop_last();
        assert forall|i: int, j: int|
            0 <= i < rest.len() && 0 <= j < rest.len() && i != j implies (#[trigger] rest[i]).key@
                != (#[trigger] rest[j]).key@ by {
            assert(rest[i] == s[i] && rest[j] == s[j]);
        }
        lemma_filter_distinct_keys(rest, pred);
        let f = rest.filter(pred);
        if pred(s.last()) {
            let g = f.push(s.last());
            assert forall|i: int, j: int|
                0 <= i < g.len() && 0 <= j < g.len() && i != j implies (#[trigger] g[i]).key@
                    != (#[trigger] g[j]).key@ by {
                if i == f.len() as int || j == f.len() as int {
                    let k = if i == f.len() as int { j } else { i };
                    assert(f.contains(f[k]));
                    rest.lemma_filter_contains_rev(pred, f[k]);
                    let m = choose|m: int| 0 <= m < rest.len() && rest[m] == f[k];
                    assert(s[m] == rest[m]);
                    assert(s.last() == s[s.len() - 1]);
                }
            }
        }
    }
}

} // verus!
