//! Properties that relate several calls of the library, stated and proved over the
//! contracts of the functions involved.
use vstd::prelude::*;

use crate::block::{build_post, in_ns, strictly_sorted, table_ids, BuildBlockInfo};
use crate::bytes::byte_seqs;
use crate::ns_proof::{proof_checks, NsProof};
use crate::pool::{has_commitment, submit_post};
use crate::registry::{offer_post, survives_decide, AvailableBlock, BuilderError, BuilderState, GlobalState};
use crate::signer::{in_window, sig_views, StateSigner};
use crate::transaction::{tx_models, SubmitError, TxModel};

verus! {

/// Whether each state of `path` built its block on a path that included exactly what its
/// predecessor's path included plus the predecessor's block.
pub open spec fn is_fork_path(path: Seq<BuilderState>) -> bool {
    &&& forall|i: int| 0 <= i < path.len() ==> (#[trigger] path[i]).wf() && path[i].built is Some
    &&& forall|i: int|
        0 <= i < path.len() - 1 ==> byte_seqs((#[trigger] path[i + 1]).excluded@) == byte_seqs(
            path[i].excluded@,
        ) + path[i].built->Some_0.included()
}

/// Along a fork path, what an earlier block included is excluded later on.
proof fn lemma_included_later_excluded(path: Seq<BuilderState>, i: int, j: int, a: int)
    requires
        is_fork_path(path),
        0 <= i < j < path.len(),
        0 <= a < path[i].built->Some_0.included().len(),
    ensures
        byte_seqs(path[j].excluded@).contains(path[i].built->Some_0.included()[a]),
    decreases j - i,
{
    let c = path[i].built->Some_0.included()[a];
    let prev = j - 1;
    assert(byte_seqs(path[prev + 1].excluded@) == byte_seqs(path[prev].excluded@)
        + path[prev].built->Some_0.included());
    if prev == i {
        let n = byte_seqs(path[i].excluded@).len();
        assert(byte_seqs(path[j].excluded@)[n + a] == c);
    } else {
        lemma_included_later_excluded(path, i, prev, a);
        let k = choose|k: int| 0 <= k < byte_seqs(path[prev].excluded@).len() && byte_seqs(path[prev].excluded@)[k] == c;
        assert(byte_seqs(path[j].excluded@)[k] == c);
    }
}

/// No double inclusion: along a fork path, the blocks include pairwise disjoint sets of
/// transaction commitments.
pub proof fn lemma_no_double_inclusion(path: Seq<BuilderState>)
    requires
        is_fork_path(path),
    ensures
        forall|i: int, j: int, a: int, b: int|
            0 <= i < j < path.len() && 0 <= a < path[i].built->Some_0.included().len() && 0 <= b
                < path[j].built->Some_0.included().len() ==> (#[trigger] path[i].built->Some_0.included()[a])
                != (#[trigger] path[j].built->Some_0.included()[b]),
{
    assert forall|i: int, j: int, a: int, b: int|
        0 <= i < j < path.len() && 0 <= a < path[i].built->Some_0.included().len() && 0 <= b
            < path[j].built->Some_0.included().len() implies (#[trigger] path[i].built->Some_0.included()[a])
            != (#[trigger] path[j].built->Some_0.included()[b]) by {
        lemma_included_later_excluded(path, i, j, a);
        assert(path[j].wf());
    }
}

/// At most one build per fork: along any run of requests for one registered fork, only
/// the first request may change the registry (by building), and every request receives
/// the same offer.
pub proof fn lemma_requests_coalesce(
    gs: Seq<GlobalState>,
    rs: Seq<Result<AvailableBlock, BuilderError>>,
    view: u64,
    parent: Seq<u8>,
)
    requires
        rs.len() > 0,
        gs.len() == rs.len() + 1,
        forall|i: int| 0 <= i < gs.len() ==> (#[trigger] gs[i]).wf(),
        gs[0].has_fork((view, parent)),
        forall|i: int| 0 <= i < rs.len() ==> offer_post(gs[i], view, parent, gs[i + 1], #[trigger] rs[i]),
    ensures
        forall|i: int| 1 <= i < gs.len() ==> #[trigger] gs[i] == gs[1],
        forall|i: int|
            0 <= i < rs.len() ==> (#[trigger] rs[i]) is Ok && rs[i]->Ok_0.block_commitment@
                == rs[0]->Ok_0.block_commitment@ && rs[i]->Ok_0.offered_fee == rs[0]->Ok_0.offered_fee,
{
    let key = (view, parent);
    let idx = gs[0].fork_index(key);
    assert(offer_post(gs[0], view, parent, gs[1], rs[0]));
    assert(gs[1].states@[idx].key@ == key);
    gs[1].lemma_fork_index(key, idx);
    assert forall|i: int| 1 <= i < gs.len() implies #[trigger] gs[i] == gs[1] by {
        lemma_requests_stable(gs, rs, view, parent, idx, i);
    }
    assert forall|i: int| 0 <= i < rs.len() implies (#[trigger] rs[i]) is Ok && rs[i]->Ok_0.block_commitment@
        == rs[0]->Ok_0.block_commitment@ && rs[i]->Ok_0.offered_fee == rs[0]->Ok_0.offered_fee by {
        if i > 0 {
            lemma_requests_stable(gs, rs, view, parent, idx, i);
            lemma_requests_stable(gs, rs, view, parent, idx, i + 1);
            assert(offer_post(gs[i], view, parent, gs[i + 1], rs[i]));
        }
    }
}

/// After the first request, the registry stays as the first request left it.
proof fn lemma_requests_stable(
    gs: Seq<GlobalState>,
    rs: Seq<Result<AvailableBlock, BuilderError>>,
    view: u64,
    parent: Seq<u8>,
    idx: int,
    i: int,
)
    requires
        rs.len() > 0,
        gs.len() == rs.len() + 1,
        forall|k: int| 0 <= k < gs.len() ==> (#[trigger] gs[k]).wf(),
        gs[0].has_fork((view, parent)),
        forall|k: int| 0 <= k < rs.len() ==> offer_post(gs[k], view, parent, gs[k + 1], #[trigger] rs[k]),
        idx == gs[0].fork_index((view, parent)),
        gs[1].has_fork((view, parent)),
        gs[1].fork_index((view, parent)) == idx,
        1 <= i < gs.len(),
    ensures
        gs[i] == gs[1],
    decreases i,
{
    if i > 1 {
        lemma_requests_stable(gs, rs, view, parent, idx, i - 1);
        assert(offer_post(gs[i - 1], view, parent, gs[i], rs[i - 1]));
        assert(offer_post(gs[0], view, parent, gs[1], rs[0]));
        assert(gs[1].states@[idx].built is Some);
    }
}

/// Two strictly increasing sequences with the same elements are equal.
pub proof fn lemma_sorted_unique(a: Seq<u64>, b: Seq<u64>)
    requires
        strictly_sorted(a),
        strictly_sorted(b),
        forall|x: u64| a.contains(x) <==> b.contains(x),
    ensures
        a == b,
    decreases a.len(),
{
    if a.len() == 0 {
        if b.len() > 0 {
            assert(b.contains(b[0]));
        }
        assert(a =~= b);
    } else {
        assert(a.contains(a.last()));
        assert(b.len() > 0);
        assert(b.contains(b.last()));
        let ka = choose|k: int| 0 <= k < b.len() && b[k] == a.last();
        let kb = choose|k: int| 0 <= k < a.len() && a[k] == b.last();
        assert(a.last() == b.last()) by {
            if ka < b.len() - 1 {
                assert(b[ka] < b[b.len() - 1]);
            }
            if kb < a.len() - 1 {
                assert(a[kb] < a[a.len() - 1]);
            }
        }
        let a2 = a.drop_last();
        let b2 = b.drop_last();
        assert forall|x: u64| a2.contains(x) <==> b2.contains(x) by {
            if a2.contains(x) {
                let k = choose|k: int| 0 <= k < a2.len() && a2[k] == x;
                assert(a[k] < a[a.len() - 1]);
                assert(b.contains(x));
                let m = choose|m: int| 0 <= m < b.len() && b[m] == x;
                assert(m != b.len() - 1);
                assert(b2[m] == x);
            }
            if b2.contains(x) {
                let k = choose|k: int| 0 <= k < b2.len() && b2[k] == x;
                assert(b[k] < b[b.len() - 1]);
                assert(a.contains(x));
                let m = choose|m: int| 0 <= m < a.len() && a[m] == x;
                assert(m != a.len() - 1);
                assert(a2[m] == x);
            }
        }
        lemma_sorted_unique(a2, b2);
        assert(a =~= a2.push(a.last()));
        assert(b =~= b2.push(b.last()));
    }
}

/// Building is deterministic: two builds from the same pending transactions, exclusions,
/// fork, size budget and base fee give the same block.
pub proof fn lemma_build_deterministic(
    b1: BuildBlockInfo,
    b2: BuildBlockInfo,
    view: u64,
    parent: Seq<u8>,
    pending: Seq<TxModel>,
    excluded: Seq<Seq<u8>>,
    max_block_size: usize,
    base_fee: u64,
)
    requires
        build_post(b1, view, parent, pending, excluded, max_block_size, base_fee),
        build_post(b2, view, parent, pending, excluded, max_block_size, base_fee),
    ensures
        b1.view == b2.view,
        b1.parent@ == b2.parent@,
        b1.txs() == b2.txs(),
        b1.included() == b2.included(),
        tx_models(b1.payload@) == tx_models(b2.payload@),
        b1.ns_table@ == b2.ns_table@,
        b1.payload_size == b2.payload_size,
        b1.offered_fee == b2.offered_fee,
        b1.block_commitment@ == b2.block_commitment@,
{
    let txs = b1.txs();
    let ids1 = table_ids(b1.ns_table@);
    let ids2 = table_ids(b2.ns_table@);
    lemma_sorted_unique(ids1, ids2);
    assert forall|k: int| 0 <= k < b1.ns_table@.len() implies #[trigger] b1.ns_table@[k] == b2.ns_table@[k] by {
        let e1 = b1.ns_table@[k];
        let e2 = b2.ns_table@[k];
        assert(ids1[k] == e1.namespace && ids2[k] == e2.namespace);
        assert(tx_models(b1.payload@).subrange(e1.start as int, e1.end as int).len() == e1.end - e1.start);
        assert(tx_models(b2.payload@).subrange(e2.start as int, e2.end as int).len() == e2.end - e2.start);
    }
    assert(b1.ns_table@ =~= b2.ns_table@);
}

/// Submitting the same transaction twice: the second submission is refused as a
/// duplicate naming the same commitment, and the pool does not change.
pub proof fn lemma_submit_twice(
    before: Seq<TxModel>,
    capacity: nat,
    namespace: u64,
    payload: Seq<u8>,
    after_first: Seq<TxModel>,
    r1: Result<Vec<u8>, SubmitError>,
    after_second: Seq<TxModel>,
    r2: Result<Vec<u8>, SubmitError>,
)
    requires
        submit_post(before, capacity, namespace, payload, after_first, r1),
        submit_post(after_first, capacity, namespace, payload, after_second, r2),
        r1 is Ok,
    ensures
        r2 matches Err(SubmitError::Duplicate { commitment }) && commitment@ == r1->Ok_0@,
        after_second == after_first,
{
    assert(after_first[before.len() as int].commitment == r1->Ok_0@);
    assert(has_commitment(after_first, r1->Ok_0@));
}

/// The signature store is bounded: every stored view lies within `retention` views of the
/// latest, so at most `retention` signatures are stored.
pub proof fn lemma_signature_window(s: StateSigner)
    requires
        s.wf(),
        s.signatures@.len() > 0,
    ensures
        forall|i: int|
            0 <= i < s.signatures@.len() ==> (#[trigger] s.signatures@[i]).view + s.retention
                > s.signatures@.last().view,
        s.signatures@.len() <= s.retention,
{
    let n = s.signatures@.len();
    assert forall|i: int| 0 <= i < n implies (#[trigger] s.signatures@[i]).view + (n - 1 - i) <= s.signatures@.last().view by {
        lemma_views_spread(s, i);
    }
    assert(s.signatures@[0].view + (n - 1) <= s.signatures@.last().view);
    assert(in_window(s.signatures@[0].view, s.signatures@.last().view, s.retention));
}

/// Strictly increasing views spread at least one apart.
proof fn lemma_views_spread(s: StateSigner, i: int)
    requires
        s.wf(),
        0 <= i < s.signatures@.len(),
    ensures
        s.signatures@[i].view + (s.signatures@.len() - 1 - i) <= s.signatures@.last().view,
    decreases s.signatures@.len() - i,
{
    if i < s.signatures@.len() - 1 {
        lemma_views_spread(s, i + 1);
        assert(s.signatures@[i].view < s.signatures@[i + 1].view);
    }
}

/// Pruning: once every state of a registry survives the decide of `view` along `chain`
/// (as after `handle_decide`), no fork older than `view` and off the chain can be found.
pub proof fn lemma_pruned_unreachable(g: GlobalState, view: u64, chain: Seq<(u64, Seq<u8>)>, key: (u64, Seq<u8>))
    requires
        forall|i: int| 0 <= i < g.states@.len() ==> survives_decide((#[trigger] g.states@[i]).key@, view, chain),
        key.0 < view,
        !chain.contains(key),
    ensures
        !g.has_fork(key),
{
    if g.has_fork(key) {
        let i = choose|i: int| 0 <= i < g.states@.len() && (#[trigger] g.states@[i]).key@ == key;
        assert(survives_decide(g.states@[i].key@, view, chain));
    }
}

/// A view just recorded is found: after a signature for `view` is stored last, looking
/// `view` up finds it.
pub proof fn lemma_recorded_view_is_kept(s: StateSigner, view: u64)
    requires
        s.signatures@.len() > 0,
        s.signatures@.last().view == view,
    ensures
        sig_views(s.signatures@).contains(view),
{
    let n = s.signatures@.len() - 1;
    assert(sig_views(s.signatures@)[n] == view);
}

/// A namespace proof made from a well-formed block checks against that block.
pub proof fn lemma_prove_then_verify(block: BuildBlockInfo, ns: u64, p: NsProof)
    requires
        block.wf(),
        p.namespace == ns,
        tx_models(p.transactions@) == in_ns(block.txs(), ns),
        p.block_commitment@ == block.block_commitment@,
        p.ns_index < block.ns_table@.len(),
        block.ns_table@[p.ns_index as int] == (crate::block::NsRange { namespace: ns, start: p.start, end: p.end }),
    ensures
        proof_checks(p, block),
{
    let e = block.ns_table@[p.ns_index as int];
    assert(e.start <= e.end <= block.payload@.len());
}

} // verus!
