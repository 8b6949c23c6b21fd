use espresso_builder::env_vars::{get_public_env_vars, public_env_entries, str_lt, variable_names, EnvConfigError};
use espresso_builder::registry::{BuilderError, ForkKey, GlobalState, QuorumProposal};
use espresso_builder::relay::{Builder, DecideEvent, Event, EventBuffer, ReplayError};
use espresso_builder::pool::TransactionPool;
use espresso_builder::signer::{compute_stake_table_commitment, SignerError, StakeTableEntry, StateSigner};
use espresso_builder::transaction::Transaction;

fn keccak(data: &[u8]) -> Vec<u8> {
    <sha3::Keccak256 as sha3::Digest>::digest(data).to_vec()
}

fn tx(ns: u64, payload: &[u8]) -> Transaction {
    Transaction::new(ns, payload.to_vec()).unwrap()
}

fn key(view: u64, parent: &[u8]) -> ForkKey {
    ForkKey { view, parent: parent.to_vec() }
}

#[test]
fn repeated_requests_build_once() {
    let mut g = GlobalState::new(1, vec![0], 100, 1);
    let mut pending = vec![tx(1, &[1])];
    let first = g.get_available_blocks(1, &vec![0], &pending).unwrap();
    pending.push(tx(1, &[2]));
    for _ in 0..5 {
        let again = g.get_available_blocks(1, &vec![0], &pending).unwrap();
        assert_eq!(again.block_commitment, first.block_commitment);
        assert_eq!(again.offered_fee, first.offered_fee);
    }
    let built = g.states[0].built.as_ref().unwrap();
    assert_eq!(built.transactions.len(), 1);
}

#[test]
fn request_for_unknown_fork_is_not_found() {
    let mut g = GlobalState::new(1, vec![0], 100, 1);
    assert_eq!(g.get_available_blocks(2, &vec![0], &vec![]).err(), Some(BuilderError::NotFound));
    assert_eq!(g.get_available_blocks(1, &vec![1], &vec![]).err(), Some(BuilderError::NotFound));
    assert!(g.states[0].built.is_none());
}

#[test]
fn claim_returns_offered_block() {
    let mut g = GlobalState::new(1, vec![0], 100, 1);
    let offer = g.get_available_blocks(1, &vec![0], &vec![tx(1, &[5])]).unwrap();
    let b = g.claim_block(&offer.block_commitment).unwrap();
    assert_eq!(b.block_commitment, offer.block_commitment);
    assert_eq!(b.transactions[0].payload, vec![5]);
    assert_eq!(g.claim_block(&vec![1; 32]).err(), Some(BuilderError::NotFound));
}

#[test]
fn register_fork_is_idempotent() {
    let mut g = GlobalState::new(1, vec![0], 100, 1);
    let i = g.register_fork(key(2, &[9]), vec![vec![1]]);
    let j = g.register_fork(key(2, &[9]), vec![]);
    assert_eq!(i, j);
    assert_eq!(g.states.len(), 2);
    assert_eq!(g.states[i].excluded, vec![vec![1]]);
}

#[test]
fn child_fork_never_repeats_parent_transactions() {
    let mut g = GlobalState::new(1, vec![0], 100, 1);
    let pending = vec![tx(1, &[1]), tx(2, &[2])];
    let offer = g.get_available_blocks(1, &vec![0], &pending).unwrap();
    let included: Vec<Vec<u8>> = g.states[0].built.as_ref().unwrap().transactions.iter().map(|t| t.commitment.clone()).collect();
    let p = QuorumProposal { view: 1, parent: vec![0], block_commitment: offer.block_commitment.clone(), included };
    let i = g.handle_quorum_proposal(&p).unwrap();
    assert_eq!(g.states[i].key.view, 2);
    let mut more = pending.clone();
    more.push(tx(3, &[3]));
    let child = g.get_available_blocks(2, &offer.block_commitment, &more).unwrap();
    let b = g.claim_block(&child.block_commitment).unwrap();
    let got: Vec<Vec<u8>> = b.transactions.iter().map(|t| t.payload.clone()).collect();
    assert_eq!(got, vec![vec![3]]);
}

#[test]
fn proposal_errors() {
    let mut g = GlobalState::new(1, vec![0], 100, 1);
    let unknown = QuorumProposal { view: 1, parent: vec![5], block_commitment: vec![6], included: vec![] };
    assert_eq!(g.handle_quorum_proposal(&unknown).err(), Some(BuilderError::NotFound));
    let last = QuorumProposal { view: u64::MAX, parent: vec![0], block_commitment: vec![6], included: vec![] };
    assert_eq!(g.handle_quorum_proposal(&last).err(), Some(BuilderError::ViewOverflow));
    assert_eq!(g.states.len(), 1);
}

#[test]
fn decide_prunes_old_forks_off_the_chain() {
    let mut g = GlobalState::new(1, vec![0], 100, 1);
    g.register_fork(key(2, &[1]), vec![]);
    g.register_fork(key(2, &[2]), vec![]);
    g.register_fork(key(3, &[3]), vec![]);
    g.register_fork(key(5, &[4]), vec![]);
    g.handle_decide(3, &vec![key(2, &[1])]);
    let left: Vec<(u64, Vec<u8>)> = g.states.iter().map(|s| (s.key.view, s.key.parent.clone())).collect();
    assert_eq!(left, vec![(2, vec![1]), (3, vec![3]), (5, vec![4])]);
    assert_eq!(g.last_decided_view, 3);
    g.handle_decide(2, &vec![]);
    assert_eq!(g.last_decided_view, 3);
}

#[test]
fn signatures_for_three_views_in_order() {
    let mut s = StateSigner::new(3);
    for v in 1..=3u64 {
        s.record(v, vec![v as u8], vec![0xa0 + v as u8]).unwrap();
    }
    for v in 1..=3u64 {
        let sig = s.get_signature(v).unwrap();
        assert_eq!(sig.view, v);
        assert_eq!(sig.state_commitment, vec![v as u8]);
    }
}

#[test]
fn signature_window_drops_old_views() {
    let mut s = StateSigner::new(2);
    for v in 1..=4u64 {
        s.record(v, vec![], vec![]).unwrap();
    }
    let views: Vec<u64> = s.signatures.iter().map(|x| x.view).collect();
    assert_eq!(views, vec![3, 4]);
    assert!(s.get_signature(2).is_none());
    s.record(10, vec![], vec![]).unwrap();
    let views: Vec<u64> = s.signatures.iter().map(|x| x.view).collect();
    assert_eq!(views, vec![10]);
}

#[test]
fn signature_errors() {
    let mut s = StateSigner::new(2);
    s.record(5, vec![], vec![]).unwrap();
    assert_eq!(s.record(5, vec![], vec![]), Err(SignerError::StaleView));
    assert_eq!(s.record(4, vec![], vec![]), Err(SignerError::StaleView));
    let mut none = StateSigner::new(0);
    assert_eq!(none.record(1, vec![], vec![]), Err(SignerError::NoRetention));
}

fn entry(k: &[u8], stake: u64, v: &[u8]) -> StakeTableEntry {
    StakeTableEntry { stake_key: k.to_vec(), stake_amount: stake, state_ver_key: v.to_vec() }
}

#[test]
fn stake_table_commitment_encoding() {
    let table = vec![entry(&[1, 2], 7, &[3])];
    let mut data = 2u64.to_le_bytes().to_vec();
    data.extend_from_slice(&[1, 2]);
    data.extend_from_slice(&7u64.to_le_bytes());
    data.extend_from_slice(&1u64.to_le_bytes());
    data.push(3);
    assert_eq!(compute_stake_table_commitment(&table), keccak(&data));
}

#[test]
fn state_commitment_uses_cached_stake_table() {
    let mut s = StateSigner::new(2);
    let t1 = vec![entry(&[1], 1, &[1])];
    let t2 = vec![entry(&[2], 1, &[1])];
    let c1 = s.stake_table_commitment(&t1);
    assert_eq!(s.stake_table_commitment(&t1), c1);
    let c2 = s.stake_table_commitment(&t2);
    assert_ne!(c1, c2);
    assert_eq!(c2, compute_stake_table_commitment(&t2));
    let st = s.state_commitment(&vec![9, 9], &t2);
    let mut data = c2.clone();
    data.extend_from_slice(&[9, 9]);
    assert_eq!(st, keccak(&data));
}

#[test]
fn relay_drives_registry_and_pool() {
    let mut pool = TransactionPool::new(10);
    let a = pool.submit(1, vec![1]).unwrap();
    pool.submit(1, vec![2]).unwrap();
    let mut b = Builder { pool, registry: GlobalState::new(1, vec![0], 100, 1) };
    let p = QuorumProposal { view: 1, parent: vec![0], block_commitment: vec![7], included: vec![a.clone()] };
    assert_eq!(b.handle_event(&Event::QuorumProposal(p)), Ok(None));
    assert_eq!(b.registry.states.len(), 2);
    let d = DecideEvent { view: 2, leaf_chain: vec![], included: vec![a] };
    assert_eq!(b.handle_event(&Event::Decide(d)), Ok(Some(2)));
    assert_eq!(b.pool.len(), 1);
    assert_eq!(b.registry.states.len(), 1);
    assert_eq!(b.registry.states[0].key.view, 2);
}

#[test]
fn event_buffer_drops_oldest() {
    let mut buf: EventBuffer<u32> = EventBuffer::new(2).unwrap();
    assert!(EventBuffer::<u32>::new(0).is_none());
    buf.publish(10);
    buf.publish(11);
    buf.publish(12);
    assert_eq!(buf.get(0), Err(ReplayError::Lagged));
    assert_eq!(buf.get(1), Ok(&11));
    assert_eq!(buf.get(2), Ok(&12));
    assert_eq!(buf.get(3), Err(ReplayError::NotYet));
    assert_eq!(buf.next_seq(), 3);
}

#[test]
fn env_entries_sorted_unique_with_last_value() {
    let names = vec!["B".to_string(), "A".to_string(), "B".to_string(), "a".to_string(), "AB".to_string()];
    let vars = vec![
        ("A".to_string(), "1".to_string()),
        ("C".to_string(), "3".to_string()),
        ("A".to_string(), "2".to_string()),
        ("a".to_string(), "x".to_string()),
    ];
    let got = public_env_entries(&names, &vars);
    assert_eq!(got, vec!["A=2", "AB=", "B=", "a=x"]);
    assert!(public_env_entries(&vec![], &vars).is_empty());
}

#[test]
fn string_order_is_by_code_point() {
    assert!(str_lt(&"B".to_string(), &"a".to_string()));
    assert!(str_lt(&"A".to_string(), &"AB".to_string()));
    assert!(!str_lt(&"AB".to_string(), &"A".to_string()));
    assert!(!str_lt(&"A".to_string(), &"A".to_string()));
    assert!(str_lt(&"".to_string(), &"A".to_string()));
}

#[test]
fn variable_names_from_configuration() {
    let names = variable_names("variables = [\"B\", \"A\"]\n").unwrap();
    assert_eq!(names, vec!["B".to_string(), "A".to_string()]);
    assert!(matches!(variable_names("other = 1\n"), Err(EnvConfigError::MissingVariables)));
    assert!(matches!(variable_names("variables = 3\n"), Err(EnvConfigError::NotAnArray)));
    assert!(matches!(variable_names("variables = [1]\n"), Err(EnvConfigError::NotAString)));
    assert!(matches!(variable_names("variables = [\n"), Err(EnvConfigError::Parse(_))));
}

#[test]
fn public_env_vars_from_configuration() {
    let vars = vec![("A".to_string(), "1".to_string())];
    let got = get_public_env_vars("variables = [\"B\", \"A\", \"A\"]\n", &vars).unwrap();
    assert_eq!(got, vec!["A=1", "B="]);
}

#[test]
fn drain_candidates_skips_excluded_and_oversized() {
    let mut pool = TransactionPool::new(10);
    let a = pool.submit(1, vec![1, 1]).unwrap();
    pool.submit(1, vec![2, 2, 2]).unwrap();
    pool.submit(2, vec![3]).unwrap();
    let got: Vec<Vec<u8>> = pool.drain_candidates(&vec![a], 2).iter().map(|t| t.payload.clone()).collect();
    assert_eq!(got, vec![vec![3]]);
    assert_eq!(pool.len(), 3);
}
