use espresso_builder::block::{build_block, NsRange};
use espresso_builder::bytes::push_u64_le;
use espresso_builder::ns_proof::{find_ns_id, namespace_proof_query, prove, verify};
use espresso_builder::pool::TransactionPool;
use espresso_builder::transaction::{compute_commitment, SubmitError, Transaction};

fn keccak(data: &[u8]) -> Vec<u8> {
    <sha3::Keccak256 as sha3::Digest>::digest(data).to_vec()
}

fn expected_commitment(ns: u64, payload: &[u8]) -> Vec<u8> {
    let mut data = ns.to_le_bytes().to_vec();
    data.extend_from_slice(payload);
    keccak(&data)
}

fn tx(ns: u64, payload: &[u8]) -> Transaction {
    Transaction::new(ns, payload.to_vec()).unwrap()
}

#[test]
fn u64_little_endian_encoding() {
    let mut out = vec![9u8];
    push_u64_le(&mut out, 0x0102_0304_0506_0708);
    assert_eq!(out, vec![9, 8, 7, 6, 5, 4, 3, 2, 1]);
}

#[test]
fn commitment_is_keccak_of_namespace_and_payload() {
    let c = compute_commitment(7, &vec![1, 2, 3]);
    assert_eq!(c.len(), 32);
    assert_eq!(c, expected_commitment(7, &[1, 2, 3]));
    assert_ne!(c, vec![1, 2, 3]);
    assert_ne!(c, compute_commitment(8, &vec![1, 2, 3]));
}

#[test]
fn submit_returns_commitment_and_appends() {
    let mut pool = TransactionPool::new(10);
    let c = pool.submit(1, vec![0xaa]).unwrap();
    assert_eq!(c, expected_commitment(1, &[0xaa]));
    assert_eq!(pool.len(), 1);
    assert_eq!(pool.entries[0].namespace, 1);
    assert_eq!(pool.entries[0].payload, vec![0xaa]);
}

#[test]
fn submit_same_bytes_twice_is_duplicate() {
    let mut pool = TransactionPool::new(10);
    let first = pool.submit(3, vec![1, 2, 3]).unwrap();
    let second = pool.submit(3, vec![1, 2, 3]);
    match second {
        Err(SubmitError::Duplicate { commitment }) => assert_eq!(commitment, first),
        other => panic!("expected a duplicate, got {:?}", other),
    }
    assert_eq!(pool.len(), 1);
}

#[test]
fn submit_rejects_namespace_beyond_32_bits() {
    let mut pool = TransactionPool::new(10);
    assert!(matches!(pool.submit(1u64 << 32, vec![1]), Err(SubmitError::InvalidNamespace)));
    assert!(pool.submit(u32::MAX as u64, vec![1]).is_ok());
    assert_eq!(pool.len(), 1);
}

#[test]
fn submit_rejects_when_full() {
    let mut pool = TransactionPool::new(1);
    pool.submit(1, vec![1]).unwrap();
    assert!(matches!(pool.submit(1, vec![2]), Err(SubmitError::PoolFull)));
    assert_eq!(pool.len(), 1);
}

#[test]
fn remove_decided_keeps_the_rest_in_order() {
    let mut pool = TransactionPool::new(10);
    let a = pool.submit(1, vec![1]).unwrap();
    let _b = pool.submit(1, vec![2]).unwrap();
    let c = pool.submit(2, vec![3]).unwrap();
    let _d = pool.submit(2, vec![4]).unwrap();
    pool.remove_decided(&vec![c, a]);
    let payloads: Vec<Vec<u8>> = pool.entries.iter().map(|t| t.payload.clone()).collect();
    assert_eq!(payloads, vec![vec![2], vec![4]]);
}

#[test]
fn build_groups_by_namespace_and_records_ranges() {
    let pending = vec![tx(5, &[1]), tx(2, &[2, 2]), tx(5, &[3]), tx(9, &[4])];
    let b = build_block(4, &vec![0xee], &pending, &vec![], 100, 10);
    let order: Vec<(u64, Vec<u8>)> = b.payload.iter().map(|t| (t.namespace, t.payload.clone())).collect();
    assert_eq!(order, vec![(2, vec![2, 2]), (5, vec![1]), (5, vec![3]), (9, vec![4])]);
    assert_eq!(
        b.ns_table,
        vec![
            NsRange { namespace: 2, start: 0, end: 1 },
            NsRange { namespace: 5, start: 1, end: 3 },
            NsRange { namespace: 9, start: 3, end: 4 },
        ]
    );
    assert_eq!(b.payload_size, 5);
    assert_eq!(b.offered_fee, 50);
    assert_eq!(b.transactions.len(), 4);
    assert_eq!(b.view, 4);
    assert_eq!(b.parent, vec![0xee]);
}

#[test]
fn build_commitment_covers_view_parent_and_payload() {
    let pending = vec![tx(5, &[1]), tx(2, &[2])];
    let b = build_block(4, &vec![0xee], &pending, &vec![], 100, 1);
    let mut data = 4u64.to_le_bytes().to_vec();
    data.push(0xee);
    data.extend_from_slice(&pending[1].commitment);
    data.extend_from_slice(&pending[0].commitment);
    assert_eq!(b.block_commitment, keccak(&data));
}

#[test]
fn build_respects_budget_and_exclusions() {
    let pending = vec![tx(1, &[1, 1, 1]), tx(1, &[2, 2]), tx(1, &[3, 3, 3, 3]), tx(1, &[4])];
    let excluded = vec![pending[1].commitment.clone()];
    let b = build_block(1, &vec![0], &pending, &excluded, 5, 2);
    let got: Vec<Vec<u8>> = b.transactions.iter().map(|t| t.payload.clone()).collect();
    assert_eq!(got, vec![vec![1, 1, 1], vec![4]]);
    assert_eq!(b.payload_size, 4);
    assert_eq!(b.offered_fee, 8);
}

#[test]
fn build_of_nothing_is_empty_block() {
    let b = build_block(1, &vec![0], &vec![], &vec![], 5, 2);
    assert!(b.transactions.is_empty());
    assert!(b.ns_table.is_empty());
    assert_eq!(b.offered_fee, 0);
    assert_eq!(b.block_commitment.len(), 32);
}

#[test]
fn build_twice_gives_identical_block() {
    let pending = vec![tx(3, &[1]), tx(1, &[2]), tx(3, &[3])];
    let b1 = build_block(2, &vec![7], &pending, &vec![], 10, 3);
    let b2 = build_block(2, &vec![7], &pending, &vec![], 10, 3);
    assert_eq!(b1.block_commitment, b2.block_commitment);
    assert_eq!(b1.ns_table, b2.ns_table);
    assert_eq!(b1.offered_fee, b2.offered_fee);
    assert_eq!(b1.payload_size, b2.payload_size);
    let first: Vec<Vec<u8>> = b1.payload.iter().map(|t| t.commitment.clone()).collect();
    let second: Vec<Vec<u8>> = b2.payload.iter().map(|t| t.commitment.clone()).collect();
    assert_eq!(first, second);
}

#[test]
fn namespace_proof_round_trip() {
    let t1 = tx(1, &[0x11]);
    let t2 = tx(2, &[0x22]);
    let b = build_block(1, &vec![0], &vec![t1, t2], &vec![], 100, 1);
    let p = prove(&b, 1).unwrap();
    assert_eq!(p.transactions.len(), 1);
    assert_eq!(p.transactions[0].namespace, 1);
    assert_eq!(p.transactions[0].payload, vec![0x11]);
    assert_eq!(p.transactions[0].commitment, expected_commitment(1, &[0x11]));
    assert!(verify(&p, &b));
    assert!(prove(&b, 3).is_none());
}

#[test]
fn tampered_proof_does_not_verify() {
    let b = build_block(1, &vec![0], &vec![tx(1, &[1]), tx(2, &[2])], &vec![], 100, 1);
    let mut p = prove(&b, 2).unwrap();
    assert!(verify(&p, &b));
    p.transactions[0].payload = vec![9];
    assert!(!verify(&p, &b));
    let mut q = prove(&b, 2).unwrap();
    q.block_commitment = vec![0; 32];
    assert!(!verify(&q, &b));
}

#[test]
fn namespace_query_with_and_without_transactions() {
    let b = build_block(1, &vec![0], &vec![tx(4, &[1]), tx(4, &[2]), tx(6, &[3])], &vec![], 100, 1);
    let q = namespace_proof_query(&b, 4);
    assert!(q.proof.is_some());
    let got: Vec<Vec<u8>> = q.transactions.iter().map(|t| t.payload.clone()).collect();
    assert_eq!(got, vec![vec![1], vec![2]]);
    let none = namespace_proof_query(&b, 5);
    assert!(none.proof.is_none());
    assert!(none.transactions.is_empty());
}

#[test]
fn binary_search_of_namespace_table() {
    let table = vec![
        NsRange { namespace: 1, start: 0, end: 1 },
        NsRange { namespace: 4, start: 1, end: 2 },
        NsRange { namespace: 8, start: 2, end: 5 },
    ];
    assert_eq!(find_ns_id(&table, 1), Some(0));
    assert_eq!(find_ns_id(&table, 4), Some(1));
    assert_eq!(find_ns_id(&table, 8), Some(2));
    assert_eq!(find_ns_id(&table, 0), None);
    assert_eq!(find_ns_id(&table, 5), None);
    assert_eq!(find_ns_id(&table, 9), None);
    assert_eq!(find_ns_id(&vec![], 1), None);
}
