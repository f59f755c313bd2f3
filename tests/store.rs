use cfx_state_store::bytes::{bytes_eq, bytes_has_prefix, bytes_lt};
use cfx_state_store::epoch_retrieval::EpochRetrievalRequest;
use cfx_state_store::manager::{Engine, StateManager, StorageConfiguration};
use cfx_state_store::state::{verify_proof, State, StateIndex, StateRootWithAuxInfo, StorageError};

fn manager(engine: Engine) -> StateManager {
    StateManager::new(StorageConfiguration { snapshot_epoch_count: 2, engine })
}

fn b(s: &str) -> Vec<u8> {
    s.as_bytes().to_vec()
}

fn index(epoch: Option<u64>, root: &StateRootWithAuxInfo, read_only: bool) -> StateIndex {
    StateIndex {
        epoch,
        state_root: StateRootWithAuxInfo::from_hash(&root.state_root.hash),
        read_only,
    }
}

fn genesis(m: &StateManager) -> State {
    m.get_state_for_genesis_write().unwrap()
}

#[test]
fn set_then_get_round_trip() {
    let m = manager(Engine::Trie);
    let mut s = genesis(&m);
    assert_eq!(s.get(&b("k")), None);
    s.set(b("k"), b("v1")).unwrap();
    assert_eq!(s.get(&b("k")), Some(b("v1")));
    s.set(b("k"), b("v2")).unwrap();
    assert_eq!(s.get(&b("k")), Some(b("v2")));
    s.set(b(""), b("")).unwrap();
    assert_eq!(s.get(&b("")), Some(b("")));
}

#[test]
fn read_only_state_refuses_writes() {
    let mut m = manager(Engine::Trie);
    let mut s = genesis(&m);
    s.set(b("a"), b("1")).unwrap();
    let root = s.commit(&mut m, 1).unwrap();
    assert!(s.is_read_only());
    assert_eq!(s.set(b("a"), b("2")), Err(StorageError::ContractViolation));
    assert_eq!(s.delete(&b("a")), Err(StorageError::ContractViolation));
    assert!(matches!(s.delete_all(&b("a")), Err(StorageError::ContractViolation)));
    assert!(matches!(s.compute_state_root(), Err(StorageError::ContractViolation)));
    let r = m.get_state_no_commit(index(Some(1), &root, true), false).unwrap().unwrap();
    let mut r2 = m.get_state_no_commit(index(Some(1), &root, true), false).unwrap().unwrap();
    assert_eq!(r2.set(b("a"), b("3")), Err(StorageError::ContractViolation));
    for _ in 0..3 {
        assert_eq!(r.get(&b("a")), Some(b("1")));
        assert_eq!(r2.get(&b("a")), Some(b("1")));
    }
}

#[test]
fn root_is_independent_of_write_order() {
    let pairs = [("x", "1"), ("y", "2"), ("z", "3"), ("w", "4")];
    let mut roots = Vec::new();
    for order in [[0usize, 1, 2, 3], [3, 2, 1, 0], [2, 0, 3, 1]] {
        let mut m = manager(Engine::Trie);
        let mut s = genesis(&m);
        for i in order {
            s.set(b(pairs[i].0), b(pairs[i].1)).unwrap();
        }
        roots.push(s.commit(&mut m, 1).unwrap().state_root.hash);
    }
    assert_eq!(roots[0], roots[1]);
    assert_eq!(roots[0], roots[2]);
}

#[test]
fn sequential_engine_rejects_branching() {
    let mut m = manager(Engine::Sequential);
    let mut g = genesis(&m);
    let r1 = g.commit(&mut m, 1).unwrap();
    assert_eq!(m.current_epoch(), 2);
    assert!(matches!(m.get_state_for_next_epoch(index(Some(0), &r1, true)), Err(StorageError::ContractViolation)));
    assert!(matches!(m.get_state_for_next_epoch(index(Some(2), &r1, true)), Err(StorageError::ContractViolation)));
    assert!(matches!(m.get_state_for_next_epoch(index(None, &r1, true)), Err(StorageError::ContractViolation)));
    let mut s = m.get_state_for_next_epoch(index(Some(1), &r1, true)).unwrap().unwrap();
    assert!(!s.is_read_only());
    assert_eq!(s.epoch(), 1);
    s.set(b("k"), b("v")).unwrap();
    let r2 = s.commit(&mut m, 2).unwrap();
    assert_eq!(m.current_epoch(), 3);
    assert!(matches!(m.get_state_for_next_epoch(index(Some(1), &r1, true)), Err(StorageError::ContractViolation)));
    assert!(m.get_state_for_next_epoch(index(Some(2), &r2, true)).unwrap().is_some());
}

#[test]
fn trie_engine_allows_branching() {
    let mut m = manager(Engine::Trie);
    let mut g = genesis(&m);
    let r1 = g.commit(&mut m, 1).unwrap();
    let mut a = m.get_state_for_next_epoch(index(Some(1), &r1, true)).unwrap().unwrap();
    a.set(b("k"), b("a")).unwrap();
    a.commit(&mut m, 2).unwrap();
    let mut c = m.get_state_for_next_epoch(index(Some(1), &r1, true)).unwrap().unwrap();
    c.set(b("k"), b("c")).unwrap();
    assert!(c.commit(&mut m, 2).is_ok());
    assert_eq!(a.get(&b("k")), Some(b("a")));
    assert_eq!(c.get(&b("k")), Some(b("c")));
}

#[test]
fn commit_out_of_sequence_is_refused() {
    let mut m = manager(Engine::Trie);
    let mut g = genesis(&m);
    assert!(matches!(g.commit(&mut m, 2), Err(StorageError::ContractViolation)));
    assert!(matches!(g.commit(&mut m, 0), Err(StorageError::ContractViolation)));
    assert_eq!(m.current_epoch(), 0);
    assert!(g.commit(&mut m, 1).is_ok());
    assert!(matches!(g.commit(&mut m, 2), Err(StorageError::ContractViolation)));
}

#[test]
fn sequential_commit_must_follow_current_epoch() {
    let mut m = manager(Engine::Sequential);
    let mut g = genesis(&m);
    let r1 = g.commit(&mut m, 1).unwrap();
    let mut s = m.get_state_for_next_epoch(index(Some(1), &r1, true)).unwrap().unwrap();
    assert!(m.accepts_commit(2));
    assert!(!m.accepts_commit(5));
    s.commit(&mut m, 2).unwrap();
    assert!(!m.accepts_commit(2));
}

#[test]
fn genesis_only_before_first_commit() {
    let mut m = manager(Engine::Trie);
    let mut g = genesis(&m);
    assert_eq!(g.epoch(), 0);
    g.commit(&mut m, 1).unwrap();
    assert!(matches!(m.get_state_for_genesis_write(), Err(StorageError::ContractViolation)));
}

#[test]
fn retention_keeps_the_window() {
    let mut m = manager(Engine::Trie);
    let mut s = genesis(&m);
    let mut roots = Vec::new();
    for e in 1..=5u64 {
        s.set(b("n"), e.to_be_bytes().to_vec()).unwrap();
        roots.push(s.commit(&mut m, e).unwrap());
        s = m.get_state_for_next_epoch(index(Some(e), &roots[(e - 1) as usize], true)).unwrap().unwrap();
    }
    assert!(m.maintain_state_confirmed(4, 2, 5).is_ok());
    for e in 1..=5u64 {
        let found = m.get_state_no_commit(index(Some(e), &roots[(e - 1) as usize], true), true).unwrap();
        assert_eq!(found.is_some(), e >= 3, "epoch {}", e);
        if let Some(st) = found {
            assert_eq!(st.get(&b("n")), Some(e.to_be_bytes().to_vec()));
        }
    }
}

#[test]
fn retention_with_future_confirmation_keeps_all() {
    let mut m = manager(Engine::Trie);
    let mut g = genesis(&m);
    let r1 = g.commit(&mut m, 1).unwrap();
    m.maintain_state_confirmed(0, 0, 1).unwrap();
    assert!(m.get_state_no_commit(index(Some(1), &r1, true), false).unwrap().is_some());
    m.maintain_state_confirmed(0, 0, 2).unwrap();
    assert!(m.get_state_no_commit(index(Some(1), &r1, true), false).unwrap().is_none());
}

#[test]
fn end_to_end_history_is_immutable() {
    let mut m = manager(Engine::Trie);
    let mut g = genesis(&m);
    assert_eq!(g.epoch(), 0);
    assert_eq!(g.get(&b("balance:alice")), None);
    let r0 = g.get_state_root();
    g.set(b("balance:alice"), b("100")).unwrap();
    let r1 = g.commit(&mut m, 1).unwrap();
    assert_ne!(r1.state_root.hash, r0.state_root.hash);
    let snap1 = m.get_state_no_commit(index(Some(1), &r1, true), false).unwrap().unwrap();
    assert_eq!(snap1.get(&b("balance:alice")), Some(b("100")));
    let mut next = m.get_state_for_next_epoch(index(Some(1), &r1, false)).unwrap().unwrap();
    next.set(b("balance:alice"), b("50")).unwrap();
    let r2 = next.commit(&mut m, 2).unwrap();
    assert_ne!(r2.state_root.hash, r1.state_root.hash);
    assert_eq!(snap1.get(&b("balance:alice")), Some(b("100")));
    let again = m.get_state_no_commit(index(Some(1), &r1, true), false).unwrap().unwrap();
    assert_eq!(again.get(&b("balance:alice")), Some(b("100")));
    let snap2 = m.get_state_no_commit(index(Some(2), &r2, true), false).unwrap().unwrap();
    assert_eq!(snap2.get(&b("balance:alice")), Some(b("50")));
}

#[test]
fn unknown_root_is_absent_and_writable_index_is_refused() {
    let mut m = manager(Engine::Trie);
    let mut g = genesis(&m);
    let r1 = g.commit(&mut m, 1).unwrap();
    let bogus = StateRootWithAuxInfo::from_hash(&vec![7u8; 32]);
    assert!(m.get_state_no_commit(index(Some(1), &bogus, true), false).unwrap().is_none());
    assert!(m.get_state_no_commit(index(Some(9), &r1, true), false).unwrap().is_none());
    assert!(m.get_state_no_commit(index(None, &r1, true), false).unwrap().is_some());
    assert!(matches!(m.get_state_no_commit(index(Some(1), &r1, false), false), Err(StorageError::ContractViolation)));
    assert!(m.get_state_for_next_epoch(index(Some(1), &bogus, true)).unwrap().is_none());
}

#[test]
fn delete_removes_a_key_and_changes_the_root() {
    let mut m = manager(Engine::Trie);
    let mut s = genesis(&m);
    let empty = s.compute_state_root().unwrap();
    s.set(b("a"), b("1")).unwrap();
    let one = s.compute_state_root().unwrap();
    assert_ne!(one.state_root.hash, empty.state_root.hash);
    s.delete(&b("a")).unwrap();
    assert_eq!(s.get(&b("a")), None);
    assert_eq!(s.compute_state_root().unwrap().state_root.hash, empty.state_root.hash);
    s.delete(&b("missing")).unwrap();
    s.set(b("b"), b("2")).unwrap();
    assert_eq!(s.delete_test_only(&b("b")), Ok(Some(b("2"))));
    assert_eq!(s.delete_test_only(&b("b")), Ok(None));
    let r = s.commit(&mut m, 1).unwrap();
    assert_eq!(r.state_root.hash, empty.state_root.hash);
}

#[test]
fn delete_all_removes_by_prefix() {
    let m = manager(Engine::Trie);
    let mut s = genesis(&m);
    s.set(b("acct:1"), b("a")).unwrap();
    s.set(b("acct:2"), b("b")).unwrap();
    s.set(b("code:1"), b("c")).unwrap();
    let mut removed = s.delete_all(&b("acct:")).unwrap().unwrap();
    removed.sort();
    assert_eq!(removed, vec![(b("acct:1"), b("a")), (b("acct:2"), b("b"))]);
    assert_eq!(s.get(&b("acct:1")), None);
    assert_eq!(s.get(&b("acct:2")), None);
    assert_eq!(s.get(&b("code:1")), Some(b("c")));
    assert_eq!(s.delete_all(&b("acct:")), Ok(None));
    assert_eq!(s.delete_all(&b("")).unwrap().unwrap().len(), 1);
    assert_eq!(s.get(&b("code:1")), None);
}

#[test]
fn genesis_root_is_digest_of_empty_encoding() {
    let m = manager(Engine::Trie);
    let g = genesis(&m);
    let root = g.get_state_root();
    assert_eq!(root.state_root.hash, keccak_hash::KECCAK_EMPTY.0.to_vec());
    assert_eq!(root.aux_info.state_root_hash, root.state_root.hash);
}

#[test]
fn root_of_one_entry_matches_its_encoding() {
    let m = manager(Engine::Trie);
    let mut s = genesis(&m);
    s.set(b("key"), b("value")).unwrap();
    let root = s.compute_state_root().unwrap();
    let mut enc = keccak_hash::keccak(b"key").0.to_vec();
    enc.extend_from_slice(&5u64.to_be_bytes());
    enc.extend_from_slice(b"value");
    assert_eq!(root.state_root.hash, keccak_hash::keccak(&enc).0.to_vec());
    assert_eq!(s.get_state_root().state_root.hash, root.state_root.hash);
}

#[test]
fn proofs_verify_against_the_root() {
    let mut m = manager(Engine::Trie);
    let mut s = genesis(&m);
    s.set(b("a"), b("1")).unwrap();
    s.set(b("b"), b("2")).unwrap();
    let root = s.commit(&mut m, 1).unwrap();
    let (v, proof) = s.get_with_proof(&b("a"));
    assert_eq!(v, Some(b("1")));
    assert_eq!(verify_proof(&root, &b("a"), &proof), Some(Some(b("1"))));
    assert_eq!(verify_proof(&root, &b("b"), &proof), Some(Some(b("2"))));
    assert_eq!(verify_proof(&root, &b("c"), &proof), Some(None));
    let mut forged = proof;
    forged.leaves[0].1 = b("9");
    assert_eq!(verify_proof(&root, &b("a"), &forged), None);
    let mut swapped = s.get_with_proof(&b("a")).1;
    swapped.leaves.swap(0, 1);
    assert_eq!(verify_proof(&root, &b("a"), &swapped), None);
}

#[test]
fn node_merkle_history_is_unsupported() {
    let m = manager(Engine::Trie);
    let g = genesis(&m);
    assert!(matches!(g.get_node_merkle_all_versions(&b("a")), Err(StorageError::Unsupported)));
}

#[test]
fn snapshot_info_every_count_epochs() {
    let mut m = manager(Engine::Sequential);
    assert_eq!(m.get_snapshot_epoch_count(), 2);
    let mut s = genesis(&m);
    let r1 = s.commit(&mut m, 1).unwrap();
    let mut s2 = m.get_state_for_next_epoch(index(Some(1), &r1, true)).unwrap().unwrap();
    let r2 = s2.commit(&mut m, 2).unwrap();
    assert!(m.get_snapshot_info_at_epoch(1).is_none());
    let info = m.get_snapshot_info_at_epoch(2).unwrap();
    assert_eq!(info.epoch, 2);
    assert_eq!(info.state_root, r2.state_root.hash);
    assert!(m.get_snapshot_info_at_epoch(4).is_none());
    let none = StateManager::new(StorageConfiguration { snapshot_epoch_count: 0, engine: Engine::Trie });
    assert!(none.get_snapshot_info_at_epoch(0).is_none());
    assert!(std::ptr::eq(m.get_storage_manager(), &m));
    m.log_usage();
}

#[test]
fn epoch_retrieval_request_text() {
    let r = EpochRetrievalRequest::new(3, 120);
    assert_eq!(
        String::from_utf8(r.fmt()).unwrap(),
        "EpochRetrievalRequest: start_epoch 3, end_epoch 120"
    );
    let z = EpochRetrievalRequest { start_epoch: 0, end_epoch: u64::MAX };
    assert_eq!(
        String::from_utf8(z.fmt()).unwrap(),
        "EpochRetrievalRequest: start_epoch 0, end_epoch 18446744073709551615"
    );
}

#[test]
fn byte_order_helpers() {
    assert!(bytes_lt(&b("ab"), &b("b")));
    assert!(bytes_lt(&b("a"), &b("ab")));
    assert!(!bytes_lt(&b("ab"), &b("ab")));
    assert!(bytes_eq(&b("ab"), &b("ab")));
    assert!(!bytes_eq(&b("ab"), &b("abc")));
    assert!(bytes_has_prefix(&b("ab"), &b("abc")));
    assert!(!bytes_has_prefix(&b("abc"), &b("ab")));
}

#[test]
fn lookup_without_epoch_finds_the_latest_commit() {
    let mut m = manager(Engine::Trie);
    let mut g = genesis(&m);
    let r1 = g.commit(&mut m, 1).unwrap();
    let mut s = m.get_state_for_next_epoch(index(Some(1), &r1, true)).unwrap().unwrap();
    s.set(b("k"), b("v")).unwrap();
    s.delete(&b("k")).unwrap();
    let r2 = s.commit(&mut m, 2).unwrap();
    assert_eq!(r2.state_root.hash, r1.state_root.hash);
    let latest = m.get_state_no_commit(index(None, &r1, true), false).unwrap().unwrap();
    assert_eq!(latest.epoch(), 2);
    let first = m.get_state_no_commit(index(Some(1), &r1, true), false).unwrap().unwrap();
    assert_eq!(first.epoch(), 1);
}
