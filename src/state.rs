//! State handles: a writable working epoch or a read-only snapshot.
use vstd::prelude::*;
use crate::bytes::{bytes_copy, bytes_eq, bytes_lt, lemma_lex_irreflexive, lemma_lex_transitive, lex_lt};
use crate::hash::{keccak_bytes, keccak_of};
use crate::keyspace::{
    canonical, encode, encode_leaves, leaf_lookup, leaves, opt_bytes, pairs_of, prefixed_pairs,
    root_of, sorted_leaves, trie_key, without_prefix, Contents, KeySpace,
};
use crate::manager::{Engine, ManagerModel, SnapshotModel, StateManager};

verus! {

/// A state root digest.
pub struct StateRoot {
    pub hash: Vec<u8>,
}

/// What a proof needs besides the root itself.
pub struct StateRootAuxInfo {
    pub state_root_hash: Vec<u8>,
}

pub struct StateRootWithAuxInfo {
    pub state_root: StateRoot,
    pub aux_info: StateRootAuxInfo,
}

/// The root digest that a root record carries.
pub open spec fn root_hash(r: StateRootWithAuxInfo) -> Seq<u8> {
    r.state_root.hash@
}

/// A root record for `h`, with the witness pointing at the same digest.
pub open spec fn is_root_info(r: StateRootWithAuxInfo, h: Seq<u8>) -> bool {
    r.state_root.hash@ == h && r.aux_info.state_root_hash@ == h
}

impl StateRootWithAuxInfo {
    pub fn from_hash(h: &Vec<u8>) -> (r: Self)
        ensures
            is_root_info(r, h@),
    {
        StateRootWithAuxInfo {
            state_root: StateRoot { hash: bytes_copy(h) },
            aux_info: StateRootAuxInfo { state_root_hash: bytes_copy(h) },
        }
    }
}

/// The identity of a state snapshot.
pub struct StateIndex {
    pub epoch: Option<u64>,
    pub state_root: StateRootWithAuxInfo,
    pub read_only: bool,
}

impl StateIndex {
    pub fn is_read_only(&self) -> (r: bool)
        ensures
            r == self.read_only,
    {
        self.read_only
    }
}

/// Errors of the store.
#[derive(PartialEq, Eq, Structural, Clone, Copy, Debug)]
pub enum StorageError {
    /// The caller broke a rule of use: a write to a read-only state, a
    /// derivation from the wrong parent, a commit out of sequence.
    ContractViolation,
    /// The operation is not offered.
    Unsupported,
}

/// Evidence for a lookup: every (trie key, value) leaf of the state in
/// trie-key order, whose encoding hashes to the root.
pub struct StateProof {
    pub leaves: Vec<(Vec<u8>, Vec<u8>)>,
}

/// Root hashes of a node across versions.
pub struct StorageRoot {
    pub hashes: Vec<Vec<u8>>,
}

/// A proof that goes with a `StorageRoot`.
pub struct StorageRootProof {
    pub leaves: Vec<(Vec<u8>, Vec<u8>)>,
}

/// Checks `proof` against `root` and looks `key` up in it. `None` when the
/// proof does not hash to the root or its leaves are out of order; else the
/// value it shows for `key`, or `Some(None)` when it shows the key absent.
pub fn verify_proof(root: &StateRootWithAuxInfo, key: &Vec<u8>, proof: &StateProof) -> (r: Option<Option<Vec<u8>>>)
    ensures
        r is Some <==> (keccak_of(encode(pairs_of(proof.leaves@))) == root_hash(*root)
            && sorted_leaves(pairs_of(proof.leaves@))),
        r is Some ==> opt_bytes(r->Some_0) == leaf_lookup(pairs_of(proof.leaves@), trie_key(key@)),
{
    let ghost l = pairs_of(proof.leaves@);
    let bytes = encode_leaves(&proof.leaves);
    let h = keccak_bytes(&bytes);
    if !bytes_eq(&h, &root.state_root.hash) {
        return None;
    }
    let n = proof.leaves.len();
    let mut i: usize = 1;
    while i < n
        invariant
            1 <= i,
            n == proof.leaves@.len(),
            l == pairs_of(proof.leaves@),
            keccak_of(encode(l)) == root_hash(*root),
            forall|a: int, b: int| 0 <= a < b < i && b < n ==> lex_lt(#[trigger] l[a].0, #[trigger] l[b].0),
        decreases n - i,
    {
        if !bytes_lt(&proof.leaves[i - 1].0, &proof.leaves[i].0) {
            assert(!sorted_leaves(l)) by {
                assert(!lex_lt(l[i - 1].0, l[i as int].0));
            }
            return None;
        }
        proof {
            assert forall|a: int, b: int| 0 <= a < b < i + 1 && b < n implies lex_lt(#[trigger] l[a].0, #[trigger] l[b].0) by {
                if b == i && a < i - 1 {
                    lemma_lex_transitive(l[a].0, l[i - 1].0, l[b].0);
                }
            }
        }
        i = i + 1;
    }
    assert(sorted_leaves(l));
    let kh = keccak_bytes(key);
    let mut j: usize = 0;
    while j < n
        invariant
            j <= n,
            n == proof.leaves@.len(),
            l == pairs_of(proof.leaves@),
            sorted_leaves(l),
            keccak_of(encode(l)) == root_hash(*root),
            kh@ == trie_key(key@),
            forall|a: int| 0 <= a < j ==> (#[trigger] l[a]).0 != kh@,
        decreases n - j,
    {
        if bytes_eq(&proof.leaves[j].0, &kh) {
            let v = bytes_copy(&proof.leaves[j].1);
            proof {
                let c = choose|c: int| 0 <= c < l.len() && l[c].0 == kh@;
                if c != j {
                    lemma_lex_irreflexive(kh@);
                    if c < j {
                        assert(lex_lt(l[c].0, l[j as int].0));
                    } else {
                        assert(lex_lt(l[j as int].0, l[c].0));
                    }
                }
                assert(l[j as int].0 == kh@);
                assert(leaf_lookup(l, kh@) == Some(l[j as int].1));
            }
            return Some(Some(v));
        }
        j = j + 1;
    }
    assert(!exists|a: int| 0 <= a < l.len() && l[a].0 == kh@);
    Some(None)
}

/// A state as plain values.
pub struct StateModel {
    pub read_only: bool,
    pub epoch: u64,
    pub root: Seq<u8>,
    pub content: Contents,
}

/// The value stored under a storage key.
pub open spec fn value_at(c: Contents, key: Seq<u8>) -> Option<Seq<u8>> {
    if c.contains_key(trie_key(key)) {
        Some(c[trie_key(key)].1)
    } else {
        None
    }
}

/// A commit of `epoch` from state `s` keeps the rules: the state is
/// writable, `epoch` follows its epoch and has a successor, and the engine
/// accepts it.
pub open spec fn commit_allowed(s: StateModel, m: ManagerModel, epoch: u64) -> bool {
    &&& !s.read_only
    &&& s.epoch as int + 1 == epoch as int
    &&& epoch < u64::MAX
    &&& (m.engine == Engine::Trie || m.current_epoch == 0 || epoch == m.current_epoch)
}

/// The manager after a commit of `epoch` with content `c`.
pub open spec fn committed(m: ManagerModel, epoch: u64, c: Contents) -> ManagerModel {
    ManagerModel {
        current_epoch: (epoch + 1) as u64,
        snapshots: m.snapshots.push(SnapshotModel { epoch, root: root_of(c), content: c }),
        ..m
    }
}

/// A handle on the key-value set of one epoch.
pub struct State {
    read_only: bool,
    epoch: u64,
    root: Vec<u8>,
    content: KeySpace,
}

impl View for State {
    type V = StateModel;

    closed spec fn view(&self) -> StateModel {
        StateModel {
            read_only: self.read_only,
            epoch: self.epoch,
            root: self.root@,
            content: self.content@,
        }
    }
}

impl State {
    /// The handle is consistent: a read-only state's root is that of its content.
    pub closed spec fn wf(&self) -> bool {
        &&& self.content.wf()
        &&& self.read_only ==> self.root@ == root_of(self.content@)
    }

    pub(crate) fn from_parts(read_only: bool, epoch: u64, root: Vec<u8>, content: KeySpace) -> (r: Self)
        requires
            content.wf(),
            read_only ==> root@ == root_of(content@),
        ensures
            r.wf(),
            r@ == (StateModel { read_only, epoch, root: root@, content: content@ }),
    {
        State { read_only, epoch, root, content }
    }

    pub fn is_read_only(&self) -> (r: bool)
        ensures
            r == self@.read_only,
    {
        self.read_only
    }

    pub fn epoch(&self) -> (r: u64)
        ensures
            r == self@.epoch,
    {
        self.epoch
    }

    /// The value stored under `key`.
    pub fn get(&self, key: &Vec<u8>) -> (r: Option<Vec<u8>>)
        requires
            self.wf(),
        ensures
            opt_bytes(r) == value_at(self@.content, key@),
    {
        let kh = keccak_bytes(key);
        self.content.lookup(&kh)
    }

    /// Stores `value` under `key`; refused on a read-only state.
    pub fn set(&mut self, key: Vec<u8>, value: Vec<u8>) -> (r: Result<(), StorageError>)
        requires
            old(self).wf(),
        ensures
            final(self).wf(),
            old(self)@.read_only ==> r == Err::<(), StorageError>(StorageError::ContractViolation)
                && final(self)@ == old(self)@,
            !old(self)@.read_only ==> r is Ok && final(self)@ == (StateModel {
                content: old(self)@.content.insert(trie_key(key@), (key@, value@)),
                ..old(self)@
            }),
    {
        if self.read_only {
            return Err(StorageError::ContractViolation);
        }
        let kh = keccak_bytes(&key);
        self.content.insert(kh, key, value);
        Ok(())
    }

    /// Removes `key`; refused on a read-only state.
    pub fn delete(&mut self, key: &Vec<u8>) -> (r: Result<(), StorageError>)
        requires
            old(self).wf(),
        ensures
            final(self).wf(),
            old(self)@.read_only ==> r == Err::<(), StorageError>(StorageError::ContractViolation)
                && final(self)@ == old(self)@,
            !old(self)@.read_only ==> r is Ok && final(self)@ == (StateModel {
                content: old(self)@.content.remove(trie_key(key@)),
                ..old(self)@
            }),
    {
        if self.read_only {
            return Err(StorageError::ContractViolation);
        }
        let kh = keccak_bytes(key);
        self.content.remove(&kh);
        Ok(())
    }

    /// Removes `key` and hands back the value it had.
    pub fn delete_test_only(&mut self, key: &Vec<u8>) -> (r: Result<Option<Vec<u8>>, StorageError>)
        requires
            old(self).wf(),
        ensures
            final(self).wf(),
            old(self)@.read_only ==> r == Err::<Option<Vec<u8>>, StorageError>(StorageError::ContractViolation)
                && final(self)@ == old(self)@,
            !old(self)@.read_only ==> r is Ok && opt_bytes(r->Ok_0) == value_at(old(self)@.content, key@)
                && final(self)@ == (StateModel {
                content: old(self)@.content.remove(trie_key(key@)),
                ..old(self)@
            }),
    {
        if self.read_only {
            return Err(StorageError::ContractViolation);
        }
        let kh = keccak_bytes(key);
        let v = self.content.lookup(&kh);
        self.content.remove(&kh);
        Ok(v)
    }

    /// Removes every key that starts with `prefix`. Hands back the removed
    /// (key, value) pairs in trie-key order, or `None` when there were none.
    /// Trie keys are digests and keep no order of the storage keys, so each
    /// entry also holds its storage key and the sweep reads those.
    pub fn delete_all(&mut self, prefix: &Vec<u8>) -> (r: Result<Option<Vec<(Vec<u8>, Vec<u8>)>>, StorageError>)
        requires
            old(self).wf(),
        ensures
            final(self).wf(),
            old(self)@.read_only ==> r == Err::<Option<Vec<(Vec<u8>, Vec<u8>)>>, StorageError>(
                StorageError::ContractViolation) && final(self)@ == old(self)@,
            !old(self)@.read_only ==> r is Ok && final(self)@ == (StateModel {
                content: without_prefix(old(self)@.content, prefix@),
                ..old(self)@
            }),
            !old(self)@.read_only ==> match r {
                Ok(Some(v)) => pairs_of(v@) == prefixed_pairs(canonical(old(self)@.content), prefix@)
                    && v@.len() > 0,
                Ok(None) => prefixed_pairs(canonical(old(self)@.content), prefix@).len() == 0,
                Err(_) => false,
            },
    {
        if self.read_only {
            return Err(StorageError::ContractViolation);
        }
        let removed = self.content.remove_prefix(prefix);
        if removed.len() == 0 {
            Ok(None)
        } else {
            Ok(Some(removed))
        }
    }

    /// Recomputes the root of the working set; writable states only.
    pub fn compute_state_root(&mut self) -> (r: Result<StateRootWithAuxInfo, StorageError>)
        requires
            old(self).wf(),
        ensures
            final(self).wf(),
            old(self)@.read_only ==> r is Err && r->Err_0 == StorageError::ContractViolation
                && final(self)@ == old(self)@,
            !old(self)@.read_only ==> r is Ok && is_root_info(r->Ok_0, root_of(old(self)@.content))
                && final(self)@ == (StateModel { root: root_of(old(self)@.content), ..old(self)@ }),
    {
        if self.read_only {
            return Err(StorageError::ContractViolation);
        }
        let h = self.content.root();
        let info = StateRootWithAuxInfo::from_hash(&h);
        self.root = h;
        Ok(info)
    }

    /// The root known to this handle.
    pub fn get_state_root(&self) -> (r: StateRootWithAuxInfo)
        ensures
            is_root_info(r, self@.root),
    {
        StateRootWithAuxInfo::from_hash(&self.root)
    }

    /// Commits the working set as `epoch`: records it in the manager and
    /// seals this handle as the read-only snapshot of `epoch`.
    pub fn commit(&mut self, manager: &mut StateManager, epoch: u64) -> (r: Result<StateRootWithAuxInfo, StorageError>)
        requires
            old(self).wf(),
            old(manager).wf(),
        ensures
            final(self).wf(),
            final(manager).wf(),
            !commit_allowed(old(self)@, old(manager)@, epoch) ==> r is Err
                && r->Err_0 == StorageError::ContractViolation
                && final(self)@ == old(self)@ && final(manager)@ == old(manager)@,
            commit_allowed(old(self)@, old(manager)@, epoch) ==> r is Ok
                && is_root_info(r->Ok_0, root_of(old(self)@.content))
                && final(self)@ == (StateModel {
                    read_only: true,
                    epoch,
                    root: root_of(old(self)@.content),
                    content: old(self)@.content,
                })
                && final(manager)@ == committed(old(manager)@, epoch, old(self)@.content),
    {
        if self.read_only || self.epoch == u64::MAX || epoch != self.epoch + 1 || epoch == u64::MAX
            || !manager.accepts_commit(epoch) {
            return Err(StorageError::ContractViolation);
        }
        let h = self.content.root();
        manager.record(epoch, bytes_copy(&h), self.content.copy());
        let info = StateRootWithAuxInfo::from_hash(&h);
        self.read_only = true;
        self.epoch = epoch;
        self.root = h;
        Ok(info)
    }

    /// The value under `key` with a proof against the root of this content.
    pub fn get_with_proof(&self, key: &Vec<u8>) -> (r: (Option<Vec<u8>>, StateProof))
        requires
            self.wf(),
        ensures
            opt_bytes(r.0) == value_at(self@.content, key@),
            pairs_of(r.1.leaves@) == leaves(canonical(self@.content)),
            keccak_of(encode(pairs_of(r.1.leaves@))) == root_of(self@.content),
            sorted_leaves(pairs_of(r.1.leaves@)),
            leaf_lookup(pairs_of(r.1.leaves@), trie_key(key@)) == value_at(self@.content, key@),
    {
        proof {
            self.content.lemma_leaves(trie_key(key@));
        }
        let v = self.get(key);
        (v, StateProof { leaves: self.content.export() })
    }

    /// Per-version node hashes are not kept by this store.
    pub fn get_node_merkle_all_versions(&self, key: &Vec<u8>) -> (r: Result<(StorageRoot, StorageRootProof), StorageError>)
        ensures
            r is Err && r->Err_0 == StorageError::Unsupported,
    {
        Err(StorageError::Unsupported)
    }
}

} // verus!
