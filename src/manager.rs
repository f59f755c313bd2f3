//! The state manager: derives states from committed epochs, records commits,
//! and prunes history.
use vstd::prelude::*;
use crate::bytes::{bytes_copy, bytes_eq};
use crate::keyspace::{root_of, Contents, KeySpace};
use crate::state::{root_hash, State, StateIndex, StateModel, StorageError};

verus! {

/// The authenticated structure behind a manager.
#[derive(PartialEq, Eq, Structural, Clone, Copy, Debug)]
pub enum Engine {
    /// Any committed root may be the parent of a new epoch.
    Trie,
    /// Each new epoch follows the last one; no branching.
    Sequential,
}

/// How a manager is set up.
pub struct StorageConfiguration {
    pub snapshot_epoch_count: u32,
    pub engine: Engine,
}

/// A committed epoch.
pub struct Snapshot {
    epoch: u64,
    root: Vec<u8>,
    content: KeySpace,
}

/// A committed epoch as plain values.
pub struct SnapshotModel {
    pub epoch: u64,
    pub root: Seq<u8>,
    pub content: Contents,
}

impl Snapshot {
    pub closed spec fn model(&self) -> SnapshotModel {
        SnapshotModel { epoch: self.epoch, root: self.root@, content: self.content@ }
    }

    pub closed spec fn wf(&self) -> bool {
        self.content.wf() && self.root@ == root_of(self.content@)
    }
}

/// Checkpoint metadata of one epoch.
pub struct SnapshotInfo {
    pub epoch: u64,
    pub state_root: Vec<u8>,
}

/// A manager as plain values.
pub struct ManagerModel {
    pub engine: Engine,
    pub snapshot_epoch_count: u32,
    /// The epoch the next commit is expected to carry; 0 before the first commit.
    pub current_epoch: u64,
    pub snapshots: Seq<SnapshotModel>,
}

pub open spec fn snapshots_of(v: Seq<Snapshot>) -> Seq<SnapshotModel> {
    v.map_values(|s: Snapshot| s.model())
}

/// The snapshot fits an index's epoch (if it names one) and root.
pub open spec fn fits(s: SnapshotModel, epoch: Option<u64>, root: Seq<u8>) -> bool {
    s.root == root && match epoch {
        Some(e) => s.epoch == e,
        None => true,
    }
}

/// `j` is the most recent snapshot that fits.
pub open spec fn last_fit(ss: Seq<SnapshotModel>, epoch: Option<u64>, root: Seq<u8>, j: int) -> bool {
    &&& 0 <= j < ss.len()
    &&& fits(ss[j], epoch, root)
    &&& forall|k: int| j < k < ss.len() ==> !fits(#[trigger] ss[k], epoch, root)
}

pub open spec fn any_fit(ss: Seq<SnapshotModel>, epoch: Option<u64>, root: Seq<u8>) -> bool {
    exists|j: int| 0 <= j < ss.len() && fits(#[trigger] ss[j], epoch, root)
}

/// A read-only state on a snapshot.
pub open spec fn snapshot_state(s: SnapshotModel) -> StateModel {
    StateModel { read_only: true, epoch: s.epoch, root: s.root, content: s.content }
}

/// A writable state whose parent is the snapshot.
pub open spec fn child_state(s: SnapshotModel) -> StateModel {
    StateModel { read_only: false, epoch: s.epoch, root: s.root, content: s.content }
}

/// The epoch lies inside the retention window: it is not older than
/// `era_epoch_count` epochs before `confirmed_height`.
pub open spec fn in_window(e: u64, era_epoch_count: u64, confirmed_height: u64) -> bool {
    !(e < confirmed_height && confirmed_height - e > era_epoch_count)
}

/// The snapshots that a retention sweep keeps, in order.
pub open spec fn retained(ss: Seq<SnapshotModel>, era: u64, confirmed: u64) -> Seq<SnapshotModel>
    decreases ss.len(),
{
    if ss.len() == 0 {
        Seq::empty()
    } else if in_window(ss.last().epoch, era, confirmed) {
        retained(ss.drop_last(), era, confirmed).push(ss.last())
    } else {
        retained(ss.drop_last(), era, confirmed)
    }
}

/// An epoch at which checkpoint metadata is kept.
pub open spec fn is_checkpoint(epoch: u64, count: u32) -> bool {
    count > 0 && epoch % (count as u64) == 0
}

/// The sole owner of the committed history.
pub struct StateManager {
    engine: Engine,
    snapshot_epoch_count: u32,
    current_epoch: u64,
    snapshots: Vec<Snapshot>,
}

impl View for StateManager {
    type V = ManagerModel;

    closed spec fn view(&self) -> ManagerModel {
        ManagerModel {
            engine: self.engine,
            snapshot_epoch_count: self.snapshot_epoch_count,
            current_epoch: self.current_epoch,
            snapshots: snapshots_of(self.snapshots@),
        }
    }
}

impl StateManager {
    pub closed spec fn wf(&self) -> bool {
        forall|i: int| 0 <= i < self.snapshots@.len() ==> (#[trigger] self.snapshots@[i]).wf()
    }

    pub fn new(conf: StorageConfiguration) -> (r: Self)
        ensures
            r.wf(),
            r@ == (ManagerModel {
                engine: conf.engine,
                snapshot_epoch_count: conf.snapshot_epoch_count,
                current_epoch: 0,
                snapshots: Seq::empty(),
            }),
    {
        let r = StateManager {
            engine: conf.engine,
            snapshot_epoch_count: conf.snapshot_epoch_count,
            current_epoch: 0,
            snapshots: Vec::new(),
        };
        assert(snapshots_of(r.snapshots@) =~= Seq::<SnapshotModel>::empty());
        r
    }

    pub fn get_storage_manager(&self) -> (r: &StateManager)
        ensures
            r == self,
    {
        self
    }

    pub fn get_snapshot_epoch_count(&self) -> (r: u32)
        ensures
            r == self@.snapshot_epoch_count,
    {
        self.snapshot_epoch_count
    }

    pub fn current_epoch(&self) -> (r: u64)
        ensures
            r == self@.current_epoch,
    {
        self.current_epoch
    }

    pub fn engine(&self) -> (r: Engine)
        ensures
            r == self@.engine,
    {
        self.engine
    }

    /// Usage statistics are not kept.
    pub fn log_usage(&self) {
    }

    /// The position of the most recent snapshot that fits.
    fn find(&self, epoch: Option<u64>, root: &Vec<u8>) -> (r: Option<usize>)
        ensures
            match r {
                Some(j) => last_fit(self@.snapshots, epoch, root@, j as int),
                None => !any_fit(self@.snapshots, epoch, root@),
            },
    {
        let ghost ss = self@.snapshots;
        let mut i: usize = self.snapshots.len();
        while i > 0
            invariant
                i <= self.snapshots@.len(),
                ss == snapshots_of(self.snapshots@),
                forall|k: int| i <= k < ss.len() ==> !fits(#[trigger] ss[k], epoch, root@),
            decreases i,
        {
            let s = &self.snapshots[i - 1];
            let epoch_ok = match epoch {
                Some(e) => s.epoch == e,
                None => true,
            };
            if epoch_ok && bytes_eq(&s.root, root) {
                return Some(i - 1);
            }
            i = i - 1;
        }
        None
    }

    /// A read-only state of a committed epoch, found by its root (and its
    /// epoch, where the index names one); the most recent such commit. `None` when no such epoch is kept.
    /// `try_open` has no effect: the history is always open.
    pub fn get_state_no_commit(&self, epoch_id: StateIndex, try_open: bool) -> (r: Result<Option<State>, StorageError>)
        requires
            self.wf(),
        ensures
            !epoch_id.read_only ==> r == Err::<Option<State>, StorageError>(StorageError::ContractViolation),
            epoch_id.read_only ==> match r {
                Ok(Some(s)) => s.wf() && exists|j: int| last_fit(self@.snapshots, epoch_id.epoch, root_hash(epoch_id.state_root), j)
                    && s@ == snapshot_state(self@.snapshots[j]),
                Ok(None) => !any_fit(self@.snapshots, epoch_id.epoch, root_hash(epoch_id.state_root)),
                Err(_) => false,
            },
    {
        if !epoch_id.is_read_only() {
            return Err(StorageError::ContractViolation);
        }
        match self.find(epoch_id.epoch, &epoch_id.state_root.state_root.hash) {
            None => Ok(None),
            Some(j) => {
                let s = &self.snapshots[j];
                assert(s.wf());
                assert(self@.snapshots[j as int] == s.model());
                let st = State::from_parts(true, s.epoch, bytes_copy(&s.root), s.content.copy());
                assert(st@ == snapshot_state(self@.snapshots[j as int]));
                assert(last_fit(self@.snapshots, epoch_id.epoch, root_hash(epoch_id.state_root), j as int));
                assert(st.wf());
                Ok(Some(st))
            },
        }
    }

    /// A writable state whose parent is a committed epoch. The sequential
    /// engine accepts only the parent right before its current epoch, and
    /// only an index that names its epoch.
    pub fn get_state_for_next_epoch(&self, parent_epoch_id: StateIndex) -> (r: Result<Option<State>, StorageError>)
        requires
            self.wf(),
        ensures
            self@.engine == Engine::Sequential && !(parent_epoch_id.epoch is Some
                && parent_epoch_id.epoch->Some_0 as int + 1 == self@.current_epoch)
                ==> r == Err::<Option<State>, StorageError>(StorageError::ContractViolation),
            (self@.engine == Engine::Trie || (parent_epoch_id.epoch is Some
                && parent_epoch_id.epoch->Some_0 as int + 1 == self@.current_epoch)) ==> match r {
                Ok(Some(s)) => s.wf() && exists|j: int| last_fit(self@.snapshots, parent_epoch_id.epoch, root_hash(parent_epoch_id.state_root), j)
                    && s@ == child_state(self@.snapshots[j]),
                Ok(None) => !any_fit(self@.snapshots, parent_epoch_id.epoch, root_hash(parent_epoch_id.state_root)),
                Err(_) => false,
            },
    {
        if self.engine == Engine::Sequential {
            match parent_epoch_id.epoch {
                Some(h) => {
                    if h >= self.current_epoch || h + 1 != self.current_epoch {
                        return Err(StorageError::ContractViolation);
                    }
                },
                None => {
                    return Err(StorageError::ContractViolation);
                },
            }
        }
        match self.find(parent_epoch_id.epoch, &parent_epoch_id.state_root.state_root.hash) {
            None => Ok(None),
            Some(j) => {
                let s = &self.snapshots[j];
                assert(s.wf());
                assert(self@.snapshots[j as int] == s.model());
                let st = State::from_parts(false, s.epoch, bytes_copy(&s.root), s.content.copy());
                assert(st@ == child_state(self@.snapshots[j as int]));
                assert(last_fit(self@.snapshots, parent_epoch_id.epoch, root_hash(parent_epoch_id.state_root), j as int));
                assert(st.wf());
                Ok(Some(st))
            },
        }
    }

    /// The first writable state: epoch 0, no keys, the root of the empty set.
    /// Only before anything was committed.
    pub fn get_state_for_genesis_write(&self) -> (r: Result<State, StorageError>)
        ensures
            self@.current_epoch != 0 ==> r is Err && r->Err_0 == StorageError::ContractViolation,
            self@.current_epoch == 0 ==> r is Ok && r->Ok_0.wf() && r->Ok_0@ == (StateModel {
                read_only: false,
                epoch: 0,
                root: root_of(Map::empty()),
                content: Map::empty(),
            }),
    {
        if self.current_epoch != 0 {
            return Err(StorageError::ContractViolation);
        }
        let content = KeySpace::new();
        let root = content.root();
        Ok(State::from_parts(false, 0, root, content))
    }

    /// Whether a commit of `epoch` keeps this engine's order.
    pub fn accepts_commit(&self, epoch: u64) -> (r: bool)
        ensures
            r == (self@.engine == Engine::Trie || self@.current_epoch == 0 || epoch == self@.current_epoch),
    {
        match self.engine {
            Engine::Trie => true,
            Engine::Sequential => self.current_epoch == 0 || epoch == self.current_epoch,
        }
    }

    /// Records a committed epoch.
    pub(crate) fn record(&mut self, epoch: u64, root: Vec<u8>, content: KeySpace)
        requires
            old(self).wf(),
            content.wf(),
            root@ == root_of(content@),
            epoch < u64::MAX,
        ensures
            final(self).wf(),
            final(self)@ == (ManagerModel {
                current_epoch: (epoch + 1) as u64,
                snapshots: old(self)@.snapshots.push(SnapshotModel { epoch, root: root@, content: content@ }),
                ..old(self)@
            }),
    {
        let ghost before = self.snapshots@;
        self.snapshots.push(Snapshot { epoch, root, content });
        self.current_epoch = epoch + 1;
        proof {
            assert(snapshots_of(self.snapshots@) =~= snapshots_of(before).push(self.snapshots@.last().model()));
            assert forall|i: int| 0 <= i < self.snapshots@.len() implies (#[trigger] self.snapshots@[i]).wf() by {
                if i < before.len() {
                    assert(self.snapshots@[i] == before[i]);
                }
            }
        }
    }

    /// Checkpoint metadata of `epoch`: kept every `snapshot_epoch_count`
    /// epochs for the epochs still held.
    pub fn get_snapshot_info_at_epoch(&self, epoch: u64) -> (r: Option<SnapshotInfo>)
        ensures
            match r {
                Some(info) => is_checkpoint(epoch, self@.snapshot_epoch_count) && info.epoch == epoch
                    && exists|j: int| 0 <= j < self@.snapshots.len() && self@.snapshots[j].epoch == epoch
                        && info.state_root@ == self@.snapshots[j].root,
                None => !is_checkpoint(epoch, self@.snapshot_epoch_count)
                    || forall|j: int| 0 <= j < self@.snapshots.len() ==> (#[trigger] self@.snapshots[j]).epoch != epoch,
            },
    {
        if self.snapshot_epoch_count == 0 || epoch % (self.snapshot_epoch_count as u64) != 0 {
            return None;
        }
        let ghost ss = self@.snapshots;
        let mut i: usize = 0;
        while i < self.snapshots.len()
            invariant
                i <= self.snapshots@.len(),
                ss == snapshots_of(self.snapshots@),
                forall|k: int| 0 <= k < i ==> (#[trigger] ss[k]).epoch != epoch,
                is_checkpoint(epoch, self@.snapshot_epoch_count),
            decreases self.snapshots@.len() - i,
        {
            if self.snapshots[i].epoch == epoch {
                assert(ss[i as int] == self.snapshots@[i as int].model());
                let info = SnapshotInfo { epoch, state_root: bytes_copy(&self.snapshots[i].root) };
                assert(is_checkpoint(epoch, self@.snapshot_epoch_count));
                assert(info.state_root@ == self@.snapshots[i as int].root);
                return Some(info);
            }
            i = i + 1;
        }
        None
    }

    /// Retention sweep: drops the committed epochs older than
    /// `era_epoch_count` epochs before `confirmed_height`, keeps the rest in
    /// order.
    pub fn maintain_state_confirmed(
        &mut self,
        stable_checkpoint_height: u64,
        era_epoch_count: u64,
        confirmed_height: u64,
    ) -> (r: Result<(), StorageError>)
        requires
            old(self).wf(),
        ensures
            final(self).wf(),
            r is Ok,
            final(self)@ == (ManagerModel {
                snapshots: retained(old(self)@.snapshots, era_epoch_count, confirmed_height),
                ..old(self)@
            }),
    {
        let ghost o = self@.snapshots;
        let ghost mut j: int = 0;
        let mut i: usize = 0;
        assert(o.take(0) =~= Seq::<SnapshotModel>::empty());
        assert(o.skip(0) =~= o);
        while i < self.snapshots.len()
            invariant
                self.wf(),
                0 <= j <= o.len(),
                i == retained(o.take(j), era_epoch_count, confirmed_height).len(),
                snapshots_of(self.snapshots@) == retained(o.take(j), era_epoch_count, confirmed_height) + o.skip(j),
                self.engine == old(self).engine,
                self.snapshot_epoch_count == old(self).snapshot_epoch_count,
                self.current_epoch == old(self).current_epoch,
            decreases self.snapshots@.len() - i,
        {
            let ghost before = self.snapshots@;
            let ghost kept = retained(o.take(j), era_epoch_count, confirmed_height);
            assert(o.take(j + 1).drop_last() =~= o.take(j));
            assert(snapshots_of(before)[i as int] == o[j]);
            let e = self.snapshots[i].epoch;
            if e < confirmed_height && confirmed_height - e > era_epoch_count {
                self.snapshots.remove(i);
                proof {
                    assert(o.take(j + 1).last() == o[j]);
                    assert(snapshots_of(self.snapshots@) =~= snapshots_of(before).remove(i as int));
                    assert(snapshots_of(self.snapshots@) =~= kept + o.skip(j + 1));
                    assert forall|k: int| 0 <= k < self.snapshots@.len() implies (#[trigger] self.snapshots@[k]).wf() by {
                        if k < i {
                            assert(self.snapshots@[k] == before[k]);
                        } else {
                            assert(self.snapshots@[k] == before[k + 1]);
                        }
                    }
                }
                i = i;
            } else {
                proof {
                    assert(snapshots_of(self.snapshots@) =~= kept.push(o[j]) + o.skip(j + 1));
                }
                i = i + 1;
            }
            proof {
                j = j + 1;
            }
        }
        proof {
            assert(j == o.len()) by {
                if j < o.len() {
                    assert(snapshots_of(self.snapshots@).len() > i);
                }
            }
            assert(o.take(j) =~= o);
            assert(o.skip(j) =~= Seq::<SnapshotModel>::empty());
            assert(snapshots_of(self.snapshots@) =~= retained(o, era_epoch_count, confirmed_height));
        }
        Ok(())
    }
}

} // verus!
