//! The registry of machines and snapshots.
//!
//! A machine is keyed by the repository it belongs to and its handle, a
//! snapshot by its id. Snapshots are found again by repository, handle and
//! commit.
use crate::paths;
use crate::seqs;
use crate::text;
use vstd::prelude::*;

verus! {

/// A live runtime and where it came from.
#[derive(Debug)]
pub struct Machine {
    pub handle: String,
    pub base_commit: Option<String>,
    pub recipe_hash: String,
    pub parent_machine: Option<String>,
    pub base_image_path: String,
    pub overlay_path: String,
    /// "live" or "sealed".
    pub lifecycle: String,
    pub detached: bool,
    pub created_at: i64,
    pub cpus: u8,
    pub ram_mib: u32,
    /// "host:guest" pairs, comma-separated. Empty = no ports published.
    pub port_map: String,
    /// Repository the machine was created from. Empty = no repository.
    pub project_root: String,
}

/// An immutable saved state of a machine.
#[derive(Debug)]
pub struct Snapshot {
    pub snapshot_id: String,
    pub handle: String,
    /// Repository the owning machine belonged to. Empty = no repository.
    pub project_root: String,
    pub head_sha: Option<String>,
    pub snapshot_path: String,
    pub content_hash: String,
    pub saved_at: i64,
}

impl Clone for Machine {
    fn clone(&self) -> (r: Machine)
        ensures
            r == *self,
    {
        Machine {
            handle: self.handle.clone(),
            base_commit: text::copy_opt(&self.base_commit),
            recipe_hash: self.recipe_hash.clone(),
            parent_machine: text::copy_opt(&self.parent_machine),
            base_image_path: self.base_image_path.clone(),
            overlay_path: self.overlay_path.clone(),
            lifecycle: self.lifecycle.clone(),
            detached: self.detached,
            created_at: self.created_at,
            cpus: self.cpus,
            ram_mib: self.ram_mib,
            port_map: self.port_map.clone(),
            project_root: self.project_root.clone(),
        }
    }
}

impl Clone for Snapshot {
    fn clone(&self) -> (r: Snapshot)
        ensures
            r == *self,
    {
        Snapshot {
            snapshot_id: self.snapshot_id.clone(),
            handle: self.handle.clone(),
            project_root: self.project_root.clone(),
            head_sha: text::copy_opt(&self.head_sha),
            snapshot_path: self.snapshot_path.clone(),
            content_hash: self.content_hash.clone(),
            saved_at: self.saved_at,
        }
    }
}

/// What a machine's row holds.
pub struct MachineModel {
    pub handle: Seq<char>,
    pub base_commit: Option<Seq<char>>,
    pub recipe_hash: Seq<char>,
    pub parent_machine: Option<Seq<char>>,
    pub base_image_path: Seq<char>,
    pub overlay_path: Seq<char>,
    pub lifecycle: Seq<char>,
    pub detached: bool,
    pub created_at: i64,
    pub cpus: u8,
    pub ram_mib: u32,
    pub port_map: Seq<char>,
    pub project_root: Seq<char>,
}

impl View for Machine {
    type V = MachineModel;

    open spec fn view(&self) -> MachineModel {
        MachineModel {
            handle: self.handle@,
            base_commit: text::opt_text(self.base_commit),
            recipe_hash: self.recipe_hash@,
            parent_machine: text::opt_text(self.parent_machine),
            base_image_path: self.base_image_path@,
            overlay_path: self.overlay_path@,
            lifecycle: self.lifecycle@,
            detached: self.detached,
            created_at: self.created_at,
            cpus: self.cpus,
            ram_mib: self.ram_mib,
            port_map: self.port_map@,
            project_root: self.project_root@,
        }
    }
}

impl Machine {
    /// The machine that `handle` names within one repository.
    pub open spec fn is_at(self, root: Seq<char>, handle: Seq<char>) -> bool {
        self.project_root@ == root && self.handle@ == handle
    }

    fn at(&self, root: &str, handle: &str) -> (r: bool)
        ensures
            r == self.is_at(root@, handle@),
    {
        text::same(self.project_root.as_str(), root) && text::same(self.handle.as_str(), handle)
    }

    /// The machine with another lifecycle.
    pub open spec fn with_lifecycle(self, old_row: Machine, lifecycle: Seq<char>) -> bool {
        &&& self.lifecycle@ == lifecycle
        &&& self == (Machine { lifecycle: self.lifecycle, ..old_row })
    }
}

impl Snapshot {
    /// A snapshot of the machine that `handle` names within one repository.
    pub open spec fn is_of(self, root: Seq<char>, handle: Seq<char>) -> bool {
        self.project_root@ == root && self.handle@ == handle
    }

    /// A snapshot of that machine for one commit, or for none.
    pub open spec fn is_tagged(
        self,
        root: Seq<char>,
        handle: Seq<char>,
        sha: Option<Seq<char>>,
    ) -> bool {
        self.is_of(root, handle) && text::opt_text(self.head_sha) == sha
    }

    /// A snapshot of that machine for one commit.
    pub open spec fn is_for(self, root: Seq<char>, handle: Seq<char>, sha: Seq<char>) -> bool {
        self.is_tagged(root, handle, Some(sha))
    }

    fn of(&self, root: &str, handle: &str) -> (r: bool)
        ensures
            r == self.is_of(root@, handle@),
    {
        text::same(self.project_root.as_str(), root) && text::same(self.handle.as_str(), handle)
    }

    fn tagged(&self, root: &str, handle: &str, sha: Option<&str>) -> (r: bool)
        ensures
            r == self.is_tagged(root@, handle@, text::opt_str(sha)),
    {
        let same = match (&self.head_sha, sha) {
            (Some(mine), Some(wanted)) => text::same(mine.as_str(), wanted),
            (None, None) => true,
            _ => false,
        };
        same && self.of(root, handle)
    }
}

/// The first machine that `handle` names in the repository.
pub open spec fn machine_in(rows: Seq<Machine>, root: Seq<char>, handle: Seq<char>) -> Option<
    Machine,
>
    decreases rows.len(),
{
    if rows.len() == 0 {
        None
    } else if rows[0].is_at(root, handle) {
        Some(rows[0])
    } else {
        machine_in(rows.skip(1), root, handle)
    }
}

/// The first snapshot with the id.
pub open spec fn snapshot_with_id(rows: Seq<Snapshot>, id: Seq<char>) -> Option<Snapshot>
    decreases rows.len(),
{
    if rows.len() == 0 {
        None
    } else if rows[0].snapshot_id@ == id {
        Some(rows[0])
    } else {
        snapshot_with_id(rows.skip(1), id)
    }
}

/// The snapshot saved last for the commit, or for none; of two saved in the
/// same second, the one recorded last.
pub open spec fn latest_tagged(
    rows: Seq<Snapshot>,
    root: Seq<char>,
    handle: Seq<char>,
    sha: Option<Seq<char>>,
) -> Option<Snapshot>
    decreases rows.len(),
{
    if rows.len() == 0 {
        None
    } else {
        let before = latest_tagged(rows.drop_last(), root, handle, sha);
        let last = rows.last();
        if last.is_tagged(root, handle, sha) && (before is None || before->0.saved_at
            <= last.saved_at) {
            Some(last)
        } else {
            before
        }
    }
}

/// The snapshot saved last for the commit.
pub open spec fn latest_for(
    rows: Seq<Snapshot>,
    root: Seq<char>,
    handle: Seq<char>,
    sha: Seq<char>,
) -> Option<Snapshot> {
    latest_tagged(rows, root, handle, Some(sha))
}

/// Some row still holds content with the hash.
pub open spec fn content_in(rows: Seq<Snapshot>, hash: Seq<char>) -> bool {
    exists|i: int| 0 <= i < rows.len() && (#[trigger] rows[i]).content_hash@ == hash
}

pub open spec fn creation_key() -> spec_fn(Machine) -> int {
    |m: Machine| m.created_at as int
}

/// The machines in the order of their creation; of one second, in the order
/// of the rows.
pub open spec fn by_creation(rows: Seq<Machine>) -> Seq<Machine> {
    seqs::sorted_by(rows, creation_key())
}

pub open spec fn save_key() -> spec_fn(Snapshot) -> int {
    |s: Snapshot| s.saved_at as int
}

/// The snapshots in the order in which they were saved; of one second, in
/// the order of the rows.
pub open spec fn by_save(rows: Seq<Snapshot>) -> Seq<Snapshot> {
    seqs::sorted_by(rows, save_key())
}

/// The snapshots of one machine.
pub open spec fn snapshots_of(rows: Seq<Snapshot>, root: Seq<char>, handle: Seq<char>) -> Seq<
    Snapshot,
> {
    seqs::select(rows, |s: Snapshot| s.is_of(root, handle))
}

/// The snapshots of every other machine.
pub open spec fn snapshots_not_of(
    rows: Seq<Snapshot>,
    root: Seq<char>,
    handle: Seq<char>,
) -> Seq<Snapshot> {
    seqs::select(rows, |s: Snapshot| !s.is_of(root, handle))
}

/// The machines but the one that `handle` names in the repository.
pub open spec fn machines_without(rows: Seq<Machine>, root: Seq<char>, handle: Seq<char>) -> Seq<
    Machine,
> {
    seqs::select(rows, |m: Machine| !m.is_at(root, handle))
}

/// A row with the same key is there already.
#[derive(Debug, PartialEq, Eq, Structural)]
pub enum StoreError {
    DuplicateMachine,
    DuplicateSnapshot,
}

/// The rows of both tables.
pub struct Registry {
    pub machines: Vec<Machine>,
    pub snapshots: Vec<Snapshot>,
}

/// No two machines share a key.
pub open spec fn machines_keyed(rows: Seq<Machine>) -> bool {
    seqs::pairwise(rows, |a: Machine, b: Machine| !a.is_at(b.project_root@, b.handle@))
}

/// No two snapshots share an id.
pub open spec fn snapshots_keyed(rows: Seq<Snapshot>) -> bool {
    seqs::pairwise(rows, |a: Snapshot, b: Snapshot| a.snapshot_id@ != b.snapshot_id@)
}

/// The project of the first machine with the handle.
pub open spec fn project_of(rows: Seq<Machine>, handle: Seq<char>) -> Option<Seq<char>>
    decreases rows.len(),
{
    if rows.len() == 0 {
        None
    } else if rows[0].handle@ == handle {
        Some(rows[0].project_root@)
    } else {
        project_of(rows.skip(1), handle)
    }
}

/// The project that a snapshot belongs to: its own, or where none is
/// recorded that of a machine with its handle.
pub open spec fn settled_project(rows: Seq<Machine>, s: Snapshot) -> Seq<char> {
    if s.project_root@.len() > 0 {
        s.project_root@
    } else {
        match project_of(rows, s.handle@) {
            Some(root) => root,
            None => s.project_root@,
        }
    }
}

/// The same snapshots, each with the project that it belongs to.
pub open spec fn settled(
    machines: Seq<Machine>,
    before: Seq<Snapshot>,
    after: Seq<Snapshot>,
) -> bool {
    &&& after.len() == before.len()
    &&& forall|i: int|
        0 <= i < before.len() ==> {
            let row = #[trigger] after[i];
            &&& row.project_root@ == settled_project(machines, before[i])
            &&& row == (Snapshot { project_root: row.project_root, ..before[i] })
        }
}

/// A column of a table: its name and its place in the primary key, from one.
pub struct Column {
    pub name: String,
    pub key_place: i64,
}

/// Machines are keyed by repository: the column is part of the primary key.
pub open spec fn scoped(columns: Seq<Column>) -> bool {
    exists|i: int|
        0 <= i < columns.len() && (#[trigger] columns[i]).key_place > 0 && columns[i].name@
            == "project_root"@
}

/// True if the machines table is keyed by repository, so that two
/// repositories can hold the same handle.
pub fn machines_scoped(columns: &[Column]) -> (r: bool)
    ensures
        r == scoped(columns@),
{
    for i in 0..columns.len()
        invariant
            forall|j: int|
                0 <= j < i ==> !((#[trigger] columns@[j]).key_place > 0 && columns@[j].name@
                    == "project_root"@),
    {
        if columns[i].key_place > 0 && text::same(columns[i].name.as_str(), "project_root") {
            return true;
        }
    }
    false
}

impl Registry {
    /// Takes over the rows of both tables. A snapshot without a project gets
    /// that of a machine with its handle.
    pub fn open(machines: Vec<Machine>, snapshots: Vec<Snapshot>) -> (r: Registry)
        ensures
            r.machines == machines,
            settled(machines@, snapshots@, r.snapshots@),
            machines_keyed(machines@) && snapshots_keyed(snapshots@) ==> r.keyed(),
    {
        let mut rows: Vec<Snapshot> = Vec::new();
        for i in 0..snapshots.len()
            invariant
                rows@.len() == i,
                forall|j: int|
                    0 <= j < i ==> {
                        let row = #[trigger] rows@[j];
                        &&& row.project_root@ == settled_project(machines@, snapshots@[j])
                        &&& row == (Snapshot { project_root: row.project_root, ..snapshots@[j] })
                    },
        {
            let mut row = snapshots[i].clone();
            if row.project_root.as_str().is_empty() {
                match first_project(&machines, row.handle.as_str()) {
                    Some(root) => {
                        row.project_root = root;
                    },
                    None => {},
                }
            }
            rows.push(row);
        }
        proof {
            let rel = |a: Snapshot, b: Snapshot| a.snapshot_id@ != b.snapshot_id@;
            if snapshots_keyed(snapshots@) {
                assert forall|a: int, b: int| 0 <= a < b < rows@.len() implies rel(
                    #[trigger] rows@[a],
                    #[trigger] rows@[b],
                ) by {
                    assert(rel(snapshots@[a], snapshots@[b]));
                }
            }
        }
        Registry { machines, snapshots: rows }
    }

    /// No two machines share a key, and no two snapshots an id.
    pub open spec fn keyed(&self) -> bool {
        machines_keyed(self.machines@) && snapshots_keyed(self.snapshots@)
    }

    /// The machine is recorded where its key is free, and nothing changes
    /// where it is taken.
    pub open spec fn takes_machine(self, m: Machine, after: Registry, r: Result<(), StoreError>) -> bool {
        if machine_in(self.machines@, m.project_root@, m.handle@) is None {
            r is Ok && after.machines@ == self.machines@.push(m) && after.snapshots
                == self.snapshots
        } else {
            r is Err && r->Err_0 == StoreError::DuplicateMachine && after == self
        }
    }

    /// The snapshot is recorded where its id is free, and nothing changes
    /// where it is taken.
    pub open spec fn takes_snapshot(self, s: Snapshot, after: Registry, r: Result<(), StoreError>) -> bool {
        if snapshot_with_id(self.snapshots@, s.snapshot_id@) is None {
            r is Ok && after.snapshots@ == self.snapshots@.push(s) && after.machines
                == self.machines
        } else {
            r is Err && r->Err_0 == StoreError::DuplicateSnapshot && after == self
        }
    }

    /// The machine that `handle` names in the repository.
    pub fn get_machine(&self, project_root: &str, handle: &str) -> (r: Option<Machine>)
        ensures
            r == machine_in(self.machines@, project_root@, handle@),
    {
        let n = self.machines.len();
        let mut i: usize = 0;
        assert(self.machines@.skip(0) =~= self.machines@);
        while i < n
            invariant
                n == self.machines@.len(),
                i <= n,
                machine_in(self.machines@, project_root@, handle@) == machine_in(
                    self.machines@.skip(i as int),
                    project_root@,
                    handle@,
                ),
            decreases n - i,
        {
            let ghost t = self.machines@.skip(i as int);
            assert(t[0] == self.machines@[i as int]);
            assert(t.skip(1) =~= self.machines@.skip(i as int + 1));
            if self.machines[i].at(project_root, handle) {
                return Some(self.machines[i].clone());
            }
            i = i + 1;
        }
        None
    }

    /// Records a machine, unless its key is taken.
    pub fn insert_machine(&mut self, m: &Machine) -> (r: Result<(), StoreError>)
        ensures
            old(self).takes_machine(*m, *final(self), r),
            old(self).keyed() ==> final(self).keyed(),
    {
        if self.get_machine(m.project_root.as_str(), m.handle.as_str()).is_some() {
            return Err(StoreError::DuplicateMachine);
        }
        proof {
            lemma_no_machine(self.machines@, m.project_root@, m.handle@);
        }
        self.machines.push(m.clone());
        Ok(())
    }

    /// The machines in the order of their creation.
    pub fn list_machines(&self) -> (r: Vec<Machine>)
        ensures
            r@ == by_creation(self.machines@),
    {
        let mut out: Vec<Machine> = Vec::new();
        for i in 0..self.machines.len()
            invariant
                out@ == by_creation(self.machines@.take(i as int)),
        {
            let ghost t = self.machines@.take(i as int + 1);
            assert(t.drop_last() =~= self.machines@.take(i as int));
            assert(t.last() == self.machines@[i as int]);
            place_machine(&mut out, self.machines[i].clone());
        }
        assert(self.machines@.take(self.machines@.len() as int) =~= self.machines@);
        out
    }

    /// Forgets the machine that `handle` names in the repository; its snapshots stay.
    pub fn remove_machine(&mut self, project_root: &str, handle: &str)
        ensures
            final(self).machines@ == machines_without(old(self).machines@, project_root@, handle@),
            final(self).snapshots == old(self).snapshots,
            old(self).keyed() ==> final(self).keyed(),
    {
        let mut kept: Vec<Machine> = Vec::new();
        let ghost keep = |m: Machine| !m.is_at(project_root@, handle@);
        for i in 0..self.machines.len()
            invariant
                *self == *old(self),
                keep == (|m: Machine| !m.is_at(project_root@, handle@)),
                kept@ == seqs::select(self.machines@.take(i as int), keep),
        {
            let ghost t = self.machines@.take(i as int + 1);
            assert(t.drop_last() =~= self.machines@.take(i as int));
            assert(t.last() == self.machines@[i as int]);
            if !self.machines[i].at(project_root, handle) {
                kept.push(self.machines[i].clone());
            }
        }
        assert(self.machines@.take(self.machines@.len() as int) =~= self.machines@);
        proof {
            if old(self).keyed() {
                seqs::lemma_select_pairwise(
                    old(self).machines@,
                    keep,
                    |a: Machine, b: Machine| !a.is_at(b.project_root@, b.handle@),
                );
            }
        }
        self.machines = kept;
    }

    /// Records whether the machine is live or sealed.
    pub fn set_lifecycle(&mut self, project_root: &str, handle: &str, lifecycle: &str)
        ensures
            final(self).snapshots == old(self).snapshots,
            final(self).machines@.len() == old(self).machines@.len(),
            forall|i: int|
                0 <= i < old(self).machines@.len() ==> {
                    let was = #[trigger] old(self).machines@[i];
                    if was.is_at(project_root@, handle@) {
                        final(self).machines@[i].with_lifecycle(was, lifecycle@)
                    } else {
                        final(self).machines@[i] == was
                    }
                },
            old(self).keyed() ==> final(self).keyed(),
    {
        let n = self.machines.len();
        let mut i: usize = 0;
        while i < n
            invariant
                n == self.machines@.len(),
                n == old(self).machines@.len(),
                i <= n,
                self.snapshots == old(self).snapshots,
                forall|j: int|
                    0 <= j < n ==> {
                        let was = #[trigger] old(self).machines@[j];
                        if j < i && was.is_at(project_root@, handle@) {
                            self.machines@[j].with_lifecycle(was, lifecycle@)
                        } else {
                            self.machines@[j] == was
                        }
                    },
            decreases n - i,
        {
            assert(self.machines@[i as int] == old(self).machines@[i as int]);
            if self.machines[i].at(project_root, handle) {
                let mut m = self.machines[i].clone();
                m.lifecycle = lifecycle.to_owned();
                self.machines.set(i, m);
            }
            i = i + 1;
        }
        proof {
            let rel = |a: Machine, b: Machine| !a.is_at(b.project_root@, b.handle@);
            if old(self).keyed() {
                assert forall|a: int, b: int| 0 <= a < b < n implies rel(
                    #[trigger] self.machines@[a],
                    #[trigger] self.machines@[b],
                ) by {
                    assert(rel(old(self).machines@[a], old(self).machines@[b]));
                }
            }
        }
    }

    /// The snapshot saved last for the machine at a commit.
    pub fn find_snapshot(&self, project_root: &str, handle: &str, head_sha: &str) -> (r: Option<
        Snapshot,
    >)
        ensures
            r == latest_for(self.snapshots@, project_root@, handle@, head_sha@),
    {
        self.find_tagged(project_root, handle, Some(head_sha))
    }

    fn find_tagged(&self, project_root: &str, handle: &str, head_sha: Option<&str>) -> (r: Option<
        Snapshot,
    >)
        ensures
            r == latest_tagged(self.snapshots@, project_root@, handle@, text::opt_str(head_sha)),
    {
        let mut best: Option<Snapshot> = None;
        for i in 0..self.snapshots.len()
            invariant
                best == latest_tagged(
                    self.snapshots@.take(i as int),
                    project_root@,
                    handle@,
                    text::opt_str(head_sha),
                ),
        {
            let ghost t = self.snapshots@.take(i as int + 1);
            assert(t.drop_last() =~= self.snapshots@.take(i as int));
            assert(t.last() == self.snapshots@[i as int]);
            if self.snapshots[i].tagged(project_root, handle, head_sha) {
                let later = match &best {
                    None => true,
                    Some(b) => b.saved_at <= self.snapshots[i].saved_at,
                };
                if later {
                    best = Some(self.snapshots[i].clone());
                }
            }
        }
        assert(self.snapshots@.take(self.snapshots@.len() as int) =~= self.snapshots@);
        best
    }

    pub fn get_snapshot_by_id(&self, snapshot_id: &str) -> (r: Option<Snapshot>)
        ensures
            r == snapshot_with_id(self.snapshots@, snapshot_id@),
    {
        let n = self.snapshots.len();
        let mut i: usize = 0;
        assert(self.snapshots@.skip(0) =~= self.snapshots@);
        while i < n
            invariant
                n == self.snapshots@.len(),
                i <= n,
                snapshot_with_id(self.snapshots@, snapshot_id@) == snapshot_with_id(
                    self.snapshots@.skip(i as int),
                    snapshot_id@,
                ),
            decreases n - i,
        {
            let ghost t = self.snapshots@.skip(i as int);
            assert(t[0] == self.snapshots@[i as int]);
            assert(t.skip(1) =~= self.snapshots@.skip(i as int + 1));
            if text::same(self.snapshots[i].snapshot_id.as_str(), snapshot_id) {
                return Some(self.snapshots[i].clone());
            }
            i = i + 1;
        }
        None
    }

    /// The snapshots of the machine, in the order in which they were saved.
    pub fn list_snapshots(&self, project_root: &str, handle: &str) -> (r: Vec<Snapshot>)
        ensures
            r@ == by_save(snapshots_of(self.snapshots@, project_root@, handle@)),
    {
        let mut out: Vec<Snapshot> = Vec::new();
        let ghost keep = |s: Snapshot| s.is_of(project_root@, handle@);
        for i in 0..self.snapshots.len()
            invariant
                keep == (|s: Snapshot| s.is_of(project_root@, handle@)),
                out@ == by_save(seqs::select(self.snapshots@.take(i as int), keep)),
        {
            let ghost t = self.snapshots@.take(i as int + 1);
            assert(t.drop_last() =~= self.snapshots@.take(i as int));
            assert(t.last() == self.snapshots@[i as int]);
            if self.snapshots[i].of(project_root, handle) {
                proof {
                    let was = seqs::select(t.drop_last(), keep);
                    assert(was.push(t.last()).drop_last() =~= was);
                }
                place_snapshot(&mut out, self.snapshots[i].clone());
            }
        }
        assert(self.snapshots@.take(self.snapshots@.len() as int) =~= self.snapshots@);
        out
    }

    /// Records a snapshot, unless its id is taken.
    pub fn insert_snapshot(&mut self, s: &Snapshot) -> (r: Result<(), StoreError>)
        ensures
            old(self).takes_snapshot(*s, *final(self), r),
            old(self).keyed() ==> final(self).keyed(),
    {
        if self.get_snapshot_by_id(s.snapshot_id.as_str()).is_some() {
            return Err(StoreError::DuplicateSnapshot);
        }
        proof {
            lemma_no_snapshot(self.snapshots@, s.snapshot_id@);
        }
        self.snapshots.push(s.clone());
        Ok(())
    }

    /// Forgets the snapshots of the machine and returns them, in the order in
    /// which they were saved.
    pub fn remove_snapshots(&mut self, project_root: &str, handle: &str) -> (r: Vec<Snapshot>)
        ensures
            r@ == by_save(snapshots_of(old(self).snapshots@, project_root@, handle@)),
            final(self).snapshots@ == snapshots_not_of(
                old(self).snapshots@,
                project_root@,
                handle@,
            ),
            final(self).machines == old(self).machines,
            old(self).keyed() ==> final(self).keyed(),
    {
        let removed = self.list_snapshots(project_root, handle);
        let mut kept: Vec<Snapshot> = Vec::new();
        let ghost keep = |s: Snapshot| !s.is_of(project_root@, handle@);
        for i in 0..self.snapshots.len()
            invariant
                *self == *old(self),
                keep == (|s: Snapshot| !s.is_of(project_root@, handle@)),
                kept@ == seqs::select(self.snapshots@.take(i as int), keep),
        {
            let ghost t = self.snapshots@.take(i as int + 1);
            assert(t.drop_last() =~= self.snapshots@.take(i as int));
            assert(t.last() == self.snapshots@[i as int]);
            if !self.snapshots[i].of(project_root, handle) {
                kept.push(self.snapshots[i].clone());
            }
        }
        assert(self.snapshots@.take(self.snapshots@.len() as int) =~= self.snapshots@);
        proof {
            if old(self).keyed() {
                seqs::lemma_select_pairwise(
                    old(self).snapshots@,
                    keep,
                    |a: Snapshot, b: Snapshot| a.snapshot_id@ != b.snapshot_id@,
                );
            }
        }
        self.snapshots = kept;
        removed
    }

    /// True if any snapshot still refers to the content.
    pub fn snapshot_content_referenced(&self, content_hash: &str) -> (r: bool)
        ensures
            r == content_in(self.snapshots@, content_hash@),
    {
        for i in 0..self.snapshots.len()
            invariant
                forall|j: int|
                    0 <= j < i ==> (#[trigger] self.snapshots@[j]).content_hash@ != content_hash@,
        {
            if text::same(self.snapshots[i].content_hash.as_str(), content_hash) {
                return true;
            }
        }
        false
    }
}

fn first_project(rows: &Vec<Machine>, handle: &str) -> (r: Option<String>)
    ensures
        text::opt_text(r) == project_of(rows@, handle@),
{
    let n = rows.len();
    let mut i: usize = 0;
    assert(rows@.skip(0) =~= rows@);
    while i < n
        invariant
            n == rows@.len(),
            i <= n,
            project_of(rows@, handle@) == project_of(rows@.skip(i as int), handle@),
        decreases n - i,
    {
        let ghost t = rows@.skip(i as int);
        assert(t[0] == rows@[i as int]);
        assert(t.skip(1) =~= rows@.skip(i as int + 1));
        if text::same(rows[i].handle.as_str(), handle) {
            return Some(rows[i].project_root.clone());
        }
        i = i + 1;
    }
    None
}

fn place_machine(rows: &mut Vec<Machine>, m: Machine)
    ensures
        final(rows)@ == seqs::put_by(old(rows)@, m, creation_key()),
{
    let mut i = rows.len();
    let ghost all = rows@;
    assert(all.take(i as int) =~= all);
    assert(all.skip(i as int) =~= Seq::<Machine>::empty());
    assert(seqs::put_by(all, m, creation_key()) =~= seqs::put_by(all.take(i as int), m, creation_key()) + all.skip(
        i as int,
    ));
    while i > 0 && rows[i - 1].created_at > m.created_at
        invariant
            i <= rows@.len(),
            rows@ == all,
            seqs::put_by(all, m, creation_key()) == seqs::put_by(all.take(i as int), m, creation_key()) + all.skip(
                i as int,
            ),
        decreases i,
    {
        proof {
            let t = all.take(i as int);
            assert(t.last() == all[i - 1]);
            assert(t.drop_last() =~= all.take(i - 1));
            assert(seqs::put_by(all.take(i - 1), m, creation_key()).push(all[i - 1]) + all.skip(i as int)
                =~= seqs::put_by(all.take(i - 1), m, creation_key()) + all.skip(i - 1));
        }
        i = i - 1;
    }
    proof {
        let t = all.take(i as int);
        if i > 0 {
            assert(t.last() == all[i - 1]);
        }
        assert(seqs::put_by(t, m, creation_key()) == t.push(m));
        assert(t.push(m) + all.skip(i as int) =~= all.insert(i as int, m));
    }
    rows.insert(i, m);
}

fn place_snapshot(rows: &mut Vec<Snapshot>, s: Snapshot)
    ensures
        final(rows)@ == seqs::put_by(old(rows)@, s, save_key()),
{
    let mut i = rows.len();
    let ghost all = rows@;
    assert(all.take(i as int) =~= all);
    assert(all.skip(i as int) =~= Seq::<Snapshot>::empty());
    assert(seqs::put_by(all, s, save_key()) =~= seqs::put_by(all.take(i as int), s, save_key()) + all.skip(i as int));
    while i > 0 && rows[i - 1].saved_at > s.saved_at
        invariant
            i <= rows@.len(),
            rows@ == all,
            seqs::put_by(all, s, save_key()) == seqs::put_by(all.take(i as int), s, save_key()) + all.skip(i as int),
        decreases i,
    {
        proof {
            let t = all.take(i as int);
            assert(t.last() == all[i - 1]);
            assert(t.drop_last() =~= all.take(i - 1));
            assert(seqs::put_by(all.take(i - 1), s, save_key()).push(all[i - 1]) + all.skip(i as int)
                =~= seqs::put_by(all.take(i - 1), s, save_key()) + all.skip(i - 1));
        }
        i = i - 1;
    }
    proof {
        let t = all.take(i as int);
        if i > 0 {
            assert(t.last() == all[i - 1]);
        }
        assert(seqs::put_by(t, s, save_key()) == t.push(s));
        assert(t.push(s) + all.skip(i as int) =~= all.insert(i as int, s));
    }
    rows.insert(i, s);
}

pub proof fn lemma_no_machine(rows: Seq<Machine>, root: Seq<char>, handle: Seq<char>)
    ensures
        machine_in(rows, root, handle) is None <==> forall|i: int|
            0 <= i < rows.len() ==> !(#[trigger] rows[i]).is_at(root, handle),
        machine_in(rows, root, handle) is Some ==> machine_in(rows, root, handle)->0.is_at(
            root,
            handle,
        ) && rows.contains(machine_in(rows, root, handle)->0),
    decreases rows.len(),
{
    if rows.len() > 0 {
        let t = rows.skip(1);
        lemma_no_machine(t, root, handle);
        if !rows[0].is_at(root, handle) {
            if machine_in(t, root, handle) is None {
                assert forall|i: int| 0 <= i < rows.len() implies !(#[trigger] rows[i]).is_at(
                    root,
                    handle,
                ) by {
                    if i > 0 {
                        assert(t[i - 1] == rows[i]);
                    }
                }
            } else {
                let m = machine_in(t, root, handle)->0;
                let k = choose|k: int| 0 <= k < t.len() && t[k] == m;
                assert(rows[k + 1] == m);
            }
        } else {
            assert(rows.contains(rows[0]));
        }
    }
}

pub proof fn lemma_no_snapshot(rows: Seq<Snapshot>, id: Seq<char>)
    ensures
        snapshot_with_id(rows, id) is None <==> forall|i: int|
            0 <= i < rows.len() ==> (#[trigger] rows[i]).snapshot_id@ != id,
    decreases rows.len(),
{
    if rows.len() > 0 {
        let t = rows.skip(1);
        lemma_no_snapshot(t, id);
        if rows[0].snapshot_id@ != id {
            if snapshot_with_id(t, id) is None {
                assert forall|i: int| 0 <= i < rows.len() implies (
                #[trigger] rows[i]).snapshot_id@ != id by {
                    if i > 0 {
                        assert(t[i - 1] == rows[i]);
                    }
                }
            } else {
                let k = choose|k: int| 0 <= k < t.len() && (#[trigger] t[k]).snapshot_id@ == id;
                assert(rows[k + 1].snapshot_id@ == id);
            }
        }
    }
}

/// The short id of content with the hash.
pub open spec fn short_id(hash: Seq<char>) -> Seq<char> {
    "s_"@ + text::byte_prefix(hash, 8)
}

/// The ids that are tried for content, one after the other: the short one,
/// the short one and the time, and then those two and a number.
pub open spec fn candidate(hash: Seq<char>, retry_at: i64, k: nat) -> Seq<char> {
    if k == 0 {
        short_id(hash)
    } else {
        let timed = short_id(hash) + "_"@ + text::decimal_signed(retry_at as int);
        if k == 1 {
            timed
        } else {
            timed + "_"@ + text::decimal(k)
        }
    }
}

/// The `k`-th candidate is the first that is free.
pub open spec fn first_free(rows: Seq<Snapshot>, hash: Seq<char>, retry_at: i64, k: nat) -> bool {
    &&& snapshot_with_id(rows, candidate(hash, retry_at, k)) is None
    &&& forall|j: nat|
        j < k ==> snapshot_with_id(rows, #[trigger] candidate(hash, retry_at, j)) is Some
}

/// The id under which content is recorded: the first candidate that is free.
pub open spec fn is_fresh_id(
    rows: Seq<Snapshot>,
    hash: Seq<char>,
    retry_at: i64,
    id: Seq<char>,
) -> bool {
    exists|k: nat|
        first_free(rows, hash, retry_at, k) && id == #[trigger] candidate(hash, retry_at, k)
}

proof fn lemma_candidates_differ(hash: Seq<char>, retry_at: i64, j: nat, k: nat)
    requires
        candidate(hash, retry_at, j) == candidate(hash, retry_at, k),
    ensures
        j == k,
{
    reveal_strlit("_");
    let short = short_id(hash);
    let timed = short + "_"@ + text::decimal_signed(retry_at as int);
    assert(timed.len() > short.len());
    if j >= 2 && k >= 2 {
        let n = (timed + "_"@).len() as int;
        assert(candidate(hash, retry_at, j).skip(n) =~= text::decimal(j));
        assert(candidate(hash, retry_at, k).skip(n) =~= text::decimal(k));
        text::decimal_round_trip(j);
        text::decimal_round_trip(k);
    }
}

/// There are more candidates than rows: not every one of as many as there
/// are rows, and one more, is taken.
proof fn lemma_candidates_suffice(rows: Seq<Snapshot>, hash: Seq<char>, retry_at: i64, k: nat)
    requires
        forall|j: nat|
            j < k ==> snapshot_with_id(rows, #[trigger] candidate(hash, retry_at, j)) is Some,
    ensures
        k <= rows.len(),
{
    let tried = Seq::new(k, |j: int| candidate(hash, retry_at, j as nat));
    let ids = rows.map_values(|s: Snapshot| s.snapshot_id@);
    assert forall|a: int, b: int| 0 <= a < tried.len() && 0 <= b < tried.len() && a
        != b implies tried[a] != tried[b] by {
        if tried[a] == tried[b] {
            lemma_candidates_differ(hash, retry_at, a as nat, b as nat);
        }
    }
    tried.unique_seq_to_set();
    assert forall|x: Seq<char>| tried.to_set().contains(x) implies ids.to_set().contains(x) by {
        let j = choose|j: int| 0 <= j < tried.len() && tried[j] == x;
        assert(x == candidate(hash, retry_at, j as nat));
        lemma_no_snapshot(rows, x);
        let i = choose|i: int| 0 <= i < rows.len() && (#[trigger] rows[i]).snapshot_id@ == x;
        assert(ids[i] == x);
    }
    ids.lemma_cardinality_of_set();
    vstd::seq_lib::seq_to_set_is_finite(ids);
    vstd::set_lib::lemma_len_subset(tried.to_set(), ids.to_set());
}

/// The first candidate that is free.
fn fresh_id(reg: &Registry, content_hash: &str, retry_at: i64) -> (r: String)
    requires
        shortens(content_hash@),
    ensures
        is_fresh_id(reg.snapshots@, content_hash@, retry_at, r@),
        snapshot_with_id(reg.snapshots@, r@) is None,
{
    let ghost rows = reg.snapshots@;
    let ghost hash = content_hash@;
    let mut short = "s_".to_owned();
    short.append(text::cut(content_hash, 8).as_str());
    assert(short@ == candidate(hash, retry_at, 0));
    if reg.get_snapshot_by_id(short.as_str()).is_none() {
        assert(first_free(rows, hash, retry_at, 0));
        return short;
    }
    let mut timed = short;
    timed.append("_");
    timed.append(text::format_signed(retry_at).as_str());
    assert(timed@ == candidate(hash, retry_at, 1));
    if reg.get_snapshot_by_id(timed.as_str()).is_none() {
        assert(first_free(rows, hash, retry_at, 1));
        return timed;
    }
    let n = reg.snapshots.len();
    let mut k: usize = 2;
    proof {
        lemma_candidates_suffice(rows, hash, retry_at, 2);
    }
    loop
        invariant
            rows == reg.snapshots@,
            hash == content_hash@,
            n == rows.len(),
            2 <= k <= n,
            timed@ == short_id(hash) + "_"@ + text::decimal_signed(retry_at as int),
            forall|j: nat|
                j < k ==> snapshot_with_id(rows, #[trigger] candidate(hash, retry_at, j)) is Some,
        decreases n - k,
    {
        let mut id = timed.clone();
        id.append("_");
        id.append(text::format_decimal(k as u64).as_str());
        assert(id@ == candidate(hash, retry_at, k as nat));
        if reg.get_snapshot_by_id(id.as_str()).is_none() {
            assert(first_free(rows, hash, retry_at, k as nat));
            return id;
        }
        proof {
            lemma_candidates_suffice(rows, hash, retry_at, (k + 1) as nat);
        }
        k = k + 1;
    }
}

/// The snapshot that a save of the content would repeat: the latest for the
/// commit, or the latest without one, where it holds the same content.
pub open spec fn repeated(
    rows: Seq<Snapshot>,
    root: Seq<char>,
    handle: Seq<char>,
    sha: Option<Seq<char>>,
    hash: Seq<char>,
) -> Option<Snapshot> {
    match latest_tagged(rows, root, handle, sha) {
        Some(s) if s.content_hash@ == hash => Some(s),
        _ => None,
    }
}

impl Snapshot {
    /// The snapshot records this content for this machine and commit.
    pub open spec fn records(
        self,
        root: Seq<char>,
        handle: Seq<char>,
        sha: Option<Seq<char>>,
        dir: Seq<char>,
        hash: Seq<char>,
        saved_at: i64,
    ) -> bool {
        &&& self.handle@ == handle
        &&& self.project_root@ == root
        &&& text::opt_text(self.head_sha) == sha
        &&& self.snapshot_path@ == paths::joined(dir, hash)
        &&& self.content_hash@ == hash
        &&& self.saved_at == saved_at
    }
}

/// A hash that is long enough to be shortened.
pub open spec fn shortens(hash: Seq<char>) -> bool {
    vstd::utf8::encode_utf8(hash).len() >= 8 && text::cuts_cleanly(hash, 8)
}

/// The hexadecimal text of a digest is long enough, and its short id holds
/// its first eight digits.
pub proof fn digests_shorten(digest: Seq<u8>)
    requires
        digest.len() >= 4,
    ensures
        shortens(text::hex_of(digest)),
        short_id(text::hex_of(digest)) == "s_"@ + text::hex_of(digest).take(8),
{
    let hash = text::hex_of(digest);
    text::hex_is_ascii(digest);
    text::ascii_prefix(hash, 8);
    vstd::utf8::is_ascii_chars_encode_utf8(hash);
}

/// Records the overlay's content as a snapshot. The same content for the
/// same commit, or again for none, is no new snapshot. Returns the snapshot, and whether it is
/// new.
pub fn save_snapshot(
    reg: &mut Registry,
    project_root: &str,
    handle: &str,
    head_sha: Option<&str>,
    snapshots_dir: &str,
    content_hash: &str,
    saved_at: i64,
    retry_at: i64,
) -> (r: Result<(Snapshot, bool), StoreError>)
    requires
        shortens(content_hash@),
    ensures
        final(reg).machines == old(reg).machines,
        old(reg).keyed() ==> final(reg).keyed(),
        match repeated(
            old(reg).snapshots@,
            project_root@,
            handle@,
            text::opt_str(head_sha),
            content_hash@,
        ) {
            Some(s) => r == Ok::<(Snapshot, bool), StoreError>((s, false)) && *final(reg) == *old(
                reg,
            ),
            None => {
                &&& r is Ok
                &&& r->Ok_0.1
                &&& is_fresh_id(
                    old(reg).snapshots@,
                    content_hash@,
                    retry_at,
                    r->Ok_0.0.snapshot_id@,
                )
                &&& r->Ok_0.0.records(
                    project_root@,
                    handle@,
                    text::opt_str(head_sha),
                    snapshots_dir@,
                    content_hash@,
                    saved_at,
                )
                &&& final(reg).snapshots@ == old(reg).snapshots@.push(r->Ok_0.0)
            },
        },
{
    if let Some(existing) = reg.find_tagged(project_root, handle, head_sha) {
        if text::same(existing.content_hash.as_str(), content_hash) {
            return Ok((existing, false));
        }
    }
    let id = fresh_id(reg, content_hash, retry_at);
    let head_owned: Option<String> = match head_sha {
        Some(sha) => Some(sha.to_owned()),
        None => None,
    };
    let snapshot = Snapshot {
        snapshot_id: id,
        handle: handle.to_owned(),
        project_root: project_root.to_owned(),
        head_sha: head_owned,
        snapshot_path: paths::join(snapshots_dir, content_hash),
        content_hash: content_hash.to_owned(),
        saved_at,
    };
    match reg.insert_snapshot(&snapshot) {
        Ok(_) => Ok((snapshot, true)),
        Err(e) => Err(e),
    }
}

/// The snapshot found for a commit is one of the machine's snapshots for
/// that commit, and none of those was saved after it.
pub proof fn found_is_latest(rows: Seq<Snapshot>, root: Seq<char>, handle: Seq<char>, sha: Seq<char>)
    ensures
        match latest_for(rows, root, handle, sha) {
            Some(s) => {
                &&& rows.contains(s)
                &&& s.is_for(root, handle, sha)
                &&& forall|i: int|
                    0 <= i < rows.len() && (#[trigger] rows[i]).is_for(root, handle, sha)
                        ==> rows[i].saved_at <= s.saved_at
            },
            None => forall|i: int|
                0 <= i < rows.len() ==> !(#[trigger] rows[i]).is_for(root, handle, sha),
        },
{
    lemma_latest_tagged(rows, root, handle, Some(sha));
    assert forall|i: int| 0 <= i < rows.len() implies (#[trigger] rows[i]).is_for(
        root,
        handle,
        sha,
    ) == rows[i].is_tagged(root, handle, Some(sha)) by {}
}

/// What is saved for a commit is what is found for it, as long as the clock
/// does not run backwards.
pub proof fn saved_is_found(
    rows: Seq<Snapshot>,
    s: Snapshot,
    root: Seq<char>,
    handle: Seq<char>,
    sha: Seq<char>,
)
    requires
        s.is_for(root, handle, sha),
        forall|i: int|
            0 <= i < rows.len() && (#[trigger] rows[i]).is_for(root, handle, sha)
                ==> rows[i].saved_at <= s.saved_at,
    ensures
        latest_for(rows.push(s), root, handle, sha) == Some(s),
{
    assert forall|i: int|
        0 <= i < rows.len() && (#[trigger] rows[i]).is_tagged(root, handle, Some(sha)) implies rows[i].saved_at
        <= s.saved_at by {
        assert(rows[i].is_for(root, handle, sha));
    }
    lemma_last_tagged(rows, s, root, handle, Some(sha));
}

/// Saving is idempotent: once content is recorded for a commit, or for none,
/// a further save of the same content repeats that snapshot.
pub proof fn save_is_idempotent(
    rows: Seq<Snapshot>,
    s: Snapshot,
    root: Seq<char>,
    handle: Seq<char>,
    sha: Option<Seq<char>>,
    dir: Seq<char>,
    hash: Seq<char>,
    saved_at: i64,
)
    requires
        s.records(root, handle, sha, dir, hash, saved_at),
        forall|i: int|
            0 <= i < rows.len() && (#[trigger] rows[i]).is_tagged(root, handle, sha)
                ==> rows[i].saved_at <= saved_at,
    ensures
        repeated(rows.push(s), root, handle, sha, hash) == Some(s),
{
    lemma_last_tagged(rows, s, root, handle, sha);
}

proof fn lemma_latest_tagged(
    rows: Seq<Snapshot>,
    root: Seq<char>,
    handle: Seq<char>,
    sha: Option<Seq<char>>,
)
    ensures
        match latest_tagged(rows, root, handle, sha) {
            Some(s) => {
                &&& rows.contains(s)
                &&& s.is_tagged(root, handle, sha)
                &&& forall|i: int|
                    0 <= i < rows.len() && (#[trigger] rows[i]).is_tagged(root, handle, sha)
                        ==> rows[i].saved_at <= s.saved_at
            },
            None => forall|i: int|
                0 <= i < rows.len() ==> !(#[trigger] rows[i]).is_tagged(root, handle, sha),
        },
    decreases rows.len(),
{
    if rows.len() > 0 {
        let t = rows.drop_last();
        lemma_latest_tagged(t, root, handle, sha);
        match latest_tagged(t, root, handle, sha) {
            Some(s) => {
                let k = choose|k: int| 0 <= k < t.len() && t[k] == s;
                assert(rows[k] == s);
            },
            None => {},
        }
        assert(rows[rows.len() - 1] == rows.last());
        assert forall|i: int| 0 <= i < t.len() implies #[trigger] rows[i] == t[i] by {}
    }
}

proof fn lemma_last_tagged(
    rows: Seq<Snapshot>,
    s: Snapshot,
    root: Seq<char>,
    handle: Seq<char>,
    sha: Option<Seq<char>>,
)
    requires
        s.is_tagged(root, handle, sha),
        forall|i: int|
            0 <= i < rows.len() && (#[trigger] rows[i]).is_tagged(root, handle, sha)
                ==> rows[i].saved_at <= s.saved_at,
    ensures
        latest_tagged(rows.push(s), root, handle, sha) == Some(s),
{
    assert(rows.push(s).drop_last() =~= rows);
    lemma_latest_tagged(rows, root, handle, sha);
    match latest_tagged(rows, root, handle, sha) {
        Some(b) => {
            let k = choose|k: int| 0 <= k < rows.len() && rows[k] == b;
            assert(rows[k].is_tagged(root, handle, sha));
        },
        None => {},
    }
}

/// Byte-identical states share storage: equal content has one path, whatever
/// machine, commit and time it was saved for.
pub proof fn equal_content_shares_path(
    a: Snapshot,
    b: Snapshot,
    dir: Seq<char>,
    hash: Seq<char>,
    a_owner: (Seq<char>, Seq<char>, Option<Seq<char>>, i64),
    b_owner: (Seq<char>, Seq<char>, Option<Seq<char>>, i64),
)
    requires
        a.records(a_owner.0, a_owner.1, a_owner.2, dir, hash, a_owner.3),
        b.records(b_owner.0, b_owner.1, b_owner.2, dir, hash, b_owner.3),
    ensures
        a.snapshot_path@ == b.snapshot_path@,
{
}

/// A snapshot saved for one commit leaves what is found for every other
/// machine, repository and commit as it was.
pub proof fn save_keeps_others(
    rows: Seq<Snapshot>,
    s: Snapshot,
    root: Seq<char>,
    handle: Seq<char>,
    sha: Seq<char>,
)
    requires
        !s.is_for(root, handle, sha),
    ensures
        latest_for(rows.push(s), root, handle, sha) == latest_for(rows, root, handle, sha),
{
    assert(rows.push(s).drop_last() =~= rows);
}

/// What was saved last for a commit stays what is found for it, however much
/// is saved for other machines, repositories and commits afterwards.
pub proof fn found_whatever_follows(
    rows: Seq<Snapshot>,
    later: Seq<Snapshot>,
    root: Seq<char>,
    handle: Seq<char>,
    sha: Seq<char>,
)
    requires
        forall|i: int| 0 <= i < later.len() ==> !(#[trigger] later[i]).is_for(root, handle, sha),
    ensures
        latest_for(rows + later, root, handle, sha) == latest_for(rows, root, handle, sha),
    decreases later.len(),
{
    if later.len() == 0 {
        assert(rows + later =~= rows);
    } else {
        let t = later.drop_last();
        assert forall|i: int| 0 <= i < t.len() implies !(#[trigger] t[i]).is_for(
            root,
            handle,
            sha,
        ) by {
            assert(later[i] == t[i]);
        }
        found_whatever_follows(rows, t, root, handle, sha);
        assert(rows + later =~= (rows + t).push(later.last()));
        assert(!later[later.len() - 1].is_for(root, handle, sha));
        save_keeps_others(rows + t, later.last(), root, handle, sha);
    }
}

/// A snapshot is found by its id once it is recorded. Without a commit it is
/// found by its id only.
pub proof fn found_by_id(
    rows: Seq<Snapshot>,
    s: Snapshot,
    root: Seq<char>,
    handle: Seq<char>,
    sha: Seq<char>,
)
    requires
        snapshot_with_id(rows, s.snapshot_id@) is None,
    ensures
        snapshot_with_id(rows.push(s), s.snapshot_id@) == Some(s),
        s.head_sha is None ==> latest_for(rows.push(s), root, handle, sha) == latest_for(
            rows,
            root,
            handle,
            sha,
        ),
    decreases rows.len(),
{
    assert(rows.push(s).drop_last() =~= rows);
    if rows.len() == 0 {
        assert(rows.push(s)[0] == s);
    } else {
        let t = rows.skip(1);
        assert(rows.push(s).skip(1) =~= t.push(s));
        found_by_id(t, s, root, handle, sha);
    }
}

/// Every snapshot's content is at the place in the directory that its hash names.
pub open spec fn content_addressed(rows: Seq<Snapshot>, dir: Seq<char>) -> bool {
    forall|i: int|
        0 <= i < rows.len() ==> {
            let hash = (#[trigger] rows[i]).content_hash@;
            &&& rows[i].snapshot_path@ == paths::joined(dir, hash)
            &&& hash.len() > 0 ==> hash[0] != '/'
        }
}

/// Saving and dropping keep every content at the place that its hash names.
pub proof fn content_stays_addressed(
    rows: Seq<Snapshot>,
    dir: Seq<char>,
    s: Snapshot,
    owner: (Seq<char>, Seq<char>, Option<Seq<char>>, i64),
    hash: Seq<char>,
    root: Seq<char>,
    handle: Seq<char>,
)
    requires
        content_addressed(rows, dir),
        s.records(owner.0, owner.1, owner.2, dir, hash, owner.3),
        hash.len() > 0 ==> hash[0] != '/',
    ensures
        content_addressed(rows.push(s), dir),
        content_addressed(snapshots_not_of(rows, root, handle), dir),
{
    let stays = snapshots_not_of(rows, root, handle);
    seqs::lemma_selected(rows, |x: Snapshot| !x.is_of(root, handle));
    assert forall|i: int| 0 <= i < stays.len() implies {
        let h = (#[trigger] stays[i]).content_hash@;
        &&& stays[i].snapshot_path@ == paths::joined(dir, h)
        &&& h.len() > 0 ==> h[0] != '/'
    } by {
        assert(stays.contains(stays[i]));
        assert(rows.contains(stays[i]));
        let k = choose|k: int| 0 <= k < rows.len() && rows[k] == stays[i];
        assert(rows[k].content_hash@ == stays[i].content_hash@);
    }
}

/// Different content is kept apart: where every content is at the place that
/// its hash names, a path names one content.
pub proof fn path_names_content(rows: Seq<Snapshot>, dir: Seq<char>, i: int, j: int)
    requires
        content_addressed(rows, dir),
        0 <= i < rows.len(),
        0 <= j < rows.len(),
        rows[i].snapshot_path@ == rows[j].snapshot_path@,
    ensures
        rows[i].content_hash@ == rows[j].content_hash@,
{
    let n = if dir.len() == 0 || dir.last() == '/' {
        dir.len() as int
    } else {
        (dir + "/"@).len() as int
    };
    assert(paths::joined(dir, rows[i].content_hash@).skip(n) =~= rows[i].content_hash@);
    assert(paths::joined(dir, rows[j].content_hash@).skip(n) =~= rows[j].content_hash@);
}

/// Repositories do not see each other's machines: recording a machine leaves
/// every other key as it was, and its own key finds it.
pub proof fn machines_are_scoped(rows: Seq<Machine>, m: Machine, root: Seq<char>, handle: Seq<char>)
    requires
        machine_in(rows, m.project_root@, m.handle@) is None,
    ensures
        machine_in(rows.push(m), root, handle) == if m.is_at(root, handle) {
            Some(m)
        } else {
            machine_in(rows, root, handle)
        },
    decreases rows.len(),
{
    let more = rows.push(m);
    if rows.len() == 0 {
        assert(more.skip(1) =~= rows);
    } else {
        assert(more.skip(1) =~= rows.skip(1).push(m));
        assert(more[0] == rows[0]);
        machines_are_scoped(rows.skip(1), m, root, handle);
    }
}

/// A machine that was removed is not found, and every other one still is.
pub proof fn removed_is_gone(
    rows: Seq<Machine>,
    root: Seq<char>,
    handle: Seq<char>,
    other_root: Seq<char>,
    other: Seq<char>,
)
    ensures
        machine_in(machines_without(rows, root, handle), other_root, other) == if root
            == other_root && handle == other {
            None
        } else {
            machine_in(rows, other_root, other)
        },
    decreases rows.len(),
{
    let keep = |m: Machine| !m.is_at(root, handle);
    lemma_select_first(rows, keep, other_root, other);
    if root == other_root && handle == other {
        lemma_no_machine(seqs::select(rows, keep), root, handle);
        seqs::lemma_selected(rows, keep);
        assert forall|i: int| 0 <= i < seqs::select(rows, keep).len() implies !(
        #[trigger] seqs::select(rows, keep)[i]).is_at(root, handle) by {
            assert(keep(seqs::select(rows, keep)[i]));
        }
    }
}

/// Selecting rows that include all of one key does not change what the key finds.
proof fn lemma_select_first(
    rows: Seq<Machine>,
    keep: spec_fn(Machine) -> bool,
    root: Seq<char>,
    handle: Seq<char>,
)
    ensures
        (forall|m: Machine| #[trigger] m.is_at(root, handle) ==> keep(m)) ==> machine_in(
            seqs::select(rows, keep),
            root,
            handle,
        ) == machine_in(rows, root, handle),
    decreases rows.len(),
{
    if rows.len() > 0 && (forall|m: Machine| #[trigger] m.is_at(root, handle) ==> keep(m)) {
        let t = rows.drop_last();
        lemma_select_first(t, keep, root, handle);
        lemma_push_first(t, rows.last(), root, handle);
        assert(t.push(rows.last()) =~= rows);
        lemma_push_first(seqs::select(t, keep), rows.last(), root, handle);
    }
}

proof fn lemma_push_first(rows: Seq<Machine>, m: Machine, root: Seq<char>, handle: Seq<char>)
    ensures
        machine_in(rows.push(m), root, handle) == if machine_in(rows, root, handle) is Some {
            machine_in(rows, root, handle)
        } else if m.is_at(root, handle) {
            Some(m)
        } else {
            None
        },
    decreases rows.len(),
{
    let more = rows.push(m);
    if rows.len() == 0 {
        assert(more.skip(1) =~= rows);
    } else {
        assert(more.skip(1) =~= rows.skip(1).push(m));
        assert(more[0] == rows[0]);
        lemma_push_first(rows.skip(1), m, root, handle);
    }
}

/// The listing of machines is sorted by creation and holds exactly the rows.
pub proof fn machines_listed_in_order(rows: Seq<Machine>)
    ensures
        by_creation(rows).to_multiset() == rows.to_multiset(),
        forall|i: int, j: int|
            0 <= i <= j < by_creation(rows).len() ==> (#[trigger] by_creation(rows)[i]).created_at
                <= (#[trigger] by_creation(rows)[j]).created_at,
{
    seqs::sorted_is_ascending(rows, creation_key());
    assert forall|i: int, j: int| 0 <= i <= j < by_creation(rows).len() implies (
    #[trigger] by_creation(rows)[i]).created_at <= (#[trigger] by_creation(
        rows,
    )[j]).created_at by {
        assert(creation_key()(by_creation(rows)[i]) <= creation_key()(by_creation(rows)[j]));
    }
}

/// The listing of a machine's snapshots is sorted by the time of the save
/// and holds exactly the rows of the machine.
pub proof fn snapshots_listed_in_order(rows: Seq<Snapshot>, root: Seq<char>, handle: Seq<char>)
    ensures
        by_save(snapshots_of(rows, root, handle)).to_multiset() == snapshots_of(
            rows,
            root,
            handle,
        ).to_multiset(),
        forall|i: int, j: int|
            0 <= i <= j < by_save(snapshots_of(rows, root, handle)).len() ==> (
            #[trigger] by_save(snapshots_of(rows, root, handle))[i]).saved_at <= (
            #[trigger] by_save(snapshots_of(rows, root, handle))[j]).saved_at,
        forall|s: Snapshot|
            #![trigger snapshots_of(rows, root, handle).contains(s)]
            snapshots_of(rows, root, handle).contains(s) <==> rows.contains(s) && s.is_of(
                root,
                handle,
            ),
{
    let own = snapshots_of(rows, root, handle);
    seqs::sorted_is_ascending(own, save_key());
    assert forall|i: int, j: int| 0 <= i <= j < by_save(own).len() implies (#[trigger] by_save(
        own,
    )[i]).saved_at <= (#[trigger] by_save(own)[j]).saved_at by {
        assert(save_key()(by_save(own)[i]) <= save_key()(by_save(own)[j]));
    }
    seqs::lemma_selected(rows, |s: Snapshot| s.is_of(root, handle));
}

} // verus!
