//! What the verbs decide.
//!
//! A verb turns the registry and what is known of the host into a list of
//! steps. The steps are carried out in order, up to the first that fails.
use crate::git;
use crate::keys;
use crate::paths;
use crate::ports;
use crate::seqs;
use crate::shim;
use crate::store;
use crate::sync;
use crate::text;
use vstd::prelude::*;

verus! {

/// One thing to do.
pub enum Step {
    /// Power the machine off if it runs, and wait until it is down.
    Stop(String),
    /// Kill a process group.
    Kill(i32),
    /// Run a project's command in the machine; a failure is only reported.
    Prepare { handle: String, command: String },
    /// Have the machine settle its file system. Fails unless the machine reports success.
    Quiesce(String),
    /// Flush a file to the physical drive.
    Flush(String),
    /// Remove a file if it is there.
    RemoveIfThere(String),
    /// Remove a file, whether or not that succeeds.
    TryRemove(String),
    /// Clone a disk. The target must not be there.
    CopyDisk { from: String, to: String },
    /// Record a machine in the registry.
    Record(store::Machine),
    /// Record a snapshot in the registry.
    RecordSnapshot(store::Snapshot),
    /// Remove a machine from the registry.
    Forget(String),
    /// Remove the snapshots of a machine from the registry.
    ForgetSnapshots(String),
    /// Start the machine, and wait until it is up.
    Boot(String),
    /// Forget what was last synced into the machine.
    ForgetSync(String),
    /// Sync the working tree into the machine.
    SyncTree(String),
    /// Run a command in the machine and hand its result to the caller.
    Request { handle: String, command: String },
}

/// What a step says.
pub enum StepModel {
    Stop(Seq<char>),
    Kill(i32),
    Prepare { handle: Seq<char>, command: Seq<char> },
    Quiesce(Seq<char>),
    Flush(Seq<char>),
    RemoveIfThere(Seq<char>),
    TryRemove(Seq<char>),
    CopyDisk { from: Seq<char>, to: Seq<char> },
    Record(store::MachineModel),
    RecordSnapshot(store::Snapshot),
    Forget(Seq<char>),
    ForgetSnapshots(Seq<char>),
    Boot(Seq<char>),
    ForgetSync(Seq<char>),
    SyncTree(Seq<char>),
    Request { handle: Seq<char>, command: Seq<char> },
}

impl View for Step {
    type V = StepModel;

    open spec fn view(&self) -> StepModel {
        match self {
            Step::Stop(h) => StepModel::Stop(h@),
            Step::Kill(pid) => StepModel::Kill(*pid),
            Step::Prepare { handle, command } => StepModel::Prepare {
                handle: handle@,
                command: command@,
            },
            Step::Quiesce(h) => StepModel::Quiesce(h@),
            Step::Flush(p) => StepModel::Flush(p@),
            Step::RemoveIfThere(p) => StepModel::RemoveIfThere(p@),
            Step::TryRemove(p) => StepModel::TryRemove(p@),
            Step::CopyDisk { from, to } => StepModel::CopyDisk { from: from@, to: to@ },
            Step::Record(m) => StepModel::Record(m@),
            Step::RecordSnapshot(snap) => StepModel::RecordSnapshot(*snap),
            Step::Forget(h) => StepModel::Forget(h@),
            Step::ForgetSnapshots(h) => StepModel::ForgetSnapshots(h@),
            Step::Boot(h) => StepModel::Boot(h@),
            Step::ForgetSync(h) => StepModel::ForgetSync(h@),
            Step::SyncTree(h) => StepModel::SyncTree(h@),
            Step::Request { handle, command } => StepModel::Request {
                handle: handle@,
                command: command@,
            },
        }
    }
}

/// What the steps of a list say.
pub open spec fn said(steps: Seq<Step>) -> Seq<StepModel> {
    steps.map_values(|s: Step| s@)
}

/// Where the live overlay of a machine is.
pub open spec fn overlay_of(
    machines_dir: Seq<char>,
    root: Seq<char>,
    handle: Seq<char>,
) -> Seq<char> {
    paths::joined(machines_dir, keys::machine_name(root, handle, keys::PERCENT) + ".img"@)
}

pub fn overlay_path(machines_dir: &str, project_root: &str, handle: &str) -> (r: String)
    ensures
        r@ == overlay_of(machines_dir@, project_root@, handle@),
{
    let mut name = keys::name_machine(project_root, handle, keys::PERCENT);
    name.append(".img");
    paths::join(machines_dir, name.as_str())
}

/// Machines do not share disks: in one directory, machines with different
/// handles or of different places have different overlays.
pub proof fn overlays_are_apart(
    machines_dir: Seq<char>,
    root: Seq<char>,
    handle: Seq<char>,
    other_root: Seq<char>,
    other: Seq<char>,
)
    requires
        handle != other || !keys::same_place(root, other_root),
    ensures
        overlay_of(machines_dir, root, handle) != overlay_of(machines_dir, other_root, other),
{
    reveal_strlit(".img");
    let a = keys::machine_name(root, handle, keys::PERCENT);
    let b = keys::machine_name(other_root, other, keys::PERCENT);
    keys::names_are_plain(root, handle, keys::PERCENT);
    keys::names_are_plain(other_root, other, keys::PERCENT);
    if overlay_of(machines_dir, root, handle) == overlay_of(machines_dir, other_root, other) {
        keys::files_tell_apart(machines_dir, a, ".img"@, b, ".img"@);
        keys::names_tell_apart(root, handle, other_root, other, keys::PERCENT);
    }
}

/// A machine to create or to bring back.
pub struct NewRequest {
    /// The repository; empty outside of any.
    pub project_root: String,
    pub name: String,
    /// A snapshot id, a machine or a git revision to start from.
    pub from: Option<String>,
    pub detached: bool,
    pub machines_dir: String,
}

/// What a machine of the project gets from the project.
pub struct ProjectFacts {
    pub base_image: String,
    pub recipe_hash: String,
    pub cpus: u8,
    pub ram_mib: u32,
}

/// What is settled last for a machine that is created.
pub struct Placement {
    /// Host and guest ports.
    pub ports: Vec<(u16, u16)>,
    pub created_at: i64,
}

/// What is known of the host and the repository; what has not been asked
/// for yet is open.
pub struct Facts {
    /// The commit that the handle shadows, if any.
    pub head: Option<Option<String>>,
    /// The live overlay is there.
    pub overlay_there: Option<bool>,
    /// The machine runs; of a machine to be created, the one it is forked from.
    pub running: Option<bool>,
    /// The hash of the live overlay.
    pub live_hash: Option<String>,
    pub project: Option<ProjectFacts>,
    /// The commit that the source names, if any.
    pub resolved: Option<Option<String>>,
    pub placement: Option<Placement>,
}

impl Facts {
    /// Nothing is known yet.
    pub fn none() -> (r: Facts)
        ensures
            r.head is None,
            r.overlay_there is None,
            r.running is None,
            r.live_hash is None,
            r.project is None,
            r.resolved is None,
            r.placement is None,
    {
        Facts {
            head: None,
            overlay_there: None,
            running: None,
            live_hash: None,
            project: None,
            resolved: None,
            placement: None,
        }
    }
}

/// Something to find out.
pub enum Question {
    /// Which commit does the handle shadow?
    Head,
    /// Is this file there?
    OverlayThere(String),
    /// Does this machine run?
    Running(String),
    /// What is the content hash of this file?
    LiveHash(String),
    /// What does the project say, and which image is its base? Builds the
    /// image on first use.
    Project,
    /// Which commit does this name?
    Resolve(String),
    /// Which host ports are free, and what time is it?
    Placement,
}

/// What a question asks.
pub enum QuestionModel {
    Head,
    OverlayThere(Seq<char>),
    Running(Seq<char>),
    LiveHash(Seq<char>),
    Project,
    Resolve(Seq<char>),
    Placement,
}

impl View for Question {
    type V = QuestionModel;

    open spec fn view(&self) -> QuestionModel {
        match self {
            Question::Head => QuestionModel::Head,
            Question::OverlayThere(p) => QuestionModel::OverlayThere(p@),
            Question::Running(h) => QuestionModel::Running(h@),
            Question::LiveHash(p) => QuestionModel::LiveHash(p@),
            Question::Project => QuestionModel::Project,
            Question::Resolve(s) => QuestionModel::Resolve(s@),
            Question::Placement => QuestionModel::Placement,
        }
    }
}

/// What an optional question asks.
pub open spec fn opt_question(q: Option<Question>) -> Option<QuestionModel> {
    match q {
        Some(q) => Some(q@),
        None => None,
    }
}

/// The snapshot that was saved for the commit, if there is a commit.
pub open spec fn saved_for(
    snapshots: Seq<store::Snapshot>,
    root: Seq<char>,
    name: Seq<char>,
    head: Option<Seq<char>>,
) -> Option<store::Snapshot> {
    match head {
        Some(sha) => store::latest_for(snapshots, root, name, sha),
        None => None,
    }
}

/// The snapshot saved last for the machine at the commit.
pub fn saved_snapshot(
    reg: &store::Registry,
    project_root: &str,
    name: &str,
    head: &Option<String>,
) -> (r: Option<store::Snapshot>)
    ensures
        r == saved_for(reg.snapshots@, project_root@, name@, text::opt_text(*head)),
{
    match head {
        Some(sha) => reg.find_snapshot(project_root, name, sha.as_str()),
        None => None,
    }
}

/// The source is meant as a snapshot id.
pub open spec fn is_snapshot_id(src: Seq<char>) -> bool {
    "s_"@.is_prefix_of(src)
}

/// What has to be found out next before the request can be decided, if
/// anything. The registry and the earlier answers decide what matters.
pub open spec fn asked(reg: store::Registry, req: NewRequest, facts: Facts) -> Option<QuestionModel> {
    match store::machine_in(reg.machines@, req.project_root@, req.name@) {
        Some(existing) => if facts.head is None {
            Some(QuestionModel::Head)
        } else {
            match saved_for(
                reg.snapshots@,
                req.project_root@,
                req.name@,
                text::opt_text(facts.head->0),
            ) {
                Some(_) => if facts.overlay_there is None {
                    Some(QuestionModel::OverlayThere(existing.overlay_path@))
                } else if !facts.overlay_there->0 {
                    None
                } else if facts.running is None {
                    Some(QuestionModel::Running(req.name@))
                } else if !facts.running->0 && facts.live_hash is None {
                    Some(QuestionModel::LiveHash(existing.overlay_path@))
                } else {
                    None
                },
                None => if facts.running is None {
                    Some(QuestionModel::Running(req.name@))
                } else {
                    None
                },
            }
        },
        None => if facts.project is None {
            Some(QuestionModel::Project)
        } else {
            match asked_of_source(reg, req, facts) {
                Some(q) => Some(q),
                None => if facts.placement is None && origin(reg, req, facts) is Ok {
                    Some(QuestionModel::Placement)
                } else {
                    None
                },
            }
        },
    }
}

/// What has to be found out about the source of a new machine.
pub open spec fn asked_of_source(
    reg: store::Registry,
    req: NewRequest,
    facts: Facts,
) -> Option<QuestionModel> {
    match req.from {
        None => if facts.head is None {
            Some(QuestionModel::Head)
        } else {
            None
        },
        Some(src) => if is_snapshot_id(src@) {
            None
        } else if store::machine_in(reg.machines@, req.project_root@, src@) is Some {
            if facts.running is None {
                Some(QuestionModel::Running(src@))
            } else {
                None
            }
        } else if facts.resolved is None {
            Some(QuestionModel::Resolve(src@))
        } else {
            None
        },
    }
}

/// Where the disk of a new machine comes from.
pub struct Origin {
    pub disk: Seq<char>,
    pub commit: Option<Seq<char>>,
    pub parent: Option<Seq<char>>,
    pub restored: Option<store::Snapshot>,
    /// What has to be done to the source before its disk is cloned.
    pub settle: Seq<StepModel>,
}

/// A machine that starts from the base image.
pub open spec fn from_base(facts: Facts, commit: Option<Seq<char>>) -> Origin {
    Origin {
        disk: facts.project->0.base_image@,
        commit,
        parent: None,
        restored: None,
        settle: Seq::<StepModel>::empty(),
    }
}

/// A machine that starts from a snapshot.
pub open spec fn from_snapshot(snap: store::Snapshot, commit: Option<Seq<char>>) -> Origin {
    Origin {
        disk: snap.snapshot_path@,
        commit,
        parent: None,
        restored: Some(snap),
        settle: Seq::<StepModel>::empty(),
    }
}

/// A machine that starts from what was saved for the commit, or else from
/// the base image.
pub open spec fn from_commit(
    reg: store::Registry,
    req: NewRequest,
    facts: Facts,
    commit: Option<Seq<char>>,
) -> Origin {
    match saved_for(reg.snapshots@, req.project_root@, req.name@, commit) {
        Some(snap) => from_snapshot(snap, commit),
        None => from_base(facts, commit),
    }
}

/// A machine that is forked from another, which settles its file system
/// first if it runs.
pub open spec fn from_machine(other: store::Machine, running: bool) -> Origin {
    let flush = StepModel::Flush(other.overlay_path@);
    Origin {
        disk: other.overlay_path@,
        commit: text::opt_text(other.base_commit),
        parent: Some(other.handle@),
        restored: None,
        settle: if running {
            seq![StepModel::Quiesce(other.handle@), flush]
        } else {
            seq![flush]
        },
    }
}

/// Why a source cannot be used.
pub enum NewError {
    NoSnapshot(String),
    NoSource(String),
}

/// What the error says.
pub enum NewErrorModel {
    NoSnapshot(Seq<char>),
    NoSource(Seq<char>),
}

impl View for NewError {
    type V = NewErrorModel;

    open spec fn view(&self) -> NewErrorModel {
        match self {
            NewError::NoSnapshot(s) => NewErrorModel::NoSnapshot(s@),
            NewError::NoSource(s) => NewErrorModel::NoSource(s@),
        }
    }
}

impl NewErrorModel {
    pub open spec fn text(self) -> Seq<char> {
        match self {
            NewErrorModel::NoSnapshot(s) => "no snapshot '"@ + s + "'"@,
            NewErrorModel::NoSource(s) => "'"@ + s + "' is not a snapshot, machine, or git commit"@,
        }
    }
}

impl NewError {
    pub fn message(&self) -> (r: String)
        ensures
            r@ == self@.text(),
    {
        match self {
            NewError::NoSnapshot(s) => text::concat3("no snapshot '", s.as_str(), "'"),
            NewError::NoSource(s) => text::concat3(
                "'",
                s.as_str(),
                "' is not a snapshot, machine, or git commit",
            ),
        }
    }
}

/// Where the disk of a new machine comes from: a snapshot, another machine,
/// what was saved for a commit, or the base image.
pub open spec fn origin(reg: store::Registry, req: NewRequest, facts: Facts) -> Result<
    Origin,
    NewErrorModel,
> {
    match req.from {
        Some(src) => if is_snapshot_id(src@) {
            match store::snapshot_with_id(reg.snapshots@, src@) {
                Some(snap) => Ok(from_snapshot(snap, text::opt_text(snap.head_sha))),
                None => Err(NewErrorModel::NoSnapshot(src@)),
            }
        } else {
            match store::machine_in(reg.machines@, req.project_root@, src@) {
                Some(other) => Ok(from_machine(other, facts.running->0)),
                None => match facts.resolved->0 {
                    Some(sha) => Ok(from_commit(reg, req, facts, Some(sha@))),
                    None => Err(NewErrorModel::NoSource(src@)),
                },
            }
        },
        None => Ok(from_commit(reg, req, facts, text::opt_text(facts.head->0))),
    }
}

/// The row of a machine that is created.
pub open spec fn new_row(req: NewRequest, facts: Facts, from: Origin) -> store::MachineModel {
    store::MachineModel {
        handle: req.name@,
        base_commit: from.commit,
        recipe_hash: facts.project->0.recipe_hash@,
        parent_machine: from.parent,
        base_image_path: facts.project->0.base_image@,
        overlay_path: overlay_of(req.machines_dir@, req.project_root@, req.name@),
        lifecycle: "live"@,
        detached: req.detached,
        created_at: facts.placement->0.created_at,
        cpus: facts.project->0.cpus,
        ram_mib: facts.project->0.ram_mib,
        port_map: ports::port_map_text(facts.placement->0.ports@),
        project_root: req.project_root@,
    }
}

/// What follows once the disk is in place: the guest's tree may differ from
/// anything remembered, so it is synced anew.
pub open spec fn bring_up(name: Seq<char>) -> Seq<StepModel> {
    seq![StepModel::Boot(name), StepModel::ForgetSync(name), StepModel::SyncTree(name)]
}

/// The steps that create a machine.
pub open spec fn create_steps(req: NewRequest, facts: Facts, from: Origin) -> Seq<StepModel> {
    let overlay = overlay_of(req.machines_dir@, req.project_root@, req.name@);
    from.settle + seq![
        StepModel::RemoveIfThere(overlay),
        StepModel::CopyDisk { from: from.disk, to: overlay },
        StepModel::Record(new_row(req, facts, from)),
    ] + bring_up(req.name@)
}

/// The live overlay holds exactly what the snapshot does.
pub open spec fn live_matches(facts: Facts, snap: store::Snapshot) -> bool {
    facts.overlay_there->0 && !facts.running->0 && facts.live_hash->0@ == snap.content_hash@
}

/// The snapshot that takes the place of the live overlay of an existing
/// machine: the one saved for the commit it shadows, unless the overlay is
/// the same already.
pub open spec fn replacement(reg: store::Registry, req: NewRequest, facts: Facts) -> Option<
    store::Snapshot,
> {
    match saved_for(reg.snapshots@, req.project_root@, req.name@, text::opt_text(facts.head->0)) {
        Some(snap) => if live_matches(facts, snap) {
            None
        } else {
            Some(snap)
        },
        None => None,
    }
}

/// The steps that restore a snapshot over the live overlay.
pub open spec fn restore_steps(
    existing: store::Machine,
    name: Seq<char>,
    snap: store::Snapshot,
) -> Seq<StepModel> {
    seq![
        StepModel::Stop(name),
        StepModel::RemoveIfThere(existing.overlay_path@),
        StepModel::CopyDisk { from: snap.snapshot_path@, to: existing.overlay_path@ },
    ] + bring_up(name)
}

/// The steps that bring an existing machine up as it is.
pub open spec fn reuse_steps(name: Seq<char>, running: bool) -> Seq<StepModel> {
    if running {
        bring_up(name).skip(1)
    } else {
        bring_up(name)
    }
}

/// What `new` did.
pub struct NewOutcome {
    pub handle: String,
    /// Set when the machine was rebooted from a saved snapshot.
    pub restored_from: Option<store::Snapshot>,
    pub created: bool,
    /// Set when the working tree was synced into the machine.
    pub synced: Option<sync::SyncOutcome>,
}

/// What `new` does, and what it reports once that is done.
pub struct NewPlan {
    pub steps: Vec<Step>,
    pub outcome: NewOutcome,
}

impl NewPlan {
    /// The plan has these steps and this outcome; nothing is synced yet.
    pub open spec fn is(
        self,
        steps: Seq<StepModel>,
        name: Seq<char>,
        restored: Option<store::Snapshot>,
        created: bool,
    ) -> bool {
        &&& said(self.steps@) == steps
        &&& self.outcome.handle@ == name
        &&& self.outcome.restored_from == restored
        &&& self.outcome.created == created
        &&& self.outcome.synced is None
    }
}

/// What `new` owes for a request: the plan, or the error.
pub open spec fn planned(
    reg: store::Registry,
    req: NewRequest,
    facts: Facts,
    r: Result<NewPlan, NewError>,
) -> bool {
    match store::machine_in(reg.machines@, req.project_root@, req.name@) {
        Some(existing) => r is Ok && match replacement(reg, req, facts) {
            Some(snap) => r->Ok_0.is(
                restore_steps(existing, req.name@, snap),
                req.name@,
                Some(snap),
                false,
            ),
            None => r->Ok_0.is(reuse_steps(req.name@, facts.running->0), req.name@, None, false),
        },
        None => match origin(reg, req, facts) {
            Ok(from) => r is Ok && r->Ok_0.is(
                create_steps(req, facts, from),
                req.name@,
                from.restored,
                true,
            ),
            Err(e) => r is Err && r->Err_0@ == e,
        },
    }
}

/// What has to be found out next, if anything.
pub fn next_question(reg: &store::Registry, req: &NewRequest, facts: &Facts) -> (r: Option<Question>)
    ensures
        opt_question(r) == asked(*reg, *req, *facts),
{
    let root = req.project_root.as_str();
    let name = req.name.as_str();
    match reg.get_machine(root, name) {
        Some(existing) => {
            let head = match &facts.head {
                None => return Some(Question::Head),
                Some(h) => h,
            };
            if saved_snapshot(reg, root, name, head).is_some() {
                match facts.overlay_there {
                    None => return Some(Question::OverlayThere(existing.overlay_path)),
                    Some(there) => if !there {
                        return None;
                    },
                }
                match facts.running {
                    None => Some(Question::Running(req.name.clone())),
                    Some(running) => if !running && facts.live_hash.is_none() {
                        Some(Question::LiveHash(existing.overlay_path))
                    } else {
                        None
                    },
                }
            } else if facts.running.is_none() {
                Some(Question::Running(req.name.clone()))
            } else {
                None
            }
        },
        None => {
            if facts.project.is_none() {
                return Some(Question::Project);
            }
            let known = match &req.from {
                None => {
                    if facts.head.is_none() {
                        return Some(Question::Head);
                    }
                    true
                },
                Some(src) => if text::starts_with(src.as_str(), "s_") {
                    reg.get_snapshot_by_id(src.as_str()).is_some()
                } else if reg.get_machine(root, src.as_str()).is_some() {
                    if facts.running.is_none() {
                        return Some(Question::Running(src.clone()));
                    }
                    true
                } else {
                    match &facts.resolved {
                        None => return Some(Question::Resolve(src.clone())),
                        Some(sha) => sha.is_some(),
                    }
                },
            };
            if known && facts.placement.is_none() {
                Some(Question::Placement)
            } else {
                None
            }
        },
    }
}

/// Where the disk of a new machine comes from.
struct Source {
    disk: String,
    commit: Option<String>,
    parent: Option<String>,
    restored: Option<store::Snapshot>,
    settle: Vec<Step>,
}

impl Source {
    spec fn view(self) -> Origin {
        Origin {
            disk: self.disk@,
            commit: text::opt_text(self.commit),
            parent: text::opt_text(self.parent),
            restored: self.restored,
            settle: said(self.settle@),
        }
    }
}

fn source_of_commit(
    reg: &store::Registry,
    req: &NewRequest,
    project: &ProjectFacts,
    commit: Option<String>,
    Ghost(facts): Ghost<Facts>,
) -> (r: Source)
    requires
        facts.project == Some(*project),
    ensures
        r.view() == from_commit(*reg, *req, facts, text::opt_text(commit)),
{
    let none: Vec<Step> = Vec::new();
    assert(said(none@) =~= Seq::<StepModel>::empty());
    match saved_snapshot(reg, req.project_root.as_str(), req.name.as_str(), &commit) {
        Some(snap) => Source {
            disk: snap.snapshot_path.clone(),
            commit,
            parent: None,
            restored: Some(snap),
            settle: none,
        },
        None => Source {
            disk: project.base_image.clone(),
            commit,
            parent: None,
            restored: None,
            settle: none,
        },
    }
}

fn source(reg: &store::Registry, req: &NewRequest, facts: &Facts, project: &ProjectFacts) -> (r: Result<
    Source,
    NewError,
>)
    requires
        facts.project == Some(*project),
        asked_of_source(*reg, *req, *facts) is None,
    ensures
        match origin(*reg, *req, *facts) {
            Ok(from) => r is Ok && r->Ok_0.view() == from,
            Err(e) => r is Err && r->Err_0@ == e,
        },
{
    match &req.from {
        Some(src) => {
            if text::starts_with(src.as_str(), "s_") {
                match reg.get_snapshot_by_id(src.as_str()) {
                    Some(snap) => {
                        let none: Vec<Step> = Vec::new();
                        assert(said(none@) =~= Seq::<StepModel>::empty());
                        Ok(
                            Source {
                                disk: snap.snapshot_path.clone(),
                                commit: text::copy_opt(&snap.head_sha),
                                parent: None,
                                restored: Some(snap),
                                settle: none,
                            },
                        )
                    },
                    None => Err(NewError::NoSnapshot(src.clone())),
                }
            } else {
                match reg.get_machine(req.project_root.as_str(), src.as_str()) {
                    Some(other) => {
                        let running = match facts.running {
                            Some(b) => b,
                            None => false,
                        };
                        let settle = if running {
                            vec![
                                Step::Quiesce(other.handle.clone()),
                                Step::Flush(other.overlay_path.clone()),
                            ]
                        } else {
                            vec![Step::Flush(other.overlay_path.clone())]
                        };
                        assert(said(settle@) =~= from_machine(other, running).settle);
                        Ok(
                            Source {
                                disk: other.overlay_path.clone(),
                                commit: text::copy_opt(&other.base_commit),
                                parent: Some(other.handle.clone()),
                                restored: None,
                                settle,
                            },
                        )
                    },
                    None => match &facts.resolved {
                        Some(Some(sha)) => Ok(
                            source_of_commit(reg, req, project, Some(sha.clone()), Ghost(*facts)),
                        ),
                        _ => Err(NewError::NoSource(src.clone())),
                    },
                }
            }
        },
        None => {
            let head = match &facts.head {
                Some(h) => text::copy_opt(h),
                None => None,
            };
            Ok(source_of_commit(reg, req, project, head, Ghost(*facts)))
        },
    }
}

fn up_steps(name: &str) -> (r: Vec<Step>)
    ensures
        said(r@) == bring_up(name@),
{
    let r = vec![
        Step::Boot(name.to_owned()),
        Step::ForgetSync(name.to_owned()),
        Step::SyncTree(name.to_owned()),
    ];
    assert(said(r@) =~= bring_up(name@));
    r
}

/// Brings an existing machine up: restores the snapshot saved for the commit
/// it shadows, or reuses the live overlay.
fn reopen(reg: &store::Registry, req: &NewRequest, facts: &Facts, existing: store::Machine) -> (r:
    NewPlan)
    requires
        store::machine_in(reg.machines@, req.project_root@, req.name@) == Some(existing),
        asked(*reg, *req, *facts) is None,
    ensures
        planned(*reg, *req, *facts, Ok(r)),
{
    let name = req.name.as_str();
    let head = match &facts.head {
        Some(h) => text::copy_opt(h),
        None => None,
    };
    let running = match facts.running {
        Some(b) => b,
        None => false,
    };
    if let Some(snap) = saved_snapshot(reg, req.project_root.as_str(), name, &head) {
        let there = match facts.overlay_there {
            Some(b) => b,
            None => false,
        };
        let same = there && !running && match &facts.live_hash {
            Some(h) => text::same(h.as_str(), snap.content_hash.as_str()),
            None => false,
        };
        if !same {
            let mut steps = vec![
                Step::Stop(req.name.clone()),
                Step::RemoveIfThere(existing.overlay_path.clone()),
                Step::CopyDisk {
                    from: snap.snapshot_path.clone(),
                    to: existing.overlay_path.clone(),
                },
            ];
            let mut up = up_steps(name);
            let ghost first = steps@;
            let ghost then = up@;
            steps.append(&mut up);
            assert(said(steps@) =~= said(first) + said(then));
            assert(said(steps@) =~= restore_steps(existing, req.name@, snap));
            return NewPlan {
                steps,
                outcome: NewOutcome {
                    handle: req.name.clone(),
                    restored_from: Some(snap),
                    created: false,
                    synced: None,
                },
            };
        }
    }
    let steps = if running {
        vec![Step::ForgetSync(req.name.clone()), Step::SyncTree(req.name.clone())]
    } else {
        up_steps(name)
    };
    assert(said(steps@) =~= reuse_steps(req.name@, running));
    NewPlan {
        steps,
        outcome: NewOutcome {
            handle: req.name.clone(),
            restored_from: None,
            created: false,
            synced: None,
        },
    }
}

/// The registry once the plan is carried out: a machine that was created has
/// a row, and nothing else changed.
pub open spec fn registered(
    before: store::Registry,
    after: store::Registry,
    req: NewRequest,
    facts: Facts,
    r: Result<NewPlan, NewError>,
) -> bool {
    &&& after.snapshots == before.snapshots
    &&& r is Ok && r->Ok_0.outcome.created ==> exists|row: store::Machine|
        {
            &&& after.machines@ == before.machines@.push(row)
            &&& row@ == new_row(req, facts, origin(before, req, facts)->Ok_0)
            &&& said(r->Ok_0.steps@).contains(StepModel::Record(row@))
        }
    &&& !(r is Ok && r->Ok_0.outcome.created) ==> after == before
}

/// Creates a machine, or brings an existing one to the commit it shadows.
/// The registry is left as it is once the steps are carried out.
pub fn new_machine(reg: &mut store::Registry, req: &NewRequest, facts: &Facts) -> (r: Result<
    NewPlan,
    NewError,
>)
    requires
        asked(*old(reg), *req, *facts) is None,
    ensures
        planned(*old(reg), *req, *facts, r),
        registered(*old(reg), *final(reg), *req, *facts, r),
        old(reg).keyed() ==> final(reg).keyed(),
{
    let root = req.project_root.as_str();
    if let Some(existing) = reg.get_machine(root, req.name.as_str()) {
        return Ok(reopen(reg, req, facts, existing));
    }
    let project = match &facts.project {
        Some(p) => p,
        None => {
            assert(false);
            return Err(NewError::NoSource(String::new()));
        },
    };
    let from = match source(reg, req, facts, project) {
        Ok(from) => from,
        Err(e) => return Err(e),
    };
    let ghost model = from.view();
    let (created_at, port_map) = match &facts.placement {
        Some(p) => (p.created_at, ports::format_port_map(&p.ports)),
        None => {
            assert(false);
            (0, String::new())
        },
    };
    let overlay = overlay_path(
        req.machines_dir.as_str(),
        req.project_root.as_str(),
        req.name.as_str(),
    );
    let row = store::Machine {
        handle: req.name.clone(),
        base_commit: from.commit,
        recipe_hash: project.recipe_hash.clone(),
        parent_machine: from.parent,
        base_image_path: project.base_image.clone(),
        overlay_path: overlay.clone(),
        lifecycle: "live".to_owned(),
        detached: req.detached,
        created_at,
        cpus: project.cpus,
        ram_mib: project.ram_mib,
        port_map,
        project_root: req.project_root.clone(),
    };
    assert(row@ == new_row(*req, *facts, model));
    let _ = reg.insert_machine(&row);
    let mut steps = from.settle;
    let ghost settle = steps@;
    let mut place = vec![
        Step::RemoveIfThere(overlay.clone()),
        Step::CopyDisk { from: from.disk, to: overlay },
        Step::Record(row.clone()),
    ];
    let ghost middle = place@;
    let mut up = up_steps(req.name.as_str());
    let ghost last = up@;
    steps.append(&mut place);
    steps.append(&mut up);
    assert(said(steps@) =~= said(settle) + said(middle) + said(last));
    assert(said(middle) =~= seq![
        StepModel::RemoveIfThere(overlay_of(req.machines_dir@, req.project_root@, req.name@)),
        StepModel::CopyDisk { from: model.disk, to: overlay_of(req.machines_dir@, req.project_root@, req.name@) },
        StepModel::Record(new_row(*req, *facts, model)),
    ]);
    assert(said(steps@)[settle.len() as int + 2] == StepModel::Record(row@));
    Ok(
        NewPlan {
            steps,
            outcome: NewOutcome {
                handle: req.name.clone(),
                restored_from: from.restored,
                created: true,
                synced: None,
            },
        },
    )
}

/// There is no machine with the name.
pub struct MissingMachine {
    pub name: String,
}

impl MissingMachine {
    /// The message of `save` and of the supervisor.
    pub fn message(&self) -> (r: String)
        ensures
            r@ == "no machine '"@ + self.name@ + "'"@,
    {
        text::concat3("no machine '", self.name.as_str(), "'")
    }

    /// The message of `run`.
    pub fn run_message(&self) -> (r: String)
        ensures
            r@ == "no machine '"@ + self.name@ + "' \u{2014} create it with `moo new "@ + self.name@
                + "`"@,
    {
        let name = self.name.as_str();
        let mut s = text::concat3("no machine '", name, "' \u{2014} create it with `moo new ");
        s.append(name);
        s.append("`");
        s
    }
}

/// The steps that run a command in a machine.
pub open spec fn run_steps(name: Seq<char>, running: bool, command: Seq<char>) -> Seq<StepModel> {
    let rest = seq![
        StepModel::SyncTree(name),
        StepModel::Request { handle: name, command },
    ];
    if running {
        rest
    } else {
        seq![StepModel::Boot(name)] + rest
    }
}

/// What running a command owes: the steps, where the machine exists.
pub open spec fn runs_command(
    machines: Seq<store::Machine>,
    root: Seq<char>,
    name: Seq<char>,
    running: bool,
    command: Seq<char>,
    r: Result<Vec<Step>, MissingMachine>,
) -> bool {
    match store::machine_in(machines, root, name) {
        Some(_) => r is Ok && said(r->Ok_0@) == run_steps(name, running, command),
        None => r is Err && r->Err_0.name@ == name,
    }
}

/// Runs a command in a machine. The machine is booted if it is down, and the
/// working tree is synced in before the command runs.
pub fn run_in_machine(
    reg: &store::Registry,
    project_root: &str,
    name: &str,
    running: bool,
    command: &str,
) -> (r: Result<Vec<Step>, MissingMachine>)
    ensures
        runs_command(reg.machines@, project_root@, name@, running, command@, r),
{
    if reg.get_machine(project_root, name).is_none() {
        return Err(MissingMachine { name: name.to_owned() });
    }
    let mut steps: Vec<Step> = Vec::new();
    if !running {
        steps.push(Step::Boot(name.to_owned()));
    }
    steps.push(Step::SyncTree(name.to_owned()));
    steps.push(Step::Request { handle: name.to_owned(), command: command.to_owned() });
    assert(said(steps@) =~= run_steps(name@, running, command@));
    Ok(steps)
}

/// The project's commands, as steps.
pub open spec fn prepare_steps(name: Seq<char>, commands: Seq<Seq<char>>) -> Seq<StepModel> {
    commands.map_values(|c: Seq<char>| StepModel::Prepare { handle: name, command: c })
}

/// The steps before the overlay of a machine is hashed and cloned: a running
/// machine runs the project's commands and settles its file system, and the
/// overlay is flushed to the drive.
pub open spec fn settle_steps(
    m: store::Machine,
    name: Seq<char>,
    running: bool,
    commands: Seq<Seq<char>>,
) -> Seq<StepModel> {
    let flush = StepModel::Flush(m.overlay_path@);
    if running {
        prepare_steps(name, commands).push(StepModel::Quiesce(name)).push(flush)
    } else {
        seq![flush]
    }
}

/// What a save owes before it looks at the overlay: the steps, where the
/// machine exists.
pub open spec fn prepares(
    machines: Seq<store::Machine>,
    root: Seq<char>,
    name: Seq<char>,
    running: bool,
    commands: Seq<Seq<char>>,
    r: Result<Vec<Step>, MissingMachine>,
) -> bool {
    match store::machine_in(machines, root, name) {
        Some(m) => r is Ok && said(r->Ok_0@) == settle_steps(m, name, running, commands),
        None => r is Err && r->Err_0.name@ == name,
    }
}

/// What a save does before it looks at the overlay.
pub fn prepare_save(
    reg: &store::Registry,
    project_root: &str,
    name: &str,
    running: bool,
    commands: &[String],
) -> (r: Result<Vec<Step>, MissingMachine>)
    ensures
        prepares(reg.machines@, project_root@, name@, running, text::texts(commands@), r),
{
    let m = match reg.get_machine(project_root, name) {
        Some(m) => m,
        None => return Err(MissingMachine { name: name.to_owned() }),
    };
    let mut steps: Vec<Step> = Vec::new();
    if running {
        let ghost all = prepare_steps(name@, text::texts(commands@));
        for i in 0..commands.len()
            invariant
                all == prepare_steps(name@, text::texts(commands@)),
                said(steps@) == all.take(i as int),
        {
            let ghost held = said(steps@);
            let step = Step::Prepare { handle: name.to_owned(), command: commands[i].clone() };
            steps.push(step);
            assert(said(steps@) =~= held.push(step@));
            assert(all.take(i as int + 1) =~= held.push(all[i as int]));
        }
        assert(all.take(all.len() as int) =~= all);
        steps.push(Step::Quiesce(name.to_owned()));
        steps.push(Step::Flush(m.overlay_path.clone()));
        assert(said(steps@) =~= settle_steps(m, name@, running, text::texts(commands@)));
    } else {
        steps.push(Step::Flush(m.overlay_path.clone()));
        assert(said(steps@) =~= settle_steps(m, name@, running, text::texts(commands@)));
    }
    Ok(steps)
}

/// What `save` did.
pub struct SaveOutcome {
    pub snapshot: store::Snapshot,
    pub fresh: bool,
}

/// The commit a save is associated with: none where the machine is detached.
pub open spec fn commit_for(m: store::Machine, head: Option<Seq<char>>) -> Option<Seq<char>> {
    if m.detached {
        None
    } else {
        head
    }
}

/// The time and place of a save.
pub struct SaveFacts {
    /// The commit that the handle shadows, if any.
    pub head: Option<String>,
    pub snapshots_dir: String,
    /// The hash of the overlay.
    pub content_hash: String,
    pub saved_at: i64,
    /// The time at which a taken id is replaced.
    pub retry_at: i64,
}

/// What a save owes: the snapshot that holds the content already, or a fresh
/// one for the commit that the machine shadows.
pub open spec fn saved(
    before: store::Registry,
    after: store::Registry,
    root: Seq<char>,
    name: Seq<char>,
    facts: SaveFacts,
    r: Result<SaveOutcome, MissingMachine>,
) -> bool {
    match store::machine_in(before.machines@, root, name) {
        None => r is Err && r->Err_0.name@ == name && after == before,
        Some(m) => {
            let sha = commit_for(m, text::opt_text(facts.head));
            let hash = facts.content_hash@;
            match store::repeated(before.snapshots@, root, name, sha, hash) {
                Some(s) => r is Ok && r->Ok_0.snapshot == s && !r->Ok_0.fresh && after == before,
                None => {
                    &&& r is Ok
                    &&& r->Ok_0.fresh
                    &&& store::is_fresh_id(
                        before.snapshots@,
                        hash,
                        facts.retry_at,
                        r->Ok_0.snapshot.snapshot_id@,
                    )
                    &&& r->Ok_0.snapshot.records(
                        root,
                        name,
                        sha,
                        facts.snapshots_dir@,
                        hash,
                        facts.saved_at,
                    )
                    &&& after.snapshots@ == before.snapshots@.push(r->Ok_0.snapshot)
                },
            }
        },
    }
}

/// Records the content of a machine's overlay as a snapshot for the commit
/// the machine shadows. `keep_steps` gives the steps that make it last.
pub fn save_machine(reg: &mut store::Registry, project_root: &str, name: &str, facts: &SaveFacts) -> (r:
    Result<SaveOutcome, MissingMachine>)
    requires
        store::shortens(facts.content_hash@),
    ensures
        final(reg).machines == old(reg).machines,
        old(reg).keyed() ==> final(reg).keyed(),
        saved(*old(reg), *final(reg), project_root@, name@, *facts, r),
{
    let m = match reg.get_machine(project_root, name) {
        Some(m) => m,
        None => return Err(MissingMachine { name: name.to_owned() }),
    };
    let head: Option<&str> = if m.detached {
        None
    } else {
        match &facts.head {
            Some(sha) => Some(sha.as_str()),
            None => None,
        }
    };
    let saved = store::save_snapshot(
        reg,
        project_root,
        name,
        head,
        facts.snapshots_dir.as_str(),
        facts.content_hash.as_str(),
        facts.saved_at,
        facts.retry_at,
    );
    let (snapshot, fresh) = saved.unwrap();
    Ok(SaveOutcome { snapshot, fresh })
}

/// The steps that keep what was saved: the overlay is cloned to the place of
/// the snapshot unless that content is there, and then the snapshot is
/// recorded. Nothing is left to do where the snapshot was there already.
pub open spec fn keep_plan(m: store::Machine, o: SaveOutcome, there: bool) -> Seq<StepModel> {
    let record = seq![StepModel::RecordSnapshot(o.snapshot)];
    if !o.fresh {
        Seq::<StepModel>::empty()
    } else if there {
        record
    } else {
        seq![
            StepModel::CopyDisk { from: m.overlay_path@, to: o.snapshot.snapshot_path@ },
        ] + record
    }
}

/// What is done once a save is decided; `there` says whether the snapshot's
/// file is there.
pub fn keep_steps(m: &store::Machine, o: &SaveOutcome, there: bool) -> (r: Vec<Step>)
    ensures
        said(r@) == keep_plan(*m, *o, there),
{
    let mut steps: Vec<Step> = Vec::new();
    if o.fresh {
        if !there {
            steps.push(
                Step::CopyDisk {
                    from: m.overlay_path.clone(),
                    to: o.snapshot.snapshot_path.clone(),
                },
            );
        }
        steps.push(Step::RecordSnapshot(o.snapshot.clone()));
    }
    assert(said(steps@) =~= keep_plan(*m, *o, there));
    steps
}

/// A command of the project failed in the machine.
pub open spec fn warning_text(name: Seq<char>, code: u8, out: Seq<u8>) -> Seq<char> {
    "moo: warning: quiesce command failed in '"@ + name + "' (exit "@ + text::decimal(code as nat)
        + "): "@ + text::trimmed(text::lossy_of(out))
}

/// What is reported of a project's command: nothing where it succeeded.
pub fn prepare_reply(name: &str, code: u8, out: &[u8]) -> (r: Option<String>)
    ensures
        r is None <==> code == 0,
        r is Some ==> r->0@ == warning_text(name@, code, out@),
{
    if code == 0 {
        return None;
    }
    let mut s = text::concat3("moo: warning: quiesce command failed in '", name, "' (exit ");
    s.append(text::format_decimal(code as u64).as_str());
    s.append("): ");
    s.append(text::trim(text::lossy_text(out).as_str()).as_str());
    Some(s)
}

/// What a machine's reply to a request to settle means before a save: it is
/// settled, or the message to fail with.
pub fn quiesce_reply(name: &str, code: u8, out: &[u8]) -> (r: Result<(), String>)
    ensures
        r is Ok <==> code == 0,
        r is Err ==> r->Err_0@ == "could not quiesce machine '"@ + name@ + "': "@ + text::lossy_of(
            out@,
        ),
{
    if code == 0 {
        return Ok(());
    }
    let mut s = text::concat3("could not quiesce machine '", name, "': ");
    s.append(text::lossy_text(out).as_str());
    Err(s)
}

/// What the reply means before a fork: the message leaves the output out.
pub fn fork_quiesce_reply(name: &str, code: u8) -> (r: Result<(), String>)
    ensures
        r is Ok <==> code == 0,
        r is Err ==> r->Err_0@ == "could not quiesce machine '"@ + name@ + "'"@,
{
    if code == 0 {
        return Ok(());
    }
    Err(text::concat3("could not quiesce machine '", name, "'"))
}

/// The process to kill: the number in the process id file, if it holds one.
pub open spec fn supervisor_of(pid_file: Option<Seq<char>>) -> Option<int> {
    match pid_file {
        Some(s) => text::i32_value(text::trimmed(s)),
        None => None,
    }
}

/// The steps that take a running machine down at once: its process group is
/// killed, and what it left in the runtime directory removed.
pub open spec fn kill_steps(
    runtime_dir: Seq<char>,
    root: Seq<char>,
    name: Seq<char>,
    pid_file: Option<Seq<char>>,
) -> Seq<StepModel> {
    let removals = shim::leftovers(runtime_dir, root, name).map_values(
        |p: Seq<char>| StepModel::TryRemove(p),
    );
    match supervisor_of(pid_file) {
        Some(pid) => seq![StepModel::Kill(pid as i32)] + removals,
        None => removals,
    }
}

/// The content files of removed snapshots that no other snapshot refers to.
pub open spec fn orphaned(removed: Seq<store::Snapshot>, kept: Seq<store::Snapshot>) -> Seq<Seq<char>>
    decreases removed.len(),
{
    if removed.len() == 0 {
        Seq::<Seq<char>>::empty()
    } else {
        let before = orphaned(removed.drop_last(), kept);
        if store::content_in(kept, removed.last().content_hash@) {
            before
        } else {
            before.push(removed.last().snapshot_path@)
        }
    }
}

/// A machine to destroy.
pub struct DropRequest {
    pub project_root: String,
    pub name: String,
    pub force: bool,
    pub drop_snapshots: bool,
    pub runtime_dir: String,
}

/// The steps that take the machine down.
pub open spec fn down_steps(req: DropRequest, running: bool, pid_file: Option<Seq<char>>) -> Seq<
    StepModel,
> {
    if !running {
        Seq::<StepModel>::empty()
    } else if req.force {
        kill_steps(req.runtime_dir@, req.project_root@, req.name@, pid_file)
    } else {
        seq![StepModel::Stop(req.name@)]
    }
}

/// The steps that forget the machine.
pub open spec fn forget_steps(reg: store::Registry, req: DropRequest) -> Seq<StepModel> {
    let forget_sync = StepModel::ForgetSync(req.name@);
    match store::machine_in(reg.machines@, req.project_root@, req.name@) {
        Some(m) => seq![
            StepModel::RemoveIfThere(m.overlay_path@),
            StepModel::Forget(req.name@),
            forget_sync,
        ],
        None => seq![forget_sync],
    }
}

/// The snapshots that go with the machine.
pub open spec fn dropped_snapshots(reg: store::Registry, req: DropRequest) -> Seq<store::Snapshot> {
    store::by_save(store::snapshots_of(reg.snapshots@, req.project_root@, req.name@))
}

/// The snapshots that stay.
pub open spec fn kept_snapshots(reg: store::Registry, req: DropRequest) -> Seq<store::Snapshot> {
    if req.drop_snapshots {
        store::snapshots_not_of(reg.snapshots@, req.project_root@, req.name@)
    } else {
        reg.snapshots@
    }
}

/// The content files that are deleted with the machine.
pub open spec fn deleted_content(reg: store::Registry, req: DropRequest) -> Seq<Seq<char>> {
    if req.drop_snapshots {
        orphaned(dropped_snapshots(reg, req), kept_snapshots(reg, req))
    } else {
        Seq::<Seq<char>>::empty()
    }
}

/// The steps that destroy a machine.
pub open spec fn drop_steps(
    reg: store::Registry,
    req: DropRequest,
    running: bool,
    pid_file: Option<Seq<char>>,
) -> Seq<StepModel> {
    let machine = down_steps(req, running, pid_file) + forget_steps(reg, req);
    if req.drop_snapshots {
        machine + seq![StepModel::ForgetSnapshots(req.name@)] + deleted_content(
            reg,
            req,
        ).map_values(|p: Seq<char>| StepModel::TryRemove(p))
    } else {
        machine
    }
}

fn push_removals(steps: &mut Vec<Step>, files: &[String])
    ensures
        said(final(steps)@) == said(old(steps)@) + text::texts(files@).map_values(
            |p: Seq<char>| StepModel::TryRemove(p),
        ),
{
    let ghost removals = text::texts(files@).map_values(|p: Seq<char>| StepModel::TryRemove(p));
    let ghost before = said(steps@);
    assert(before + removals.take(0) =~= before);
    for i in 0..files.len()
        invariant
            removals == text::texts(files@).map_values(|p: Seq<char>| StepModel::TryRemove(p)),
            said(steps@) == before + removals.take(i as int),
            before == said(old(steps)@),
    {
        let ghost held = said(steps@);
        let step = Step::TryRemove(files[i].clone());
        steps.push(step);
        assert(said(steps@) =~= held.push(step@));
        assert(removals[i as int] == step@);
        assert(before + removals.take(i as int + 1) =~= held.push(step@));
    }
    assert(removals.take(removals.len() as int) =~= removals);
}

/// The content files of the removed snapshots that no snapshot refers to any more.
pub fn unreferenced(removed: &[store::Snapshot], reg: &store::Registry) -> (r: Vec<String>)
    ensures
        text::texts(r@) == orphaned(removed@, reg.snapshots@),
{
    let mut out: Vec<String> = Vec::new();
    assert(text::texts(out@) =~= Seq::<Seq<char>>::empty());
    for i in 0..removed.len()
        invariant
            text::texts(out@) == orphaned(removed@.take(i as int), reg.snapshots@),
    {
        let ghost t = removed@.take(i as int + 1);
        assert(t.drop_last() =~= removed@.take(i as int));
        assert(t.last() == removed@[i as int]);
        if !reg.snapshot_content_referenced(removed[i].content_hash.as_str()) {
            let ghost held = text::texts(out@);
            out.push(removed[i].snapshot_path.clone());
            assert(text::texts(out@) =~= held.push(removed@[i as int].snapshot_path@));
        }
    }
    assert(removed@.take(removed@.len() as int) =~= removed@);
    out
}

/// Destroys the live machine. Its snapshots stay unless they are dropped
/// too. The registry is left as it is once the steps are carried out.
pub fn drop_machine(
    reg: &mut store::Registry,
    req: &DropRequest,
    running: bool,
    pid_file: Option<&str>,
) -> (r: Vec<Step>)
    ensures
        said(r@) == drop_steps(*old(reg), *req, running, text::opt_str(pid_file)),
        final(reg).machines@ == store::machines_without(
            old(reg).machines@,
            req.project_root@,
            req.name@,
        ),
        final(reg).snapshots@ == kept_snapshots(*old(reg), *req),
        old(reg).keyed() ==> final(reg).keyed(),
{
    let name = req.name.as_str();
    let root = req.project_root.as_str();
    let mut steps: Vec<Step> = Vec::new();
    if running {
        if req.force {
            if let Some(text) = pid_file {
                if let Some(pid) = text::parse_i32(text::trim(text).as_str()) {
                    steps.push(Step::Kill(pid));
                }
            }
            let ghost kill = said(steps@);
            let files = shim::runtime_leftovers(req.runtime_dir.as_str(), root, name);
            push_removals(&mut steps, &files);
            proof {
                match supervisor_of(text::opt_str(pid_file)) {
                    Some(pid) => {
                        assert(kill =~= seq![StepModel::Kill(pid as i32)]);
                    },
                    None => {
                        assert(kill =~= Seq::<StepModel>::empty());
                        assert(said(steps@) =~= kill_steps(
                            req.runtime_dir@,
                            req.project_root@,
                            req.name@,
                            text::opt_str(pid_file),
                        ));
                    },
                }
            }
        } else {
            steps.push(Step::Stop(req.name.clone()));
        }
    }
    assert(said(steps@) =~= down_steps(*req, running, text::opt_str(pid_file)));
    let ghost down = said(steps@);
    if let Some(m) = reg.get_machine(root, name) {
        steps.push(Step::RemoveIfThere(m.overlay_path));
        steps.push(Step::Forget(req.name.clone()));
    }
    steps.push(Step::ForgetSync(req.name.clone()));
    assert(said(steps@) =~= down + forget_steps(*old(reg), *req));
    reg.remove_machine(root, name);
    if req.drop_snapshots {
        let ghost held = said(steps@);
        let removed = reg.remove_snapshots(root, name);
        steps.push(Step::ForgetSnapshots(req.name.clone()));
        assert(said(steps@) =~= held + seq![StepModel::ForgetSnapshots(req.name@)]);
        let files = unreferenced(&removed, reg);
        push_removals(&mut steps, &files);
    }
    steps
}

/// One line of the listing.
pub struct LsRow {
    pub machine: store::Machine,
    pub running: bool,
    pub snapshots: Vec<store::Snapshot>,
}

/// The machine of the repository runs, as far as `running` says.
pub open spec fn runs<F: Fn(&str, &str) -> bool>(
    running: F,
    root: Seq<char>,
    handle: Seq<char>,
    up: bool,
) -> bool {
    exists|p: &str, h: &str|
        p@ == root && h@ == handle && #[trigger] call_ensures(running, (p, h), up)
}

/// The row shows this machine.
pub open spec fn shows<F: Fn(&str, &str) -> bool>(
    row: LsRow,
    m: store::Machine,
    snapshots: Seq<store::Snapshot>,
    running: F,
) -> bool {
    &&& row.machine == m
    &&& row.snapshots@ == store::by_save(
        store::snapshots_of(snapshots, m.project_root@, m.handle@),
    )
    &&& runs(running, m.project_root@, m.handle@, row.running)
}

/// The rows show these machines.
pub open spec fn lists<F: Fn(&str, &str) -> bool>(
    rows: Seq<LsRow>,
    machines: Seq<store::Machine>,
    snapshots: Seq<store::Snapshot>,
    running: F,
) -> bool {
    &&& rows.len() == machines.len()
    &&& forall|i: int|
        0 <= i < rows.len() ==> shows(#[trigger] rows[i], machines[i], snapshots, running)
}

/// Every machine, in the order of creation, with whether it runs and the
/// snapshots it has.
pub fn list<F: Fn(&str, &str) -> bool>(reg: &store::Registry, running: &F) -> (r: Vec<LsRow>)
    requires
        forall|p: &str, h: &str| #[trigger] call_requires(*running, (p, h)),
    ensures
        lists(r@, store::by_creation(reg.machines@), reg.snapshots@, *running),
{
    let machines = reg.list_machines();
    let mut rows: Vec<LsRow> = Vec::new();
    for i in 0..machines.len()
        invariant
            forall|p: &str, h: &str| #[trigger] call_requires(*running, (p, h)),
            rows@.len() == i,
            lists(rows@, machines@.take(i as int), reg.snapshots@, *running),
    {
        let h = machines[i].handle.as_str();
        let root = machines[i].project_root.as_str();
        let up = running(root, h);
        let snapshots = reg.list_snapshots(root, h);
        let ghost held = rows@;
        rows.push(LsRow { machine: machines[i].clone(), running: up, snapshots });
        proof {
            let t = machines@.take(i as int + 1);
            assert(call_ensures(*running, (root, h), up));
            assert(runs(*running, root@, h@, up));
            assert forall|j: int| 0 <= j < rows@.len() implies shows(
                #[trigger] rows@[j],
                t[j],
                reg.snapshots@,
                *running,
            ) by {
                if j < i {
                    assert(rows@[j] == held[j]);
                }
            }
        }
    }
    assert(machines@.take(machines@.len() as int) =~= machines@);
    rows
}

/// Only what is open is asked for, so each question is asked once.
pub proof fn asks_what_is_open(reg: store::Registry, req: NewRequest, facts: Facts)
    ensures
        match asked(reg, req, facts) {
            None => true,
            Some(q) => match q {
                QuestionModel::Head => facts.head is None,
                QuestionModel::OverlayThere(_) => facts.overlay_there is None,
                QuestionModel::Running(_) => facts.running is None,
                QuestionModel::LiveHash(_) => facts.live_hash is None,
                QuestionModel::Project => facts.project is None,
                QuestionModel::Resolve(_) => facts.resolved is None,
                QuestionModel::Placement => facts.placement is None,
            },
        },
{
}

/// `before` stands in the list, and `after` later.
pub open spec fn precedes_in(steps: Seq<StepModel>, before: StepModel, after: StepModel) -> bool {
    exists|i: int, j: int|
        0 <= i < j < steps.len() && #[trigger] steps[i] == before && #[trigger] steps[j] == after
}

/// The runtime follows the code: an existing machine gets the disk that was
/// saved for the commit it shadows before it boots, unless its live disk is
/// that already.
pub proof fn runtime_follows_commit(
    reg: store::Registry,
    req: NewRequest,
    facts: Facts,
    existing: store::Machine,
    snap: store::Snapshot,
    r: Result<NewPlan, NewError>,
)
    requires
        store::machine_in(reg.machines@, req.project_root@, req.name@) == Some(existing),
        saved_for(reg.snapshots@, req.project_root@, req.name@, text::opt_text(facts.head->0))
            == Some(snap),
        !live_matches(facts, snap),
        planned(reg, req, facts, r),
    ensures
        r is Ok,
        r->Ok_0.outcome.restored_from == Some(snap),
        precedes_in(
            said(r->Ok_0.steps@),
            StepModel::RemoveIfThere(existing.overlay_path@),
            StepModel::CopyDisk { from: snap.snapshot_path@, to: existing.overlay_path@ },
        ),
        precedes_in(
            said(r->Ok_0.steps@),
            StepModel::CopyDisk { from: snap.snapshot_path@, to: existing.overlay_path@ },
            StepModel::Boot(req.name@),
        ),
{
    let steps = said(r->Ok_0.steps@);
    assert(steps[1] == StepModel::RemoveIfThere(existing.overlay_path@));
    assert(steps[2] == (StepModel::CopyDisk {
        from: snap.snapshot_path@,
        to: existing.overlay_path@,
    }));
    assert(steps[3] == StepModel::Boot(req.name@));
}

/// What is saved comes back: once a machine's content is saved for a commit,
/// the machine at that commit boots from the place that the content's hash
/// names, whatever is saved for others in between. It is left alone only
/// where its live disk has that hash already.
pub proof fn saved_state_returns(
    reg: store::Registry,
    req: NewRequest,
    facts: Facts,
    existing: store::Machine,
    before: Seq<store::Snapshot>,
    saved: store::Snapshot,
    later: Seq<store::Snapshot>,
    sha: Seq<char>,
    dir: Seq<char>,
    hash: Seq<char>,
    saved_at: i64,
    r: Result<NewPlan, NewError>,
)
    requires
        saved.records(req.project_root@, req.name@, Some(sha), dir, hash, saved_at),
        forall|i: int|
            0 <= i < before.len() && (#[trigger] before[i]).is_for(
                req.project_root@,
                req.name@,
                sha,
            ) ==> before[i].saved_at <= saved_at,
        forall|i: int|
            0 <= i < later.len() ==> !(#[trigger] later[i]).is_for(
                req.project_root@,
                req.name@,
                sha,
            ),
        reg.snapshots@ == before.push(saved) + later,
        store::machine_in(reg.machines@, req.project_root@, req.name@) == Some(existing),
        text::opt_text(facts.head->0) == Some(sha),
        planned(reg, req, facts, r),
    ensures
        r is Ok,
        r->Ok_0.outcome.restored_from is None ==> facts.live_hash->0@ == hash,
        r->Ok_0.outcome.restored_from is Some ==> {
            &&& r->Ok_0.outcome.restored_from == Some(saved)
            &&& precedes_in(
                said(r->Ok_0.steps@),
                StepModel::CopyDisk {
                    from: paths::joined(dir, hash),
                    to: existing.overlay_path@,
                },
                StepModel::Boot(req.name@),
            )
        },
{
    store::found_whatever_follows(before.push(saved), later, req.project_root@, req.name@, sha);
    store::saved_is_found(before, saved, req.project_root@, req.name@, sha);
    if !live_matches(facts, saved) {
        runtime_follows_commit(reg, req, facts, existing, saved, r);
    }
}

/// The files after one step, as far as the step itself changes files: a clone
/// needs its source, and nothing in the place of its target.
pub open spec fn files_after_step(
    files: Map<Seq<char>, Seq<u8>>,
    step: StepModel,
) -> Map<Seq<char>, Seq<u8>> {
    match step {
        StepModel::RemoveIfThere(p) | StepModel::TryRemove(p) => files.remove(p),
        StepModel::CopyDisk { from, to } => if files.dom().contains(from)
            && !files.dom().contains(to) {
            files.insert(to, files[from])
        } else {
            files
        },
        _ => files,
    }
}

/// The files after the steps of a list.
pub open spec fn files_after(
    files: Map<Seq<char>, Seq<u8>>,
    steps: Seq<StepModel>,
) -> Map<Seq<char>, Seq<u8>>
    decreases steps.len(),
{
    if steps.len() == 0 {
        files
    } else {
        files_after_step(files_after(files, steps.drop_last()), steps.last())
    }
}

/// A fresh save keeps the content of the overlay: afterwards the snapshot's
/// file holds it, and no file that was there has changed. The snapshot is
/// recorded last. A file that stands in that place before is taken for the
/// same content, which its name says.
pub proof fn save_keeps_content(
    files: Map<Seq<char>, Seq<u8>>,
    m: store::Machine,
    o: SaveOutcome,
    there: bool,
)
    requires
        o.fresh,
        files.dom().contains(m.overlay_path@),
        there == files.dom().contains(o.snapshot.snapshot_path@),
        there ==> files[o.snapshot.snapshot_path@] == files[m.overlay_path@],
    ensures
        ({
            let after = files_after(files, keep_plan(m, o, there));
            &&& after.dom().contains(o.snapshot.snapshot_path@)
            &&& after[o.snapshot.snapshot_path@] == files[m.overlay_path@]
            &&& forall|p: Seq<char>| #[trigger]
                files.dom().contains(p) ==> after.dom().contains(p) && after[p] == files[p]
        }),
        keep_plan(m, o, there).last() == StepModel::RecordSnapshot(o.snapshot),
        !there ==> precedes_in(
            keep_plan(m, o, there),
            StepModel::CopyDisk { from: m.overlay_path@, to: o.snapshot.snapshot_path@ },
            StepModel::RecordSnapshot(o.snapshot),
        ),
{
    let steps = keep_plan(m, o, there);
    reveal_with_fuel(files_after, 3);
    if !there {
        let copy = StepModel::CopyDisk {
            from: m.overlay_path@,
            to: o.snapshot.snapshot_path@,
        };
        assert(steps[0] == copy);
        assert(steps[1] == StepModel::RecordSnapshot(o.snapshot));
        assert(steps.drop_last() =~= seq![copy]);
        assert(seq![copy].drop_last() =~= Seq::<StepModel>::empty());
    } else {
        assert(steps.drop_last() =~= Seq::<StepModel>::empty());
    }
}

/// What is saved comes back byte for byte: restoring a snapshot leaves in the
/// machine's overlay what the snapshot's file holds, and keeps that file.
pub proof fn restore_brings_content(
    files: Map<Seq<char>, Seq<u8>>,
    existing: store::Machine,
    name: Seq<char>,
    snap: store::Snapshot,
)
    requires
        files.dom().contains(snap.snapshot_path@),
        snap.snapshot_path@ != existing.overlay_path@,
    ensures
        ({
            let after = files_after(files, restore_steps(existing, name, snap));
            &&& after.dom().contains(existing.overlay_path@)
            &&& after[existing.overlay_path@] == files[snap.snapshot_path@]
            &&& after.dom().contains(snap.snapshot_path@)
            &&& after[snap.snapshot_path@] == files[snap.snapshot_path@]
        }),
{
    let steps = restore_steps(existing, name, snap);
    reveal_with_fuel(files_after, 7);
    assert(steps.len() == 6);
    let five = steps.drop_last();
    let four = five.drop_last();
    let three = four.drop_last();
    let two = three.drop_last();
    let one = two.drop_last();
    assert(steps.last() == StepModel::SyncTree(name));
    assert(five.last() == StepModel::ForgetSync(name));
    assert(four.last() == StepModel::Boot(name));
    assert(three.last() == (StepModel::CopyDisk {
        from: snap.snapshot_path@,
        to: existing.overlay_path@,
    }));
    assert(two.last() == StepModel::RemoveIfThere(existing.overlay_path@));
    assert(one.last() == StepModel::Stop(name));
    assert(files_after(files, one) == files);
}

/// The machine follows the checkout: with a commit checked out by itself, as
/// after `git checkout HEAD^`, an existing machine boots what was saved for
/// that commit, whatever the branch with its name points at.
pub proof fn checkout_is_followed<G: Fn(Vec<String>) -> Option<String>>(
    run_git: G,
    reg: store::Registry,
    req: NewRequest,
    facts: Facts,
    existing: store::Machine,
    commit: Seq<char>,
    snap: store::Snapshot,
    r: Result<NewPlan, NewError>,
)
    requires
        forall|a: Option<String>| #[trigger]
            git::answered(run_git, git::branch_args(), a) ==> a is None,
        forall|a: Option<String>| #[trigger]
            git::answered(run_git, git::resolve_args("HEAD"@), a) ==> text::opt_text(a) == Some(
                commit,
            ),
        facts.head is Some,
        git::shadows(run_git, req.name@, facts.head->0),
        store::machine_in(reg.machines@, req.project_root@, req.name@) == Some(existing),
        store::latest_for(reg.snapshots@, req.project_root@, req.name@, commit) == Some(snap),
        !live_matches(facts, snap),
        planned(reg, req, facts, r),
    ensures
        r is Ok,
        r->Ok_0.outcome.restored_from == Some(snap),
        snap.is_for(req.project_root@, req.name@, commit),
        precedes_in(
            said(r->Ok_0.steps@),
            StepModel::CopyDisk { from: snap.snapshot_path@, to: existing.overlay_path@ },
            StepModel::Boot(req.name@),
        ),
{
    store::found_is_latest(reg.snapshots@, req.project_root@, req.name@, commit);
    runtime_follows_commit(reg, req, facts, existing, snap, r);
}

/// The step stops a machine, removes a file, or writes a disk.
pub open spec fn disturbs(step: StepModel) -> bool {
    step is Stop || step is Kill || step is RemoveIfThere || step is TryRemove || step is CopyDisk
}

/// The live state of an existing machine is only ever given up for a
/// snapshot: without one for the commit, or with the live disk equal to it,
/// nothing is stopped, removed or overwritten.
pub proof fn live_state_survives(
    reg: store::Registry,
    req: NewRequest,
    facts: Facts,
    r: Result<NewPlan, NewError>,
)
    requires
        store::machine_in(reg.machines@, req.project_root@, req.name@) is Some,
        match saved_for(
            reg.snapshots@,
            req.project_root@,
            req.name@,
            text::opt_text(facts.head->0),
        ) {
            Some(snap) => live_matches(facts, snap),
            None => true,
        },
        planned(reg, req, facts, r),
    ensures
        r is Ok,
        r->Ok_0.outcome.restored_from is None,
        forall|i: int|
            0 <= i < r->Ok_0.steps@.len() ==> !disturbs(#[trigger] said(r->Ok_0.steps@)[i]),
{
    let steps = said(r->Ok_0.steps@);
    assert(steps.len() == r->Ok_0.steps@.len());
    assert(steps == reuse_steps(req.name@, facts.running->0));
}

/// Creating a machine touches no other machine's disk: whatever is removed or
/// written is not the overlay of a machine with another handle or of another
/// place.
pub proof fn creation_spares_others(
    reg: store::Registry,
    req: NewRequest,
    facts: Facts,
    plan: NewPlan,
    root: Seq<char>,
    handle: Seq<char>,
    i: int,
)
    requires
        store::machine_in(reg.machines@, req.project_root@, req.name@) is None,
        planned(reg, req, facts, Ok(plan)),
        handle != req.name@ || !keys::same_place(root, req.project_root@),
        0 <= i < plan.steps@.len(),
    ensures
        match said(plan.steps@)[i] {
            StepModel::RemoveIfThere(p) => p != overlay_of(req.machines_dir@, root, handle),
            StepModel::CopyDisk { from: _, to } => to != overlay_of(
                req.machines_dir@,
                root,
                handle,
            ),
            StepModel::TryRemove(_) => false,
            _ => true,
        },
{
    overlays_are_apart(req.machines_dir@, root, handle, req.project_root@, req.name@);
    let from = origin(reg, req, facts)->Ok_0;
    let steps = said(plan.steps@);
    assert(steps == create_steps(req, facts, from));
    let n = from.settle.len() as int;
    assert(steps.len() == n + 6);
    let overlay = overlay_of(req.machines_dir@, req.project_root@, req.name@);
    if i < n {
        assert(steps[i] == from.settle[i]);
        assert(from.settle[i] is Quiesce || from.settle[i] is Flush);
    } else if i == n {
        assert(steps[i] == StepModel::RemoveIfThere(overlay));
    } else if i == n + 1 {
        assert(steps[i] == (StepModel::CopyDisk { from: from.disk, to: overlay }));
    } else if i == n + 2 {
        assert(steps[i] is Record);
    } else {
        assert(steps[i] == bring_up(req.name@)[i - n - 3]);
    }
}

/// A fork sees a settled disk: a running source settles its file system,
/// then its overlay is flushed, and only then it is cloned.
pub proof fn fork_settles_source(
    reg: store::Registry,
    req: NewRequest,
    facts: Facts,
    other: store::Machine,
    r: Result<NewPlan, NewError>,
)
    requires
        store::machine_in(reg.machines@, req.project_root@, req.name@) is None,
        req.from is Some,
        !is_snapshot_id(req.from->0@),
        store::machine_in(reg.machines@, req.project_root@, req.from->0@) == Some(other),
        planned(reg, req, facts, r),
    ensures
        r is Ok,
        facts.running->0 ==> precedes_in(
            said(r->Ok_0.steps@),
            StepModel::Quiesce(req.from->0@),
            StepModel::Flush(other.overlay_path@),
        ),
        precedes_in(
            said(r->Ok_0.steps@),
            StepModel::Flush(other.overlay_path@),
            StepModel::CopyDisk {
                from: other.overlay_path@,
                to: overlay_of(req.machines_dir@, req.project_root@, req.name@),
            },
        ),
{
    store::lemma_no_machine(reg.machines@, req.project_root@, req.from->0@);
    let steps = said(r->Ok_0.steps@);
    let copy = StepModel::CopyDisk {
        from: other.overlay_path@,
        to: overlay_of(req.machines_dir@, req.project_root@, req.name@),
    };
    if facts.running->0 {
        assert(steps[0] == StepModel::Quiesce(req.from->0@));
        assert(steps[1] == StepModel::Flush(other.overlay_path@));
        assert(steps[3] == copy);
    } else {
        assert(steps[0] == StepModel::Flush(other.overlay_path@));
        assert(steps[2] == copy);
    }
}

/// A save sees a settled disk: a running machine settles its file system, and
/// the flush of its overlay comes last.
pub proof fn save_settles_first(
    m: store::Machine,
    name: Seq<char>,
    running: bool,
    commands: Seq<Seq<char>>,
)
    ensures
        settle_steps(m, name, running, commands).last() == StepModel::Flush(m.overlay_path@),
        running ==> precedes_in(
            settle_steps(m, name, running, commands),
            StepModel::Quiesce(name),
            StepModel::Flush(m.overlay_path@),
        ),
        running ==> forall|i: int|
            0 <= i < commands.len() ==> precedes_in(
                settle_steps(m, name, running, commands),
                StepModel::Prepare { handle: name, command: #[trigger] commands[i] },
                StepModel::Quiesce(name),
            ),
{
    let steps = settle_steps(m, name, running, commands);
    if running {
        let n = commands.len() as int;
        assert(steps[n] == StepModel::Quiesce(name));
        assert(steps[n + 1] == StepModel::Flush(m.overlay_path@));
        assert forall|i: int| 0 <= i < commands.len() implies precedes_in(
            steps,
            StepModel::Prepare { handle: name, command: #[trigger] commands[i] },
            StepModel::Quiesce(name),
        ) by {
            assert(steps[i] == (StepModel::Prepare { handle: name, command: commands[i] }));
        }
    }
}

/// `new` leaves the machine up, with the tree synced anew: its plan boots the
/// machine unless it runs already, then syncs, and does nothing after that.
pub proof fn new_brings_up(
    reg: store::Registry,
    req: NewRequest,
    facts: Facts,
    plan: NewPlan,
)
    requires
        planned(reg, req, facts, Ok(plan)),
    ensures
        said(plan.steps@).last() == StepModel::SyncTree(req.name@),
        precedes_in(
            said(plan.steps@),
            StepModel::ForgetSync(req.name@),
            StepModel::SyncTree(req.name@),
        ),
        plan.outcome.created || plan.outcome.restored_from is Some || !facts.running->0
            ==> precedes_in(
            said(plan.steps@),
            StepModel::Boot(req.name@),
            StepModel::SyncTree(req.name@),
        ),
{
    let steps = said(plan.steps@);
    let n = steps.len() as int;
    assert(steps[n - 1] == StepModel::SyncTree(req.name@));
    assert(steps[n - 2] == StepModel::ForgetSync(req.name@));
    if plan.outcome.created || plan.outcome.restored_from is Some || !facts.running->0 {
        assert(steps[n - 3] == StepModel::Boot(req.name@));
    }
}

/// `new` is idempotent: once a machine is created, the same request finds it
/// and creates nothing.
pub proof fn created_once(
    before: store::Registry,
    after: store::Registry,
    req: NewRequest,
    facts: Facts,
    later: Facts,
    row: store::Machine,
    r: Result<NewPlan, NewError>,
)
    requires
        store::machine_in(before.machines@, req.project_root@, req.name@) is None,
        origin(before, req, facts) is Ok,
        row@ == new_row(req, facts, origin(before, req, facts)->Ok_0),
        after.machines@ == before.machines@.push(row),
        planned(after, req, later, r),
    ensures
        store::machine_in(after.machines@, req.project_root@, req.name@) == Some(row),
        r is Ok,
        !r->Ok_0.outcome.created,
{
    assert(row@.project_root == req.project_root@);
    assert(row@.handle == req.name@);
    store::machines_are_scoped(before.machines@, row, req.project_root@, req.name@);
}

/// `drop` is idempotent: a machine that was dropped and is down is not there
/// to be dropped again. What is left to do touches no disk, no snapshot's
/// content and no row of the registry.
pub proof fn dropped_once(
    before: store::Registry,
    after: store::Registry,
    req: DropRequest,
    pid_file: Option<Seq<char>>,
)
    requires
        after.machines@ == store::machines_without(
            before.machines@,
            req.project_root@,
            req.name@,
        ),
        after.snapshots@ == kept_snapshots(before, req),
    ensures
        drop_steps(after, req, false, pid_file) == if req.drop_snapshots {
            seq![StepModel::ForgetSync(req.name@), StepModel::ForgetSnapshots(req.name@)]
        } else {
            seq![StepModel::ForgetSync(req.name@)]
        },
        store::machines_without(after.machines@, req.project_root@, req.name@) == after.machines@,
        kept_snapshots(after, req) == after.snapshots@,
{
    let root = req.project_root@;
    let name = req.name@;
    store::removed_is_gone(before.machines@, root, name, root, name);
    let others = |m: store::Machine| !m.is_at(root, name);
    seqs::lemma_selected(before.machines@, others);
    seqs::lemma_select_all(after.machines@, others);
    if req.drop_snapshots {
        let keep = |s: store::Snapshot| !s.is_of(root, name);
        let own = |s: store::Snapshot| s.is_of(root, name);
        seqs::lemma_selected(before.snapshots@, keep);
        assert forall|i: int| 0 <= i < after.snapshots@.len() implies !own(
            #[trigger] after.snapshots@[i],
        ) by {
            assert(keep(after.snapshots@[i]));
        }
        seqs::lemma_select_all(after.snapshots@, keep);
        seqs::lemma_select_none(after.snapshots@, own);
        assert(dropped_snapshots(after, req) == Seq::<store::Snapshot>::empty());
    }
    assert(drop_steps(after, req, false, pid_file) =~= if req.drop_snapshots {
        seq![StepModel::ForgetSync(name), StepModel::ForgetSnapshots(name)]
    } else {
        seq![StepModel::ForgetSync(name)]
    });
}

/// Saved state outlives the machine: after a drop that leaves the snapshots,
/// `new` creates the machine again from what was saved for the commit.
pub proof fn dropped_state_returns(
    before: store::Registry,
    after: store::Registry,
    gone: DropRequest,
    req: NewRequest,
    facts: Facts,
    snap: store::Snapshot,
    r: Result<NewPlan, NewError>,
)
    requires
        !gone.drop_snapshots,
        after.machines@ == store::machines_without(before.machines@, gone.project_root@, gone.name@),
        after.snapshots@ == kept_snapshots(before, gone),
        req.project_root@ == gone.project_root@,
        req.name@ == gone.name@,
        req.from is None,
        saved_for(before.snapshots@, req.project_root@, req.name@, text::opt_text(facts.head->0))
            == Some(snap),
        planned(after, req, facts, r),
    ensures
        r is Ok,
        r->Ok_0.outcome.created,
        r->Ok_0.outcome.restored_from == Some(snap),
        said(r->Ok_0.steps@).contains(
            StepModel::CopyDisk {
                from: snap.snapshot_path@,
                to: overlay_of(req.machines_dir@, req.project_root@, req.name@),
            },
        ),
{
    store::removed_is_gone(
        before.machines@,
        gone.project_root@,
        gone.name@,
        gone.project_root@,
        gone.name@,
    );
    assert(said(r->Ok_0.steps@)[1] == (StepModel::CopyDisk {
        from: snap.snapshot_path@,
        to: overlay_of(req.machines_dir@, req.project_root@, req.name@),
    }));
}

/// Shared content survives: dropping a machine with its snapshots deletes no
/// file that a snapshot of another machine refers to.
pub proof fn shared_content_survives(
    reg: store::Registry,
    req: DropRequest,
    dir: Seq<char>,
    kept: int,
)
    requires
        store::content_addressed(reg.snapshots@, dir),
        0 <= kept < kept_snapshots(reg, req).len(),
    ensures
        !deleted_content(reg, req).contains(kept_snapshots(reg, req)[kept].snapshot_path@),
{
    if req.drop_snapshots {
        let rows = reg.snapshots@;
        let root = req.project_root@;
        let name = req.name@;
        let keep = |s: store::Snapshot| !s.is_of(root, name);
        let own = |s: store::Snapshot| s.is_of(root, name);
        let stays = kept_snapshots(reg, req);
        let goes = dropped_snapshots(reg, req);
        let s = stays[kept];
        seqs::lemma_selected(rows, keep);
        seqs::lemma_selected(rows, own);
        assert(stays.contains(s));
        assert(rows.contains(s));
        store::snapshots_listed_in_order(rows, root, name);
        assert forall|i: int| 0 <= i < goes.len() && (#[trigger] goes[i]).snapshot_path@
            == s.snapshot_path@ implies goes[i].content_hash@ == s.content_hash@ by {
            goes.to_multiset_ensures();
            seqs::select(rows, own).to_multiset_ensures();
            assert(goes.contains(goes[i]));
            assert(goes.to_multiset().count(goes[i]) > 0);
            assert(seqs::select(rows, own).contains(goes[i]));
            assert(rows.contains(goes[i]));
            let a = choose|a: int| 0 <= a < rows.len() && rows[a] == goes[i];
            let b = choose|b: int| 0 <= b < rows.len() && rows[b] == s;
            store::path_names_content(rows, dir, a, b);
        }
        lemma_orphans_differ(goes, stays, kept);
    }
}

proof fn lemma_orphans_differ(goes: Seq<store::Snapshot>, stays: Seq<store::Snapshot>, kept: int)
    requires
        0 <= kept < stays.len(),
        forall|i: int|
            0 <= i < goes.len() && (#[trigger] goes[i]).snapshot_path@ == stays[kept].snapshot_path@
                ==> goes[i].content_hash@ == stays[kept].content_hash@,
    ensures
        !orphaned(goes, stays).contains(stays[kept].snapshot_path@),
    decreases goes.len(),
{
    if goes.len() > 0 {
        let t = goes.drop_last();
        assert forall|i: int|
            0 <= i < t.len() && (#[trigger] t[i]).snapshot_path@
                == stays[kept].snapshot_path@ implies t[i].content_hash@
            == stays[kept].content_hash@ by {
            assert(goes[i] == t[i]);
        }
        lemma_orphans_differ(t, stays, kept);
        let p = stays[kept].snapshot_path@;
        let before = orphaned(t, stays);
        let last = goes[goes.len() - 1];
        if last.snapshot_path@ == p {
            assert(store::content_in(stays, last.content_hash@));
        }
        assert forall|k: int| 0 <= k < orphaned(goes, stays).len() implies orphaned(
            goes,
            stays,
        )[k] != p by {
            if k < before.len() {
                assert(orphaned(goes, stays)[k] == before[k]);
                assert(before.contains(before[k]));
            }
        }
    }
}

} // verus!
