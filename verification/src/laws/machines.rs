//! What the verbs do.
use crate::laws::registry;
use crate::laws::words;
use crate::lifecycle::{self, Step, StepModel};
use crate::paths;
use crate::ports;
use crate::seqs;
use crate::shim;
use crate::store;
use crate::text;
use vstd::prelude::*;

verus! {

/// The steps of a plan that creates a machine, one by one.
proof fn lemma_creation(
    reg: store::Registry,
    req: lifecycle::NewRequest,
    facts: lifecycle::Facts,
    plan: lifecycle::NewPlan,
)
    requires
        store::machine_in(reg.machines@, req.project_root@, req.name@) is None,
        lifecycle::planned(reg, req, facts, Ok(plan)),
    ensures
        ({
            let from = lifecycle::origin(reg, req, facts)->Ok_0;
            let overlay = lifecycle::overlay_of(req.machines_dir@, req.project_root@, req.name@);
            let steps = lifecycle::said(plan.steps@);
            let n = from.settle.len() as int;
            &&& lifecycle::origin(reg, req, facts) is Ok
            &&& steps.len() == n + 6
            &&& plan.steps@.len() == n + 6
            &&& forall|i: int| 0 <= i < steps.len() ==> #[trigger] plan.steps@[i]@ == steps[i]
            &&& forall|i: int| 0 <= i < n ==> #[trigger] steps[i] == from.settle[i]
            &&& forall|i: int|
                0 <= i < n ==> (#[trigger] steps[i] is Quiesce || steps[i] is Flush)
            &&& steps[n] == StepModel::RemoveIfThere(overlay)
            &&& steps[n + 1] == (StepModel::CopyDisk { from: from.disk, to: overlay })
            &&& steps[n + 2] == StepModel::Record(lifecycle::new_row(req, facts, from))
            &&& steps[n + 3] == StepModel::Boot(req.name@)
            &&& steps[n + 4] == StepModel::ForgetSync(req.name@)
            &&& steps[n + 5] == StepModel::SyncTree(req.name@)
        }),
{
    let from = lifecycle::origin(reg, req, facts)->Ok_0;
    let steps = lifecycle::said(plan.steps@);
    let n = from.settle.len() as int;
    assert(steps == lifecycle::create_steps(req, facts, from));
    assert forall|i: int| 0 <= i < n implies (#[trigger] steps[i] is Quiesce
        || steps[i] is Flush) by {
        assert(steps[i] == from.settle[i]);
    }
}

/// A machine is created as it was asked for: it is recorded once, after its
/// disk was cloned to the place that the row names, with the request's name,
/// repository and detached flag, the project's image, recipe and resources,
/// and the ports and the time that were settled for it.
pub proof fn created_as_asked(
    reg: store::Registry,
    req: lifecycle::NewRequest,
    facts: lifecycle::Facts,
    plan: lifecycle::NewPlan,
)
    requires
        store::machine_in(reg.machines@, req.project_root@, req.name@) is None,
        lifecycle::planned(reg, req, facts, Ok(plan)),
    ensures
        plan.outcome.created,
        plan.outcome.handle@ == req.name@,
        exists|i: int| 0 <= i < plan.steps@.len() && #[trigger] plan.steps@[i] is Record,
        exists|i: int| 0 <= i < plan.steps@.len() && #[trigger] plan.steps@[i] is CopyDisk,
        forall|i: int, j: int|
            0 <= i < plan.steps@.len() && 0 <= j < plan.steps@.len()
                && #[trigger] plan.steps@[i] is Record && #[trigger] plan.steps@[j] is Record ==> i
                == j,
        forall|i: int|
            0 <= i < plan.steps@.len() && #[trigger] plan.steps@[i] is Record ==> {
                let row = plan.steps@[i]->Record_0;
                &&& row.handle@ == req.name@
                &&& row.project_root@ == req.project_root@
                &&& row.detached == req.detached
                &&& row.lifecycle@ == "live"@
                &&& row.recipe_hash@ == facts.project->0.recipe_hash@
                &&& row.base_image_path@ == facts.project->0.base_image@
                &&& row.cpus == facts.project->0.cpus
                &&& row.ram_mib == facts.project->0.ram_mib
                &&& row.created_at == facts.placement->0.created_at
                &&& ports::forwards(row.port_map@) == facts.placement->0.ports@
            },
        forall|i: int, j: int|
            0 <= i < plan.steps@.len() && 0 <= j < plan.steps@.len()
                && #[trigger] plan.steps@[i] is CopyDisk && #[trigger] plan.steps@[j] is Record
                ==> i < j && plan.steps@[i]->to@ == plan.steps@[j]->Record_0.overlay_path@,
{
    lemma_creation(reg, req, facts, plan);
    let from = lifecycle::origin(reg, req, facts)->Ok_0;
    let n = from.settle.len() as int;
    let steps = lifecycle::said(plan.steps@);
    ports::port_map_round_trip(facts.placement->0.ports@);
    assert(plan.steps@[n + 2]@ == steps[n + 2]);
    assert(plan.steps@[n + 1]@ == steps[n + 1]);
    assert(plan.steps@[n + 2] is Record);
    assert(plan.steps@[n + 1] is CopyDisk);
    assert forall|i: int| 0 <= i < plan.steps@.len() implies (#[trigger] plan.steps@[i] is Record
        <==> i == n + 2) && (plan.steps@[i] is CopyDisk <==> i == n + 1) by {
        assert(plan.steps@[i]@ == steps[i]);
        if i < n {
            assert(steps[i] is Quiesce || steps[i] is Flush);
        } else {
            assert(plan.steps@[n]@ == steps[n]);
            assert(plan.steps@[n + 3]@ == steps[n + 3]);
            assert(plan.steps@[n + 4]@ == steps[n + 4]);
            assert(plan.steps@[n + 5]@ == steps[n + 5]);
        }
    }
}

/// A machine that was created detached is saved for no commit, whatever is
/// checked out; one that was not is saved for the commit that it shadows.
pub proof fn detached_machines_are_saved_for_no_commit(
    before: store::Registry,
    req: lifecycle::NewRequest,
    facts: lifecycle::Facts,
    plan: lifecycle::NewPlan,
    row: store::Machine,
    reg: store::Registry,
    after: store::Registry,
    at: lifecycle::SaveFacts,
    o: lifecycle::SaveOutcome,
)
    requires
        store::machine_in(before.machines@, req.project_root@, req.name@) is None,
        lifecycle::planned(before, req, facts, Ok(plan)),
        lifecycle::said(plan.steps@).contains(StepModel::Record(row@)),
        store::machine_in(reg.machines@, req.project_root@, req.name@) == Some(row),
        lifecycle::saved(reg, after, req.project_root@, req.name@, at, Ok(o)),
    ensures
        req.detached ==> o.snapshot.head_sha is None,
        !req.detached ==> text::opt_text(o.snapshot.head_sha) == text::opt_text(at.head),
{
    created_as_asked(before, req, facts, plan);
    let steps = lifecycle::said(plan.steps@);
    let i = choose|i: int| 0 <= i < steps.len() && steps[i] == StepModel::Record(row@);
    assert(plan.steps@[i]@ == steps[i]);
    assert(plan.steps@[i] is Record);
    assert(plan.steps@[i]->Record_0@ == row@);
    assert(plan.steps@[i]->Record_0@.detached == plan.steps@[i]->Record_0.detached);
    assert(row@.detached == row.detached);
    let sha = lifecycle::commit_for(row, text::opt_text(at.head));
    registry::latest_is_found(reg.snapshots@, req.project_root@, req.name@, sha);
}

/// The snapshots of a machine for a commit, or for none.
pub open spec fn tagged(
    s: store::Snapshot,
    root: Seq<char>,
    name: Seq<char>,
    sha: Option<Seq<char>>,
) -> bool {
    s.project_root@ == root && s.handle@ == name && text::opt_text(s.head_sha) == sha
}

/// A save records what was saved: the machine, the commit it shadows unless
/// it is detached, the hash of its overlay, and the place that the hash
/// names. Only content that the commit's snapshots do not hold is new.
pub proof fn saves_say_what_was_saved(
    before: store::Registry,
    after: store::Registry,
    root: Seq<char>,
    name: Seq<char>,
    at: lifecycle::SaveFacts,
    o: lifecycle::SaveOutcome,
    k: int,
)
    requires
        lifecycle::saved(before, after, root, name, at, Ok(o)),
        0 <= k < before.machines@.len(),
        before.machines@[k].project_root@ == root,
        before.machines@[k].handle@ == name,
        forall|j: int|
            0 <= j < k ==> (#[trigger] before.machines@[j]).project_root@ != root
                || before.machines@[j].handle@ != name,
    ensures
        o.snapshot.project_root@ == root,
        o.snapshot.handle@ == name,
        o.snapshot.content_hash@ == at.content_hash@,
        text::opt_text(o.snapshot.head_sha) == if before.machines@[k].detached {
            None
        } else {
            text::opt_text(at.head)
        },
        o.fresh ==> {
            &&& o.snapshot.snapshot_path@ == paths::joined(at.snapshots_dir@, at.content_hash@)
            &&& o.snapshot.saved_at == at.saved_at
            &&& after.snapshots@ == before.snapshots@.push(o.snapshot)
            &&& forall|j: int|
                0 <= j < before.snapshots@.len() ==> (
                #[trigger] before.snapshots@[j]).snapshot_id@ != o.snapshot.snapshot_id@
        },
        !o.fresh ==> after == before && before.snapshots@.contains(o.snapshot),
        (forall|j: int|
            0 <= j < before.snapshots@.len() && tagged(
                #[trigger] before.snapshots@[j],
                root,
                name,
                text::opt_text(o.snapshot.head_sha),
            ) ==> before.snapshots@[j].content_hash@ != at.content_hash@) ==> o.fresh,
        o.fresh ==> forall|i: int|
            0 <= i < before.snapshots@.len() && tagged(
                #[trigger] before.snapshots@[i],
                root,
                name,
                text::opt_text(o.snapshot.head_sha),
            ) && before.snapshots@[i].content_hash@ == at.content_hash@ ==> exists|j: int|
                0 <= j < before.snapshots@.len() && tagged(
                    #[trigger] before.snapshots@[j],
                    root,
                    name,
                    text::opt_text(o.snapshot.head_sha),
                ) && before.snapshots@[j].content_hash@ != at.content_hash@
                    && before.snapshots@[i].saved_at <= before.snapshots@[j].saved_at,
{
    registry::machines_are_found(before.machines@, root, name);
    let m = before.machines@[k];
    assert(store::machine_in(before.machines@, root, name) == Some(m));
    let sha = lifecycle::commit_for(m, text::opt_text(at.head));
    let rows = before.snapshots@;
    registry::latest_is_found(rows, root, name, sha);
    if o.fresh {
        let c = choose|c: nat|
            store::first_free(rows, at.content_hash@, at.retry_at, c) && o.snapshot.snapshot_id@
                == #[trigger] store::candidate(at.content_hash@, at.retry_at, c);
        registry::snapshots_are_found(rows, o.snapshot.snapshot_id@);
        match store::latest_tagged(rows, root, name, sha) {
            Some(s) => {
                let l = choose|l: int|
                    0 <= l < rows.len() && #[trigger] rows[l] == s && s.content_hash@
                        != at.content_hash@;
                assert forall|i: int|
                    0 <= i < rows.len() && tagged(#[trigger] rows[i], root, name, sha)
                        && rows[i].content_hash@ == at.content_hash@ implies exists|j: int|
                    0 <= j < rows.len() && tagged(#[trigger] rows[j], root, name, sha)
                        && rows[j].content_hash@ != at.content_hash@ && rows[i].saved_at
                        <= rows[j].saved_at by {
                    assert(tagged(rows[l], root, name, sha));
                    assert(rows[i].saved_at <= rows[l].saved_at);
                }
            },
            None => {},
        }
    } else {
        assert(tagged(o.snapshot, root, name, sha));
        let l = choose|l: int| 0 <= l < rows.len() && #[trigger] rows[l] == o.snapshot;
        assert(tagged(rows[l], root, name, sha));
    }
}

/// There is no machine to save where no row has the repository and the name.
pub proof fn only_machines_are_saved(
    before: store::Registry,
    after: store::Registry,
    root: Seq<char>,
    name: Seq<char>,
    at: lifecycle::SaveFacts,
    r: Result<lifecycle::SaveOutcome, lifecycle::MissingMachine>,
)
    requires
        lifecycle::saved(before, after, root, name, at, r),
    ensures
        r is Err <==> forall|j: int|
            0 <= j < before.machines@.len() ==> (
            #[trigger] before.machines@[j]).project_root@ != root || before.machines@[j].handle@
                != name,
        r is Err ==> r->Err_0.name@ == name && after == before,
{
    registry::machines_are_found(before.machines@, root, name);
}

/// A command runs once, last, in the machine that was named, with the tree
/// synced in before it. A machine that is down is booted first, and one that
/// runs is not booted again.
pub proof fn commands_run_in_the_synced_machine(name: Seq<char>, running: bool, command: Seq<char>)
    ensures
        ({
            let steps = lifecycle::run_steps(name, running, command);
            &&& steps.last() == (StepModel::Request { handle: name, command })
            &&& forall|i: int|
                0 <= i < steps.len() ==> (#[trigger] steps[i] is Request <==> i == steps.len() - 1)
            &&& lifecycle::precedes_in(
                steps,
                StepModel::SyncTree(name),
                StepModel::Request { handle: name, command },
            )
            &&& steps[0] == StepModel::Boot(name) <==> !running
            &&& forall|i: int|
                0 <= i < steps.len() ==> (#[trigger] steps[i] is Boot || steps[i] is SyncTree
                    || steps[i] is Request)
            &&& forall|i: int| 0 <= i < steps.len() && #[trigger] steps[i] is Boot ==> i == 0
        }),
{
    let steps = lifecycle::run_steps(name, running, command);
    let n = steps.len() as int;
    assert(steps[n - 1] == (StepModel::Request { handle: name, command }));
    assert(steps[n - 2] == StepModel::SyncTree(name));
}

/// Before a save a running machine runs each of the project's commands once,
/// in their order, settles, and is flushed; one that is down is only flushed.
pub proof fn saves_are_prepared(
    m: store::Machine,
    name: Seq<char>,
    running: bool,
    commands: Seq<Seq<char>>,
)
    ensures
        ({
            let steps = lifecycle::settle_steps(m, name, running, commands);
            if running {
                &&& steps.len() == commands.len() + 2
                &&& forall|i: int|
                    0 <= i < commands.len() ==> #[trigger] steps[i] == (StepModel::Prepare {
                        handle: name,
                        command: commands[i],
                    })
                &&& steps[commands.len() as int] == StepModel::Quiesce(name)
                &&& steps[commands.len() as int + 1] == StepModel::Flush(m.overlay_path@)
            } else {
                &&& steps.len() == 1
                &&& steps[0] == StepModel::Flush(m.overlay_path@)
            }
        }),
{
}

/// A save that repeats a snapshot changes nothing on disk and in the
/// registry; a fresh one is recorded, once.
pub proof fn only_fresh_saves_are_kept(m: store::Machine, o: lifecycle::SaveOutcome, there: bool)
    ensures
        lifecycle::keep_plan(m, o, there).len() == 0 <==> !o.fresh,
        forall|i: int|
            0 <= i < lifecycle::keep_plan(m, o, there).len() ==> (#[trigger] lifecycle::keep_plan(
                m,
                o,
                there,
            )[i] == StepModel::RecordSnapshot(o.snapshot) || !there && lifecycle::keep_plan(
                m,
                o,
                there,
            )[i] == (StepModel::CopyDisk {
                from: m.overlay_path@,
                to: o.snapshot.snapshot_path@,
            })),
{
}

/// A machine made from a snapshot id starts from that snapshot's content, for
/// the snapshot's commit. An id that no snapshot has is an error.
pub proof fn snapshots_are_started_from(
    reg: store::Registry,
    req: lifecycle::NewRequest,
    facts: lifecycle::Facts,
    r: Result<lifecycle::NewPlan, lifecycle::NewError>,
)
    requires
        store::machine_in(reg.machines@, req.project_root@, req.name@) is None,
        lifecycle::planned(reg, req, facts, r),
        req.from is Some,
        req.from->0@.len() >= 2,
        req.from->0@[0] == 's',
        req.from->0@[1] == '_',
    ensures
        r is Err <==> forall|j: int|
            0 <= j < reg.snapshots@.len() ==> (#[trigger] reg.snapshots@[j]).snapshot_id@
                != req.from->0@,
        r is Err ==> r->Err_0 is NoSnapshot && r->Err_0->NoSnapshot_0@ == req.from->0@,
        r is Ok ==> exists|k: int|
            {
                let s = #[trigger] reg.snapshots@[k];
                let plan = r->Ok_0;
                &&& 0 <= k < reg.snapshots@.len()
                &&& s.snapshot_id@ == req.from->0@
                &&& plan.outcome.restored_from == Some(s)
                &&& forall|i: int|
                    0 <= i < plan.steps@.len() && #[trigger] plan.steps@[i] is CopyDisk
                        ==> plan.steps@[i]->from@ == s.snapshot_path@
                &&& forall|i: int|
                    0 <= i < plan.steps@.len() && #[trigger] plan.steps@[i] is Record
                        ==> plan.steps@[i]->Record_0.parent_machine is None && text::opt_text(
                        plan.steps@[i]->Record_0.base_commit,
                    ) == text::opt_text(s.head_sha)
            },
{
    reveal_strlit("s_");
    let src = req.from->0@;
    assert("s_"@ =~= src.take(2));
    assert("s_"@.is_prefix_of(src));
    registry::snapshots_are_found(reg.snapshots@, src);
    if r is Ok {
        let plan = r->Ok_0;
        lemma_creation(reg, req, facts, plan);
        lemma_origin_shows(reg, req, facts, plan);
    }
}

/// What the steps of a creation show of where its disk comes from.
proof fn lemma_origin_shows(
    reg: store::Registry,
    req: lifecycle::NewRequest,
    facts: lifecycle::Facts,
    plan: lifecycle::NewPlan,
)
    requires
        store::machine_in(reg.machines@, req.project_root@, req.name@) is None,
        lifecycle::planned(reg, req, facts, Ok(plan)),
    ensures
        ({
            let from = lifecycle::origin(reg, req, facts)->Ok_0;
            &&& plan.outcome.restored_from == from.restored
            &&& forall|i: int|
                0 <= i < plan.steps@.len() && #[trigger] plan.steps@[i] is CopyDisk
                    ==> plan.steps@[i]->from@ == from.disk
            &&& forall|i: int|
                0 <= i < plan.steps@.len() && #[trigger] plan.steps@[i] is Record
                    ==> text::opt_text(plan.steps@[i]->Record_0.parent_machine) == from.parent
                    && text::opt_text(plan.steps@[i]->Record_0.base_commit) == from.commit
        }),
{
    lemma_creation(reg, req, facts, plan);
    let from = lifecycle::origin(reg, req, facts)->Ok_0;
    let n = from.settle.len() as int;
    let steps = lifecycle::said(plan.steps@);
    assert forall|i: int| 0 <= i < plan.steps@.len() implies (#[trigger] plan.steps@[i] is Record
        ==> i == n + 2) && (plan.steps@[i] is CopyDisk ==> i == n + 1) by {
        assert(plan.steps@[i]@ == steps[i]);
        if i < n {
            assert(steps[i] is Quiesce || steps[i] is Flush);
        } else {
            assert(plan.steps@[n]@ == steps[n]);
            assert(plan.steps@[n + 1]@ == steps[n + 1]);
            assert(plan.steps@[n + 2]@ == steps[n + 2]);
            assert(plan.steps@[n + 3]@ == steps[n + 3]);
            assert(plan.steps@[n + 4]@ == steps[n + 4]);
            assert(plan.steps@[n + 5]@ == steps[n + 5]);
        }
    }
    assert(plan.steps@[n + 2]@ == steps[n + 2]);
    assert(plan.steps@[n + 1]@ == steps[n + 1]);
    let row = plan.steps@[n + 2]->Record_0;
    assert(row@ == lifecycle::new_row(req, facts, from));
    assert(row@.parent_machine == text::opt_text(row.parent_machine));
    assert(row@.base_commit == text::opt_text(row.base_commit));
}

/// A fork starts from the overlay of the machine that was named, in the same
/// repository, at that machine's commit, and remembers its parent.
pub proof fn machines_are_forked_from(
    reg: store::Registry,
    req: lifecycle::NewRequest,
    facts: lifecycle::Facts,
    r: Result<lifecycle::NewPlan, lifecycle::NewError>,
    k: int,
)
    requires
        store::machine_in(reg.machines@, req.project_root@, req.name@) is None,
        lifecycle::planned(reg, req, facts, r),
        req.from is Some,
        req.from->0@.len() < 2 || req.from->0@[0] != 's' || req.from->0@[1] != '_',
        0 <= k < reg.machines@.len(),
        reg.machines@[k].project_root@ == req.project_root@,
        reg.machines@[k].handle@ == req.from->0@,
        forall|j: int|
            0 <= j < k ==> (#[trigger] reg.machines@[j]).project_root@ != req.project_root@
                || reg.machines@[j].handle@ != req.from->0@,
    ensures
        r is Ok,
        r->Ok_0.outcome.restored_from is None,
        forall|i: int|
            0 <= i < r->Ok_0.steps@.len() && #[trigger] r->Ok_0.steps@[i] is CopyDisk
                ==> r->Ok_0.steps@[i]->from@ == reg.machines@[k].overlay_path@,
        forall|i: int|
            0 <= i < r->Ok_0.steps@.len() && #[trigger] r->Ok_0.steps@[i] is Record ==> {
                let row = r->Ok_0.steps@[i]->Record_0;
                &&& text::opt_text(row.parent_machine) == Some(req.from->0@)
                &&& text::opt_text(row.base_commit) == text::opt_text(
                    reg.machines@[k].base_commit,
                )
            },
{
    reveal_strlit("s_");
    let src = req.from->0@;
    if "s_"@.is_prefix_of(src) {
        assert("s_"@ == src.take(2));
        assert(src.take(2)[0] == 's' && src.take(2)[1] == '_');
    }
    registry::machines_are_found(reg.machines@, req.project_root@, src);
    assert(store::machine_in(reg.machines@, req.project_root@, src) == Some(reg.machines@[k]));
    lemma_origin_shows(reg, req, facts, r->Ok_0);
}

/// The commit that a new machine is made for: the one that its source names,
/// or else the one that is checked out.
pub open spec fn wanted_commit(req: lifecycle::NewRequest, facts: lifecycle::Facts) -> Option<
    Seq<char>,
> {
    if req.from is Some {
        text::opt_text(facts.resolved->0)
    } else {
        text::opt_text(facts.head->0)
    }
}

/// A machine made for a commit starts from what was saved last for this name,
/// repository and commit, and from the project's base image where nothing
/// was. A source that names no commit is an error.
pub proof fn commits_are_started_from(
    reg: store::Registry,
    req: lifecycle::NewRequest,
    facts: lifecycle::Facts,
    r: Result<lifecycle::NewPlan, lifecycle::NewError>,
)
    requires
        store::machine_in(reg.machines@, req.project_root@, req.name@) is None,
        lifecycle::planned(reg, req, facts, r),
        req.from is Some ==> {
            &&& req.from->0@.len() < 2 || req.from->0@[0] != 's' || req.from->0@[1] != '_'
            &&& forall|j: int|
                0 <= j < reg.machines@.len() ==> (#[trigger] reg.machines@[j]).project_root@
                    != req.project_root@ || reg.machines@[j].handle@ != req.from->0@
        },
    ensures
        r is Err <==> req.from is Some && facts.resolved->0 is None,
        r is Err ==> r->Err_0 is NoSource && r->Err_0->NoSource_0@ == req.from->0@,
        r is Ok ==> {
            let plan = r->Ok_0;
            let commit = wanted_commit(req, facts);
            &&& forall|i: int|
                0 <= i < plan.steps@.len() && #[trigger] plan.steps@[i] is Record
                    ==> plan.steps@[i]->Record_0.parent_machine is None && text::opt_text(
                    plan.steps@[i]->Record_0.base_commit,
                ) == commit
            &&& match plan.outcome.restored_from {
                Some(s) => {
                    &&& commit is Some
                    &&& reg.snapshots@.contains(s)
                    &&& tagged(s, req.project_root@, req.name@, commit)
                    &&& forall|j: int|
                        0 <= j < reg.snapshots@.len() && tagged(
                            #[trigger] reg.snapshots@[j],
                            req.project_root@,
                            req.name@,
                            commit,
                        ) ==> reg.snapshots@[j].saved_at <= s.saved_at
                    &&& forall|i: int|
                        0 <= i < plan.steps@.len() && #[trigger] plan.steps@[i] is CopyDisk
                            ==> plan.steps@[i]->from@ == s.snapshot_path@
                },
                None => {
                    &&& commit is Some ==> forall|j: int|
                        0 <= j < reg.snapshots@.len() ==> !tagged(
                            #[trigger] reg.snapshots@[j],
                            req.project_root@,
                            req.name@,
                            commit,
                        )
                    &&& forall|i: int|
                        0 <= i < plan.steps@.len() && #[trigger] plan.steps@[i] is CopyDisk
                            ==> plan.steps@[i]->from@ == facts.project->0.base_image@
                },
            }
        },
{
    reveal_strlit("s_");
    if req.from is Some {
        let src = req.from->0@;
        if "s_"@.is_prefix_of(src) {
            assert("s_"@ == src.take(2));
            assert(src.take(2)[0] == 's' && src.take(2)[1] == '_');
        }
        registry::machines_are_found(reg.machines@, req.project_root@, src);
    }
    registry::latest_is_found(
        reg.snapshots@,
        req.project_root@,
        req.name@,
        wanted_commit(req, facts),
    );
    if r is Ok {
        lemma_origin_shows(reg, req, facts, r->Ok_0);
    }
}

/// An existing machine is brought to the commit it shadows: it is stopped and
/// gets the disk saved last for that commit, unless its live disk is there,
/// at rest, and the same. Where nothing was saved, its live disk stays.
/// Nothing is recorded anew.
pub proof fn existing_machines_follow_the_commit(
    reg: store::Registry,
    req: lifecycle::NewRequest,
    facts: lifecycle::Facts,
    existing: store::Machine,
    r: Result<lifecycle::NewPlan, lifecycle::NewError>,
)
    requires
        store::machine_in(reg.machines@, req.project_root@, req.name@) == Some(existing),
        lifecycle::planned(reg, req, facts, r),
    ensures
        r is Ok,
        !r->Ok_0.outcome.created,
        r->Ok_0.outcome.handle@ == req.name@,
        ({
            let plan = r->Ok_0;
            let steps = lifecycle::said(plan.steps@);
            let commit = text::opt_text(facts.head->0);
            let same_disk = |s: store::Snapshot|
                facts.overlay_there->0 && !facts.running->0 && facts.live_hash->0@
                    == s.content_hash@;
            &&& forall|i: int| 0 <= i < steps.len() ==> !(#[trigger] steps[i] is Record)
            &&& match plan.outcome.restored_from {
                Some(s) => {
                    &&& commit is Some
                    &&& reg.snapshots@.contains(s)
                    &&& tagged(s, req.project_root@, req.name@, commit)
                    &&& forall|j: int|
                        0 <= j < reg.snapshots@.len() && tagged(
                            #[trigger] reg.snapshots@[j],
                            req.project_root@,
                            req.name@,
                            commit,
                        ) ==> reg.snapshots@[j].saved_at <= s.saved_at
                    &&& !same_disk(s)
                    &&& steps == seq![
                        StepModel::Stop(req.name@),
                        StepModel::RemoveIfThere(existing.overlay_path@),
                        StepModel::CopyDisk {
                            from: s.snapshot_path@,
                            to: existing.overlay_path@,
                        },
                        StepModel::Boot(req.name@),
                        StepModel::ForgetSync(req.name@),
                        StepModel::SyncTree(req.name@),
                    ]
                },
                None => {
                    &&& forall|j: int|
                        0 <= j < reg.snapshots@.len() && commit is Some && tagged(
                            #[trigger] reg.snapshots@[j],
                            req.project_root@,
                            req.name@,
                            commit,
                        ) ==> exists|s: store::Snapshot|
                            reg.snapshots@.contains(s) && #[trigger] tagged(
                                s,
                                req.project_root@,
                                req.name@,
                                commit,
                            ) && same_disk(s) && reg.snapshots@[j].saved_at <= s.saved_at
                    &&& steps == if facts.running->0 {
                        seq![StepModel::ForgetSync(req.name@), StepModel::SyncTree(req.name@)]
                    } else {
                        seq![
                            StepModel::Boot(req.name@),
                            StepModel::ForgetSync(req.name@),
                            StepModel::SyncTree(req.name@),
                        ]
                    }
                },
            }
        }),
{
    let plan = r->Ok_0;
    let steps = lifecycle::said(plan.steps@);
    let commit = text::opt_text(facts.head->0);
    registry::latest_is_found(reg.snapshots@, req.project_root@, req.name@, commit);
    match plan.outcome.restored_from {
        Some(s) => {
            assert(steps =~= seq![
                StepModel::Stop(req.name@),
                StepModel::RemoveIfThere(existing.overlay_path@),
                StepModel::CopyDisk { from: s.snapshot_path@, to: existing.overlay_path@ },
                StepModel::Boot(req.name@),
                StepModel::ForgetSync(req.name@),
                StepModel::SyncTree(req.name@),
            ]);
        },
        None => {
            if commit is Some {
                match store::latest_tagged(reg.snapshots@, req.project_root@, req.name@, commit) {
                    Some(s) => {
                        assert(lifecycle::live_matches(facts, s));
                        assert(tagged(s, req.project_root@, req.name@, commit));
                        assert(reg.snapshots@.contains(s));
                    },
                    None => {},
                }
            }
            assert(steps =~= if facts.running->0 {
                seq![StepModel::ForgetSync(req.name@), StepModel::SyncTree(req.name@)]
            } else {
                seq![
                    StepModel::Boot(req.name@),
                    StepModel::ForgetSync(req.name@),
                    StepModel::SyncTree(req.name@),
                ]
            });
        },
    }
}

/// Nothing is guessed: once nothing is asked any more, everything is known
/// that the decision rests on.
pub proof fn decisions_rest_on_answers(
    reg: store::Registry,
    req: lifecycle::NewRequest,
    facts: lifecycle::Facts,
    r: Result<lifecycle::NewPlan, lifecycle::NewError>,
)
    requires
        lifecycle::asked(reg, req, facts) is None,
        lifecycle::planned(reg, req, facts, r),
    ensures
        r is Ok && r->Ok_0.outcome.created ==> facts.project is Some && facts.placement is Some,
        r is Ok && r->Ok_0.outcome.created && req.from is None ==> facts.head is Some,
        r is Ok && !r->Ok_0.outcome.created ==> facts.head is Some,
        r is Ok && !r->Ok_0.outcome.created && r->Ok_0.outcome.restored_from is None
            ==> facts.running is Some,
        r is Ok && !r->Ok_0.outcome.created && r->Ok_0.outcome.restored_from is Some
            ==> facts.overlay_there is Some && (facts.overlay_there->0 ==> facts.running is Some && (
        facts.running->0 || facts.live_hash is Some)),
        r is Ok && r->Ok_0.outcome.created && r->Ok_0.outcome.restored_from is None && (exists|i: int|
            0 <= i < r->Ok_0.steps@.len() && #[trigger] r->Ok_0.steps@[i] is Flush)
            ==> facts.running is Some,
{
    if r is Ok && r->Ok_0.outcome.created {
        lemma_creation(reg, req, facts, r->Ok_0);
        let from = lifecycle::origin(reg, req, facts)->Ok_0;
        let steps = lifecycle::said(r->Ok_0.steps@);
        let n = from.settle.len() as int;
        if n == 0 {
            assert forall|i: int| 0 <= i < steps.len() implies !(
            #[trigger] r->Ok_0.steps@[i] is Flush) by {
                assert(r->Ok_0.steps@[i]@ == steps[i]);
            }
        }
    }
}

/// What is asked is asked of the right thing: the machine's own overlay and
/// name where it exists, the source where one is to be made.
pub proof fn questions_name_their_subject(
    reg: store::Registry,
    req: lifecycle::NewRequest,
    facts: lifecycle::Facts,
)
    ensures
        match store::machine_in(reg.machines@, req.project_root@, req.name@) {
            Some(m) => match lifecycle::asked(reg, req, facts) {
                Some(lifecycle::QuestionModel::OverlayThere(p)) => p == m.overlay_path@,
                Some(lifecycle::QuestionModel::LiveHash(p)) => p == m.overlay_path@,
                Some(lifecycle::QuestionModel::Running(h)) => h == req.name@,
                Some(lifecycle::QuestionModel::Head) => true,
                Some(_) => false,
                None => true,
            },
            None => match lifecycle::asked(reg, req, facts) {
                Some(lifecycle::QuestionModel::Running(h)) => req.from is Some && h == req.from->0@,
                Some(lifecycle::QuestionModel::Resolve(h)) => req.from is Some && h == req.from->0@,
                Some(lifecycle::QuestionModel::Head) => req.from is None,
                Some(lifecycle::QuestionModel::Project) => true,
                Some(lifecycle::QuestionModel::Placement) => true,
                Some(_) => false,
                None => true,
            },
        },
{
}

proof fn lemma_orphaned(removed: Seq<store::Snapshot>, kept: Seq<store::Snapshot>, i: int)
    requires
        0 <= i < removed.len(),
        forall|j: int|
            0 <= j < kept.len() ==> (#[trigger] kept[j]).content_hash@ != removed[i].content_hash@,
    ensures
        lifecycle::orphaned(removed, kept).contains(removed[i].snapshot_path@),
    decreases removed.len(),
{
    let t = removed.drop_last();
    let all = lifecycle::orphaned(removed, kept);
    let before = lifecycle::orphaned(t, kept);
    assert(!store::content_in(kept, removed[i].content_hash@));
    if i == removed.len() - 1 {
        assert(all[all.len() - 1] == removed[i].snapshot_path@);
    } else {
        assert(t[i] == removed[i]);
        lemma_orphaned(t, kept, i);
        let k = choose|k: int| 0 <= k < before.len() && before[k] == removed[i].snapshot_path@;
        assert(all[k] == before[k]);
    }
}

/// Of the content of removed snapshots, all goes that no other snapshot
/// holds, however much of it there is, and nothing else.
pub proof fn unreferenced_content_is_found(
    removed: Seq<store::Snapshot>,
    kept: Seq<store::Snapshot>,
    path: Seq<char>,
)
    ensures
        lifecycle::orphaned(removed, kept).contains(path) <==> exists|i: int|
            {
                &&& 0 <= i < removed.len()
                &&& (#[trigger] removed[i]).snapshot_path@ == path
                &&& forall|j: int|
                    0 <= j < kept.len() ==> (#[trigger] kept[j]).content_hash@
                        != removed[i].content_hash@
            },
    decreases removed.len(),
{
    let all = lifecycle::orphaned(removed, kept);
    if removed.len() > 0 {
        let t = removed.drop_last();
        let before = lifecycle::orphaned(t, kept);
        unreferenced_content_is_found(t, kept, path);
        let last = removed[removed.len() - 1];
        if all.contains(path) {
            let k = choose|k: int| 0 <= k < all.len() && all[k] == path;
            if k < before.len() {
                assert(before[k] == path);
                assert(before.contains(path));
                let i = choose|i: int|
                    {
                        &&& 0 <= i < t.len()
                        &&& (#[trigger] t[i]).snapshot_path@ == path
                        &&& forall|j: int|
                            0 <= j < kept.len() ==> (#[trigger] kept[j]).content_hash@
                                != t[i].content_hash@
                    };
                assert(removed[i] == t[i]);
            } else {
                assert(last.snapshot_path@ == path);
                assert(!store::content_in(kept, last.content_hash@));
                assert(removed[removed.len() - 1].snapshot_path@ == path);
            }
        }
    }
    if exists|i: int|
        {
            &&& 0 <= i < removed.len()
            &&& (#[trigger] removed[i]).snapshot_path@ == path
            &&& forall|j: int|
                0 <= j < kept.len() ==> (#[trigger] kept[j]).content_hash@
                    != removed[i].content_hash@
        } {
        let i = choose|i: int|
            {
                &&& 0 <= i < removed.len()
                &&& (#[trigger] removed[i]).snapshot_path@ == path
                &&& forall|j: int|
                    0 <= j < kept.len() ==> (#[trigger] kept[j]).content_hash@
                        != removed[i].content_hash@
            };
        lemma_orphaned(removed, kept, i);
    }
}

/// Dropping a machine with its snapshots leaves no content behind: every file
/// of its snapshots goes whose hash no snapshot of another machine has.
pub proof fn dropped_content_is_deleted(
    reg: store::Registry,
    req: lifecycle::DropRequest,
    running: bool,
    pid_file: Option<Seq<char>>,
    i: int,
)
    requires
        req.drop_snapshots,
        0 <= i < reg.snapshots@.len(),
        reg.snapshots@[i].project_root@ == req.project_root@,
        reg.snapshots@[i].handle@ == req.name@,
        forall|j: int|
            0 <= j < reg.snapshots@.len() && ((#[trigger] reg.snapshots@[j]).project_root@
                != req.project_root@ || reg.snapshots@[j].handle@ != req.name@)
                ==> reg.snapshots@[j].content_hash@ != reg.snapshots@[i].content_hash@,
    ensures
        lifecycle::drop_steps(reg, req, running, pid_file).contains(
            StepModel::TryRemove(reg.snapshots@[i].snapshot_path@),
        ),
{
    let rows = reg.snapshots@;
    let s = rows[i];
    let goes = lifecycle::dropped_snapshots(reg, req);
    let stays = lifecycle::kept_snapshots(reg, req);
    assert(rows.contains(s));
    registry::snapshots_belong(rows, req.project_root@, req.name@, s);
    let k = choose|k: int| 0 <= k < goes.len() && goes[k] == s;
    assert forall|j: int| 0 <= j < stays.len() implies (#[trigger] stays[j]).content_hash@
        != goes[k].content_hash@ by {
        registry::snapshots_belong(rows, req.project_root@, req.name@, stays[j]);
        assert(stays.contains(stays[j]));
        let l = choose|l: int| 0 <= l < rows.len() && rows[l] == stays[j];
        assert(rows[l].content_hash@ != s.content_hash@);
    }
    lemma_orphaned(goes, stays, k);
    let files = lifecycle::deleted_content(reg, req);
    let f = choose|f: int| 0 <= f < files.len() && files[f] == s.snapshot_path@;
    let machine = lifecycle::down_steps(req, running, pid_file) + lifecycle::forget_steps(reg, req);
    let steps = lifecycle::drop_steps(reg, req, running, pid_file);
    assert(steps[machine.len() + 1 + f] == StepModel::TryRemove(files[f]));
}

/// Dropping a machine removes its overlay and its row, takes it down first
/// where it runs, and forgets its snapshots where that is asked and never
/// else.
pub proof fn dropped_machines_are_gone(
    reg: store::Registry,
    req: lifecycle::DropRequest,
    running: bool,
    pid_file: Option<Seq<char>>,
    m: store::Machine,
)
    ensures
        ({
            let steps = lifecycle::drop_steps(reg, req, running, pid_file);
            &&& store::machine_in(reg.machines@, req.project_root@, req.name@) == Some(m) ==> {
                &&& lifecycle::precedes_in(
                    steps,
                    StepModel::RemoveIfThere(m.overlay_path@),
                    StepModel::Forget(req.name@),
                )
            }
            &&& forall|i: int|
                0 <= i < steps.len() && #[trigger] steps[i] is RemoveIfThere
                    ==> store::machine_in(reg.machines@, req.project_root@, req.name@) is Some
                    && steps[i] == StepModel::RemoveIfThere(
                    store::machine_in(
                        reg.machines@,
                        req.project_root@,
                        req.name@,
                    )->0.overlay_path@,
                )
            &&& forall|i: int|
                0 <= i < steps.len() ==> (#[trigger] steps[i] is Stop <==> i == 0 && running
                    && !req.force)
            &&& running && !req.force ==> steps[0] == StepModel::Stop(req.name@)
            &&& forall|i: int|
                0 <= i < steps.len() && #[trigger] steps[i] is Kill ==> i == 0 && running
                    && req.force
            &&& steps.contains(StepModel::ForgetSync(req.name@))
            &&& steps.contains(StepModel::ForgetSnapshots(req.name@)) <==> req.drop_snapshots
            &&& forall|i: int|
                0 <= i < steps.len() && #[trigger] steps[i] is ForgetSnapshots ==> steps[i]
                    == StepModel::ForgetSnapshots(req.name@)
            &&& forall|i: int|
                0 <= i < steps.len() && #[trigger] steps[i] is TryRemove ==> running && req.force
                    || req.drop_snapshots
        }),
{
    let down = lifecycle::down_steps(req, running, pid_file);
    let forget = lifecycle::forget_steps(reg, req);
    let machine = down + forget;
    let steps = lifecycle::drop_steps(reg, req, running, pid_file);
    let n = down.len() as int;
    let k = machine.len() as int;
    assert forall|i: int| 0 <= i < n implies #[trigger] steps[i] == down[i] by {}
    assert forall|i: int| n <= i < k implies #[trigger] steps[i] == forget[i - n] by {}
    let files = lifecycle::deleted_content(reg, req).map_values(
        |p: Seq<char>| StepModel::TryRemove(p),
    );
    if req.drop_snapshots {
        assert(steps[k] == StepModel::ForgetSnapshots(req.name@));
        assert(steps.len() == k + 1 + files.len());
        assert forall|i: int| k < i < steps.len() implies #[trigger] steps[i] is TryRemove by {
            assert(steps[i] == files[i - k - 1]);
        }
    } else {
        assert(steps.len() == k);
    }
    assert(forget.last() == StepModel::ForgetSync(req.name@));
    assert(steps[k - 1] == forget.last());
    assert forall|i: int| 0 <= i < n implies {
        &&& #[trigger] steps[i] is Stop <==> i == 0 && running && !req.force
        &&& steps[i] is Stop || steps[i] is Kill || steps[i] is TryRemove
        &&& steps[i] is Kill ==> i == 0 && running && req.force
        &&& steps[i] is TryRemove ==> running && req.force
    } by {
        assert(steps[i] == down[i]);
        if req.force {
            let removals = shim::leftovers(
                req.runtime_dir@,
                req.project_root@,
                req.name@,
            ).map_values(|p: Seq<char>| StepModel::TryRemove(p));
            match lifecycle::supervisor_of(pid_file) {
                Some(pid) => {
                    if i > 0 {
                        assert(down[i] == removals[i - 1]);
                    }
                },
                None => {
                    assert(down[i] == removals[i]);
                },
            }
        }
    }
    assert forall|i: int| n <= i < k implies {
        &&& #[trigger] steps[i] is RemoveIfThere || steps[i] is Forget || steps[i] is ForgetSync
    } by {
        assert(steps[i] == forget[i - n]);
    }
    if store::machine_in(reg.machines@, req.project_root@, req.name@) == Some(m) {
        assert(steps[n] == forget[0]);
        assert(steps[n + 1] == forget[1]);
    }
}

/// A running machine that is dropped by force is killed at once by the
/// process id that its file holds, and all that it left is removed.
pub proof fn forced_drops_kill(
    reg: store::Registry,
    req: lifecycle::DropRequest,
    pid: nat,
    pid_file: Option<Seq<char>>,
)
    requires
        req.force,
        pid <= i32::MAX,
    ensures
        lifecycle::drop_steps(reg, req, true, Some(text::decimal(pid)))[0] == StepModel::Kill(
            pid as i32,
        ),
        lifecycle::drop_steps(reg, req, true, Some(text::decimal(pid).push('\n')))[0]
            == StepModel::Kill(pid as i32),
        ({
            let steps = lifecycle::drop_steps(reg, req, true, pid_file);
            let dir = req.runtime_dir@;
            let root = req.project_root@;
            &&& steps.contains(
                StepModel::TryRemove(shim::runtime_file(dir, root, req.name@, ".sock"@)),
            )
            &&& steps.contains(
                StepModel::TryRemove(shim::runtime_file(dir, root, req.name@, ".pid"@)),
            )
            &&& steps.contains(
                StepModel::TryRemove(shim::net_file(dir, root, req.name@, ".net.sock"@)),
            )
            &&& steps.contains(
                StepModel::TryRemove(shim::net_file(dir, root, req.name@, ".net.api.sock"@)),
            )
        }),
        pid_file is None ==> forall|i: int|
            0 <= i < lifecycle::drop_steps(reg, req, true, pid_file).len() ==> !(
            #[trigger] lifecycle::drop_steps(reg, req, true, pid_file)[i] is Kill),
{
    text::decimal_round_trip(pid);
    let d = text::decimal(pid);
    lemma_digits_stay(d);
    let down = lifecycle::down_steps(req, true, Some(d));
    assert(d[0] != '-' && d[0] != '+') by {
        assert(text::is_digit(d[0]));
    }
    assert(text::i32_value(d) == Some(pid as int));
    assert(down[0] == StepModel::Kill(pid as i32));
    let steps = lifecycle::drop_steps(reg, req, true, Some(d));
    assert(steps[0] == down[0]);
    let line = d.push('\n');
    let none = Seq::<char>::empty();
    assert(text::is_digit(d[0]) && text::is_digit(d[d.len() - 1]));
    words::only_white_space_is_trimmed(none, d, seq!['\n']);
    assert(none + d + seq!['\n'] =~= line);
    let ended = lifecycle::down_steps(req, true, Some(line));
    assert(ended[0] == StepModel::Kill(pid as i32));
    assert(lifecycle::drop_steps(reg, req, true, Some(line))[0] == ended[0]);
    let down = lifecycle::down_steps(req, true, pid_file);
    let steps = lifecycle::drop_steps(reg, req, true, pid_file);
    assert forall|i: int| 0 <= i < down.len() implies #[trigger] steps[i] == down[i] by {}
    let files = shim::leftovers(req.runtime_dir@, req.project_root@, req.name@);
    let n: int = if lifecycle::supervisor_of(pid_file) is Some {
        1
    } else {
        0
    };
    assert(steps[n] == StepModel::TryRemove(files[0]));
    assert(steps[n + 1] == StepModel::TryRemove(files[1]));
    assert(steps[n + 2] == StepModel::TryRemove(files[2]));
    assert(steps[n + 3] == StepModel::TryRemove(files[3]));
    if pid_file is None {
        dropped_machines_are_gone(
            reg,
            req,
            true,
            pid_file,
            store::machine_in(reg.machines@, req.project_root@, req.name@)->0,
        );
        assert(!(steps[0] is Kill));
    }
}

/// Digits have no white space at their ends.
proof fn lemma_digits_stay(d: Seq<char>)
    requires
        d.len() > 0,
        forall|i: int| 0 <= i < d.len() ==> text::is_digit(#[trigger] d[i]),
    ensures
        text::trimmed(d) == d,
{
    assert(text::is_digit(d[0]));
    assert(text::is_digit(d[d.len() - 1]));
    assert(!text::is_space(d[0]));
    assert(!text::is_space(d.last()));
}

/// The listing shows every machine once, oldest first, each with its own
/// snapshots.
pub proof fn listings_are_complete<F: Fn(&str, &str) -> bool>(
    reg: store::Registry,
    running: F,
    rows: Seq<lifecycle::LsRow>,
    i: int,
    s: store::Snapshot,
)
    requires
        lifecycle::lists(rows, store::by_creation(reg.machines@), reg.snapshots@, running),
    ensures
        rows.len() == reg.machines@.len(),
        rows.map_values(|r: lifecycle::LsRow| r.machine).to_multiset()
            == reg.machines@.to_multiset(),
        forall|a: int, b: int|
            0 <= a <= b < rows.len() ==> (#[trigger] rows[a]).machine.created_at <= (
            #[trigger] rows[b]).machine.created_at,
        0 <= i < rows.len() ==> (rows[i].snapshots@.contains(s) <==> reg.snapshots@.contains(s)
            && s.project_root@ == rows[i].machine.project_root@ && s.handle@
            == rows[i].machine.handle@),
        0 <= i < rows.len() ==> forall|a: int, b: int|
            0 <= a <= b < rows[i].snapshots@.len() ==> (
            #[trigger] rows[i].snapshots@[a]).saved_at <= (
            #[trigger] rows[i].snapshots@[b]).saved_at,
        0 <= i < rows.len() ==> exists|p: &str, h: &str|
            p@ == rows[i].machine.project_root@ && h@ == rows[i].machine.handle@
                && #[trigger] call_ensures(running, (p, h), rows[i].running),
{
    let sorted = store::by_creation(reg.machines@);
    store::machines_listed_in_order(reg.machines@);
    seqs::sorted_is_ascending(reg.machines@, store::creation_key());
    let shown = rows.map_values(|r: lifecycle::LsRow| r.machine);
    assert forall|a: int| 0 <= a < rows.len() implies (#[trigger] rows[a]).machine
        == sorted[a] by {
        assert(lifecycle::shows(rows[a], sorted[a], reg.snapshots@, running));
    }
    assert(shown =~= sorted);
    if 0 <= i < rows.len() {
        let m = rows[i].machine;
        assert(lifecycle::shows(rows[i], sorted[i], reg.snapshots@, running));
        registry::snapshots_belong(reg.snapshots@, m.project_root@, m.handle@, s);
        let own = store::snapshots_of(reg.snapshots@, m.project_root@, m.handle@);
        let key = store::save_key();
        seqs::sorted_is_ascending(own, key);
        let listed = rows[i].snapshots@;
        assert forall|a: int, b: int| 0 <= a <= b < listed.len() implies (
        #[trigger] listed[a]).saved_at <= (#[trigger] listed[b]).saved_at by {
            if a < b {
                assert(key(listed[a]) <= key(listed[b]));
            }
        }
    }
}

/// A machine is created in one order: what was left at the place of its disk
/// is removed, the disk is cloned there, the machine is recorded, booted, and
/// gets the tree anew. Before that, the source of a fork is flushed, and
/// settles where it runs; nothing else is done to any machine.
pub proof fn machines_are_created_in_order(
    reg: store::Registry,
    req: lifecycle::NewRequest,
    facts: lifecycle::Facts,
    plan: lifecycle::NewPlan,
)
    requires
        store::machine_in(reg.machines@, req.project_root@, req.name@) is None,
        lifecycle::planned(reg, req, facts, Ok(plan)),
    ensures
        ({
            let steps = lifecycle::said(plan.steps@);
            let n = steps.len() as int;
            let source = if req.from is Some && (req.from->0@.len() < 2 || req.from->0@[0] != 's'
                || req.from->0@[1] != '_') {
                store::machine_in(reg.machines@, req.project_root@, req.from->0@)
            } else {
                None
            };
            &&& n >= 6
            &&& steps[n - 4] is Record
            &&& steps[n - 4]->Record_0.overlay_path == lifecycle::overlay_of(
                req.machines_dir@,
                req.project_root@,
                req.name@,
            )
            &&& steps[n - 6] == StepModel::RemoveIfThere(steps[n - 4]->Record_0.overlay_path)
            &&& steps[n - 5] is CopyDisk
            &&& steps[n - 5]->to == steps[n - 4]->Record_0.overlay_path
            &&& steps[n - 3] == StepModel::Boot(req.name@)
            &&& steps[n - 2] == StepModel::ForgetSync(req.name@)
            &&& steps[n - 1] == StepModel::SyncTree(req.name@)
            &&& match source {
                Some(other) => if facts.running->0 {
                    &&& n == 8
                    &&& steps[0] == StepModel::Quiesce(req.from->0@)
                    &&& steps[1] == StepModel::Flush(other.overlay_path@)
                } else {
                    &&& n == 7
                    &&& steps[0] == StepModel::Flush(other.overlay_path@)
                },
                None => n == 6,
            }
        }),
{
    reveal_strlit("s_");
    let from = lifecycle::origin(reg, req, facts)->Ok_0;
    let steps = lifecycle::said(plan.steps@);
    let k = from.settle.len() as int;
    assert(steps == lifecycle::create_steps(req, facts, from));
    assert(steps.len() == k + 6);
    assert(steps[k] is RemoveIfThere);
    assert(steps[k + 1] is CopyDisk);
    assert(steps[k + 2] is Record);
    assert(steps[k + 3] is Boot);
    assert(steps[k + 4] is ForgetSync);
    assert(steps[k + 5] is SyncTree);
    if req.from is Some {
        let src = req.from->0@;
        if src.len() >= 2 && src[0] == 's' && src[1] == '_' {
            assert("s_"@ =~= src.take(2));
        } else if "s_"@.is_prefix_of(src) {
            assert("s_"@ == src.take(2));
            assert(src.take(2)[0] == src[0]);
            assert(src.take(2)[1] == src[1]);
        }
        registry::machines_are_found(reg.machines@, req.project_root@, src);
    }
}

/// A fresh save leaves the content at the snapshot's place, cloned from the
/// machine's overlay unless it is there, before the snapshot is recorded.
pub proof fn fresh_saves_are_kept_in_order(m: store::Machine, o: lifecycle::SaveOutcome)
    requires
        o.fresh,
    ensures
        lifecycle::keep_plan(m, o, true) == seq![StepModel::RecordSnapshot(o.snapshot)],
        lifecycle::keep_plan(m, o, false) == seq![
            StepModel::CopyDisk { from: m.overlay_path@, to: o.snapshot.snapshot_path@ },
            StepModel::RecordSnapshot(o.snapshot),
        ],
{
    assert(lifecycle::keep_plan(m, o, false) =~= seq![
        StepModel::CopyDisk { from: m.overlay_path@, to: o.snapshot.snapshot_path@ },
        StepModel::RecordSnapshot(o.snapshot),
    ]);
}

/// A machine whose state is set keeps everything else.
pub proof fn only_the_state_is_set(now: store::Machine, was: store::Machine, state: Seq<char>)
    requires
        now.with_lifecycle(was, state),
    ensures
        now.lifecycle@ == state,
        now.handle@ == was.handle@,
        now.project_root@ == was.project_root@,
        now.overlay_path@ == was.overlay_path@,
        now.base_image_path@ == was.base_image_path@,
        now.base_commit == was.base_commit,
        now.parent_machine == was.parent_machine,
        now.recipe_hash@ == was.recipe_hash@,
        now.port_map@ == was.port_map@,
        now.detached == was.detached,
        now.created_at == was.created_at,
        now.cpus == was.cpus,
        now.ram_mib == was.ram_mib,
{
}

/// The registry holds a new machine as it was asked for, behind all the rows
/// that were there; the snapshots stay. Where no machine is created, the
/// registry stays as it is.
pub proof fn new_machines_are_registered(
    before: store::Registry,
    after: store::Registry,
    req: lifecycle::NewRequest,
    facts: lifecycle::Facts,
    r: Result<lifecycle::NewPlan, lifecycle::NewError>,
)
    requires
        lifecycle::planned(before, req, facts, r),
        lifecycle::registered(before, after, req, facts, r),
    ensures
        after.snapshots@ == before.snapshots@,
        r is Ok && store::machine_in(before.machines@, req.project_root@, req.name@) is None ==> {
            let row = after.machines@.last();
            &&& after.machines@.len() == before.machines@.len() + 1
            &&& forall|i: int|
                0 <= i < before.machines@.len() ==> #[trigger] after.machines@[i]
                    == before.machines@[i]
            &&& row.handle@ == req.name@
            &&& row.project_root@ == req.project_root@
            &&& row.detached == req.detached
            &&& row.cpus == facts.project->0.cpus
            &&& row.ram_mib == facts.project->0.ram_mib
            &&& row.recipe_hash@ == facts.project->0.recipe_hash@
            &&& row.base_image_path@ == facts.project->0.base_image@
            &&& row.created_at == facts.placement->0.created_at
            &&& ports::forwards(row.port_map@) == facts.placement->0.ports@
            &&& row.lifecycle@ == "live"@
            &&& lifecycle::said(r->Ok_0.steps@).contains(StepModel::Record(row@))
        },
        r is Err || store::machine_in(before.machines@, req.project_root@, req.name@) is Some
            ==> after == before,
{
    if r is Ok && store::machine_in(before.machines@, req.project_root@, req.name@) is None {
        let row = choose|row: store::Machine|
            {
                &&& after.machines@ == before.machines@.push(row)
                &&& row@ == lifecycle::new_row(
                    req,
                    facts,
                    lifecycle::origin(before, req, facts)->Ok_0,
                )
                &&& lifecycle::said(r->Ok_0.steps@).contains(StepModel::Record(row@))
            };
        assert(after.machines@.last() == row);
        ports::port_map_round_trip(facts.placement->0.ports@);
    }
}

/// A command runs exactly where a row has the repository and the name: the
/// last step hands it to that machine, and the tree is synced before.
pub proof fn commands_need_a_machine(
    machines: Seq<store::Machine>,
    root: Seq<char>,
    name: Seq<char>,
    running: bool,
    command: Seq<char>,
    r: Result<Vec<Step>, lifecycle::MissingMachine>,
)
    requires
        lifecycle::runs_command(machines, root, name, running, command, r),
    ensures
        r is Ok <==> exists|i: int|
            0 <= i < machines.len() && (#[trigger] machines[i]).project_root@ == root
                && machines[i].handle@ == name,
        r is Err ==> r->Err_0.name@ == name,
        r is Ok ==> {
            let steps = lifecycle::said(r->Ok_0@);
            let n = steps.len() as int;
            &&& n == if running {
                2int
            } else {
                3int
            }
            &&& steps[n - 1] == (StepModel::Request { handle: name, command })
            &&& steps[n - 2] == StepModel::SyncTree(name)
            &&& !running ==> steps[0] == StepModel::Boot(name)
        },
{
    registry::machines_are_found(machines, root, name);
}

/// A save prepares exactly where a row has the repository and the name, and
/// flushes the overlay that this row names, last.
pub proof fn saves_need_a_machine(
    machines: Seq<store::Machine>,
    root: Seq<char>,
    name: Seq<char>,
    running: bool,
    commands: Seq<Seq<char>>,
    r: Result<Vec<Step>, lifecycle::MissingMachine>,
    k: int,
)
    requires
        lifecycle::prepares(machines, root, name, running, commands, r),
    ensures
        r is Ok <==> exists|i: int|
            0 <= i < machines.len() && (#[trigger] machines[i]).project_root@ == root
                && machines[i].handle@ == name,
        r is Err ==> r->Err_0.name@ == name,
        r is Ok && store::machine_in(machines, root, name) == Some(machines[k])
            ==> lifecycle::said(r->Ok_0@).last() == StepModel::Flush(machines[k].overlay_path@),
        r is Ok && running ==> forall|i: int|
            0 <= i < commands.len() ==> #[trigger] lifecycle::said(r->Ok_0@)[i]
                == (StepModel::Prepare { handle: name, command: commands[i] }),
        r is Ok && running ==> lifecycle::said(r->Ok_0@)[commands.len() as int]
            == StepModel::Quiesce(name),
{
    registry::machines_are_found(machines, root, name);
    if r is Ok {
        let m = store::machine_in(machines, root, name)->0;
        saves_are_prepared(m, name, running, commands);
    }
}

/// Dropping a machine forgets the rows of its snapshots exactly where that is
/// asked, and never a row of another machine's.
pub proof fn drops_keep_other_snapshots(
    reg: store::Registry,
    req: lifecycle::DropRequest,
    s: store::Snapshot,
)
    ensures
        !req.drop_snapshots ==> lifecycle::kept_snapshots(reg, req) == reg.snapshots@,
        req.drop_snapshots ==> (lifecycle::kept_snapshots(reg, req).contains(s)
            <==> reg.snapshots@.contains(s) && (s.project_root@ != req.project_root@ || s.handle@
            != req.name@)),
{
    let keep = |x: store::Snapshot| !x.is_of(req.project_root@, req.name@);
    seqs::lemma_selected(reg.snapshots@, keep);
}

/// A drop goes in one order: the machine is stopped where it runs, its disk is
/// removed, its row and what was synced are forgotten, and only then, where it
/// is asked, its snapshots are forgotten, and content is deleted after that.
pub proof fn drops_go_in_order(
    reg: store::Registry,
    req: lifecycle::DropRequest,
    running: bool,
    pid_file: Option<Seq<char>>,
    i: int,
)
    requires
        !(running && req.force),
    ensures
        ({
            let steps = lifecycle::drop_steps(reg, req, running, pid_file);
            let machine = store::machine_in(reg.machines@, req.project_root@, req.name@);
            let n: int = if running {
                1
            } else {
                0
            };
            let k: int = if machine is Some {
                n + 3
            } else {
                n + 1
            };
            &&& running ==> steps[0] == StepModel::Stop(req.name@)
            &&& machine is Some ==> steps[n] == StepModel::RemoveIfThere(machine->0.overlay_path@)
            &&& machine is Some ==> steps[n + 1] == StepModel::Forget(req.name@)
            &&& steps[k - 1] == StepModel::ForgetSync(req.name@)
            &&& !req.drop_snapshots ==> steps.len() == k
            &&& req.drop_snapshots ==> steps.len() > k && steps[k] == StepModel::ForgetSnapshots(
                req.name@,
            )
            &&& k < i < steps.len() ==> steps[i] is TryRemove
        }),
{
    let down = lifecycle::down_steps(req, running, pid_file);
    let forget = lifecycle::forget_steps(reg, req);
    let steps = lifecycle::drop_steps(reg, req, running, pid_file);
    let n = down.len() as int;
    let k = n + forget.len() as int;
    assert forall|j: int| 0 <= j < n implies #[trigger] steps[j] == down[j] by {}
    assert forall|j: int| n <= j < k implies #[trigger] steps[j] == forget[j - n] by {}
    if req.drop_snapshots {
        assert(steps[k] == StepModel::ForgetSnapshots(req.name@));
        if k < i < steps.len() {
            assert(steps[i] is TryRemove);
        }
    }
}

} // verus!
