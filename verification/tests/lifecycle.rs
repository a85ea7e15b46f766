use moo::lifecycle::{
    drop_machine, fork_quiesce_reply, keep_steps, list, new_machine, next_question, overlay_path,
    prepare_reply, prepare_save, quiesce_reply, run_in_machine, save_machine, DropRequest, Facts,
    NewPlan, NewRequest, Placement, ProjectFacts, Question, SaveFacts, Step,
};
use moo::store::{Machine, Registry, Snapshot};

fn machine(handle: &str) -> Machine {
    Machine {
        handle: handle.to_string(),
        base_commit: Some("base".to_string()),
        recipe_hash: "r".to_string(),
        parent_machine: None,
        base_image_path: "/images/r.img".to_string(),
        overlay_path: format!("/machines/%Sf97b771eaa16{}.img", handle),
        lifecycle: "live".to_string(),
        detached: false,
        created_at: 1,
        cpus: 2,
        ram_mib: 4096,
        port_map: String::new(),
        project_root: "/repo".to_string(),
    }
}

fn snapshot(id: &str, handle: &str, sha: Option<&str>, hash: &str) -> Snapshot {
    Snapshot {
        snapshot_id: id.to_string(),
        handle: handle.to_string(),
        project_root: "/repo".to_string(),
        head_sha: sha.map(str::to_string),
        snapshot_path: format!("/snapshots/{}", hash),
        content_hash: hash.to_string(),
        saved_at: 1,
    }
}

fn request(name: &str, from: Option<&str>) -> NewRequest {
    NewRequest {
        project_root: "/repo".to_string(),
        name: name.to_string(),
        from: from.map(str::to_string),
        detached: false,
        machines_dir: "/machines".to_string(),
    }
}

fn shown(step: &Step) -> String {
    match step {
        Step::Stop(h) => format!("stop {}", h),
        Step::Kill(pid) => format!("kill {}", pid),
        Step::Prepare { handle, command } => format!("prepare {} {}", handle, command),
        Step::Quiesce(h) => format!("quiesce {}", h),
        Step::Flush(p) => format!("flush {}", p),
        Step::RemoveIfThere(p) => format!("remove {}", p),
        Step::TryRemove(p) => format!("try-remove {}", p),
        Step::CopyDisk { from, to } => format!("copy {} {}", from, to),
        Step::Record(m) => format!("record {}", m.handle),
        Step::RecordSnapshot(s) => format!("record-snapshot {}", s.snapshot_id),
        Step::Forget(h) => format!("forget {}", h),
        Step::ForgetSnapshots(h) => format!("forget-snapshots {}", h),
        Step::Boot(h) => format!("boot {}", h),
        Step::ForgetSync(h) => format!("forget-sync {}", h),
        Step::SyncTree(h) => format!("sync {}", h),
        Step::Request { handle, command } => format!("request {} {}", handle, command),
    }
}

fn texts(steps: &[Step]) -> Vec<String> {
    steps.iter().map(shown).collect()
}

/// Answers every question, and returns the plan with the number of questions.
fn decide(
    reg: &mut Registry,
    req: &NewRequest,
    answer: &dyn Fn(&Question, &mut Facts),
) -> (Result<NewPlan, String>, usize) {
    let mut facts = Facts::none();
    let mut asked = 0;
    while let Some(q) = next_question(reg, req, &facts) {
        asked += 1;
        assert!(asked < 10);
        answer(&q, &mut facts);
    }
    (new_machine(reg, req, &facts).map_err(|e| e.message()), asked)
}

fn project() -> ProjectFacts {
    ProjectFacts {
        base_image: "/images/base.img".to_string(),
        recipe_hash: "recipe".to_string(),
        cpus: 4,
        ram_mib: 1024,
    }
}

/// A host at the commit `sha` on which no machine runs.
fn quiet(q: &Question, facts: &mut Facts) {
    match q {
        Question::Head => facts.head = Some(Some("sha".to_string())),
        Question::OverlayThere(_) => facts.overlay_there = Some(true),
        Question::Running(_) => facts.running = Some(false),
        Question::LiveHash(_) => facts.live_hash = Some("live".to_string()),
        Question::Project => facts.project = Some(project()),
        Question::Resolve(_) => facts.resolved = Some(None),
        Question::Placement => {
            facts.placement =
                Some(Placement { ports: vec![(20001, 80), (20002, 5432)], created_at: 77 })
        }
    }
}

#[test]
fn overlays_are_named_after_sanitized_handles() {
    assert_eq!(overlay_path("/m", "", "feat/billing"), "/m/feat%2Fbilling.img");
    assert_eq!(overlay_path("/m", "/repo", "feat"), "/m/%Sf97b771eaa16feat.img");
    assert_ne!(overlay_path("/m", "/a", "m"), overlay_path("/m", "/b", "m"));
    assert_ne!(overlay_path("/m", "", "a/b"), overlay_path("/m", "", "a%2Fb"));
}

#[test]
fn the_same_handle_in_another_repository_is_another_disk() {
    let mut other = machine("m");
    other.project_root = "/other".to_string();
    other.overlay_path = overlay_path("/machines", "/other", "m");
    let mut reg = Registry::open(vec![other], Vec::new());
    let (plan, _) = decide(&mut reg, &request("m", None), &quiet);
    for step in texts(&plan.unwrap().steps) {
        assert!(!step.contains(&reg.machines[0].overlay_path), "{}", step);
    }
    assert_eq!(reg.machines.len(), 2);
}

#[test]
fn a_fresh_machine_starts_from_the_base_image() {
    let mut reg = Registry::open(Vec::new(), Vec::new());
    let (plan, asked) = decide(&mut reg, &request("x", None), &quiet);
    let plan = plan.unwrap();
    assert_eq!(asked, 3);
    assert_eq!(
        texts(&plan.steps),
        [
            "remove /machines/%Sf97b771eaa16x.img",
            "copy /images/base.img /machines/%Sf97b771eaa16x.img",
            "record x",
            "boot x",
            "forget-sync x",
            "sync x",
        ]
    );
    assert!(plan.outcome.created && plan.outcome.restored_from.is_none());
    let row = reg.get_machine("/repo", "x").unwrap();
    assert_eq!(row.base_commit.as_deref(), Some("sha"));
    assert_eq!(row.port_map, "20001:80,20002:5432");
    assert_eq!((row.cpus, row.ram_mib, row.created_at), (4, 1024, 77));
    assert_eq!(row.lifecycle, "live");
    assert_eq!(row.recipe_hash, "recipe");
    assert_eq!(row.base_image_path, "/images/base.img");
    assert_eq!(row.overlay_path, "/machines/%Sf97b771eaa16x.img");
}

#[test]
fn creating_twice_creates_once() {
    let mut reg = Registry::open(Vec::new(), Vec::new());
    decide(&mut reg, &request("x", None), &quiet).0.unwrap();
    let (plan, _) = decide(&mut reg, &request("x", None), &quiet);
    let plan = plan.unwrap();
    assert!(!plan.outcome.created);
    assert_eq!(texts(&plan.steps), ["boot x", "forget-sync x", "sync x"]);
    assert_eq!(reg.machines.len(), 1);
}

#[test]
fn an_existing_machine_is_restored_to_its_commit() {
    let snaps = vec![
        snapshot("s_1", "x", Some("sha"), "h1"),
        snapshot("s_2", "x", Some("other"), "h2"),
    ];
    let mut reg = Registry::open(vec![machine("x")], snaps);
    let (plan, _) = decide(&mut reg, &request("x", None), &quiet);
    let plan = plan.unwrap();
    assert_eq!(plan.outcome.restored_from.unwrap().snapshot_id, "s_1");
    assert!(!plan.outcome.created);
    assert_eq!(
        texts(&plan.steps),
        [
            "stop x",
            "remove /machines/%Sf97b771eaa16x.img",
            "copy /snapshots/h1 /machines/%Sf97b771eaa16x.img",
            "boot x",
            "forget-sync x",
            "sync x",
        ]
    );
}

#[test]
fn a_live_disk_equal_to_the_snapshot_is_reused() {
    let snaps = vec![snapshot("s_1", "x", Some("sha"), "live")];
    let mut reg = Registry::open(vec![machine("x")], snaps);
    let (plan, asked) = decide(&mut reg, &request("x", None), &quiet);
    let plan = plan.unwrap();
    assert_eq!(asked, 4);
    assert!(plan.outcome.restored_from.is_none());
    assert_eq!(texts(&plan.steps), ["boot x", "forget-sync x", "sync x"]);
}

#[test]
fn a_running_machine_is_restored_without_hashing_its_disk() {
    let snaps = vec![snapshot("s_1", "x", Some("sha"), "live")];
    let mut reg = Registry::open(vec![machine("x")], snaps);
    let (plan, asked) = decide(&mut reg, &request("x", None), &|q, f| match q {
        Question::Running(_) => f.running = Some(true),
        Question::LiveHash(_) => panic!("hashed a running disk"),
        _ => quiet(q, f),
    });
    assert_eq!(asked, 3);
    assert_eq!(plan.unwrap().steps.len(), 6);
}

#[test]
fn a_running_machine_without_a_snapshot_is_left_running() {
    let mut reg = Registry::open(vec![machine("x")], Vec::new());
    let (plan, _) = decide(&mut reg, &request("x", None), &|q, f| match q {
        Question::Running(_) => f.running = Some(true),
        _ => quiet(q, f),
    });
    assert_eq!(texts(&plan.unwrap().steps), ["forget-sync x", "sync x"]);
}

#[test]
fn a_missing_overlay_is_restored() {
    let snaps = vec![snapshot("s_1", "x", Some("sha"), "h")];
    let mut reg = Registry::open(vec![machine("x")], snaps);
    let (plan, asked) = decide(&mut reg, &request("x", None), &|q, f| match q {
        Question::OverlayThere(p) => {
            assert_eq!(p, "/machines/%Sf97b771eaa16x.img");
            f.overlay_there = Some(false)
        }
        _ => quiet(q, f),
    });
    assert_eq!(asked, 2);
    assert!(plan.unwrap().outcome.restored_from.is_some());
}

#[test]
fn a_machine_is_created_from_a_snapshot_id() {
    let snaps = vec![snapshot("s_1", "y", Some("old"), "h1")];
    let mut reg = Registry::open(Vec::new(), snaps);
    let (plan, _) = decide(&mut reg, &request("x", Some("s_1")), &quiet);
    let plan = plan.unwrap();
    assert!(plan.outcome.created);
    assert_eq!(texts(&plan.steps)[1], "copy /snapshots/h1 /machines/%Sf97b771eaa16x.img");
    assert_eq!(reg.get_machine("/repo", "x").unwrap().base_commit.as_deref(), Some("old"));
    let (plan, asked) = decide(&mut reg, &request("z", Some("s_9")), &quiet);
    assert_eq!(plan.err().unwrap(), "no snapshot 's_9'");
    assert_eq!(asked, 1);
    assert!(reg.get_machine("/repo", "z").is_none());
}

#[test]
fn a_fork_of_a_running_machine_settles_it_first() {
    let mut reg = Registry::open(vec![machine("base")], Vec::new());
    let (plan, _) = decide(&mut reg, &request("x", Some("base")), &|q, f| match q {
        Question::Running(h) => {
            assert_eq!(h, "base");
            f.running = Some(true)
        }
        _ => quiet(q, f),
    });
    assert_eq!(
        texts(&plan.unwrap().steps)[..4],
        [
            "quiesce base",
            "flush /machines/%Sf97b771eaa16base.img",
            "remove /machines/%Sf97b771eaa16x.img",
            "copy /machines/%Sf97b771eaa16base.img /machines/%Sf97b771eaa16x.img",
        ]
    );
    let row = reg.get_machine("/repo", "x").unwrap();
    assert_eq!(row.parent_machine.as_deref(), Some("base"));
    assert_eq!(row.base_commit.as_deref(), Some("base"));
}

#[test]
fn a_fork_of_a_stopped_machine_is_flushed_only() {
    let mut reg = Registry::open(vec![machine("base")], Vec::new());
    let (plan, _) = decide(&mut reg, &request("x", Some("base")), &quiet);
    assert_eq!(texts(&plan.unwrap().steps)[0], "flush /machines/%Sf97b771eaa16base.img");
}

#[test]
fn a_machine_is_created_from_a_commit() {
    let snaps = vec![snapshot("s_1", "x", Some("full"), "h1")];
    let mut reg = Registry::open(Vec::new(), snaps);
    let resolve = |q: &Question, f: &mut Facts| match q {
        Question::Resolve(s) => {
            assert_eq!(s, "HEAD^");
            f.resolved = Some(Some("full".to_string()))
        }
        _ => quiet(q, f),
    };
    let (plan, _) = decide(&mut reg, &request("x", Some("HEAD^")), &resolve);
    assert_eq!(texts(&plan.unwrap().steps)[1], "copy /snapshots/h1 /machines/%Sf97b771eaa16x.img");
    let (plan, _) = decide(&mut reg, &request("y", Some("HEAD^")), &resolve);
    assert_eq!(texts(&plan.unwrap().steps)[1], "copy /images/base.img /machines/%Sf97b771eaa16y.img");
    assert_eq!(reg.get_machine("/repo", "y").unwrap().base_commit.as_deref(), Some("full"));
    let (plan, _) = decide(&mut reg, &request("z", Some("nothing")), &quiet);
    assert_eq!(plan.err().unwrap(), "'nothing' is not a snapshot, machine, or git commit");
}

#[test]
fn a_dropped_machine_comes_back_with_its_saved_state() {
    let snaps = vec![snapshot("s_1", "x", Some("sha"), "h1")];
    let mut reg = Registry::open(vec![machine("x")], snaps);
    let steps = drop_machine(&mut reg, &drop_request("x", false, false), false, None);
    assert_eq!(texts(&steps), ["remove /machines/%Sf97b771eaa16x.img", "forget x", "forget-sync x"]);
    let (plan, _) = decide(&mut reg, &request("x", None), &quiet);
    let plan = plan.unwrap();
    assert!(plan.outcome.created);
    assert_eq!(plan.outcome.restored_from.unwrap().snapshot_id, "s_1");
    assert_eq!(texts(&plan.steps)[1], "copy /snapshots/h1 /machines/%Sf97b771eaa16x.img");
}

fn drop_request(name: &str, force: bool, drop_snapshots: bool) -> DropRequest {
    DropRequest {
        project_root: "/repo".to_string(),
        name: name.to_string(),
        force,
        drop_snapshots,
        runtime_dir: "/run".to_string(),
    }
}

#[test]
fn a_drop_stops_a_running_machine() {
    let mut reg = Registry::open(vec![machine("x")], Vec::new());
    let steps = drop_machine(&mut reg, &drop_request("x", false, false), true, None);
    assert_eq!(texts(&steps)[0], "stop x");
    assert!(reg.machines.is_empty());
}

#[test]
fn a_forced_drop_kills_the_process_group() {
    let mut reg = Registry::open(vec![machine("a/b")], Vec::new());
    let steps = drop_machine(&mut reg, &drop_request("a/b", true, false), true, Some(" 4711\n"));
    assert_eq!(
        texts(&steps),
        [
            "kill 4711",
            "try-remove /run/%Sf97b771eaa16a%2Fb.sock",
            "try-remove /run/%Sf97b771eaa16a%2Fb.pid",
            "try-remove /run/_Sf97b771eaa16a_2Fb.net.sock",
            "try-remove /run/_Sf97b771eaa16a_2Fb.net.api.sock",
            "remove /machines/%Sf97b771eaa16a/b.img",
            "forget a/b",
            "forget-sync a/b",
        ]
    );
    let mut reg = Registry::open(Vec::new(), Vec::new());
    let steps = drop_machine(&mut reg, &drop_request("x", true, false), true, Some("no number"));
    assert_eq!(texts(&steps)[0], "try-remove /run/%Sf97b771eaa16x.sock");
    assert_eq!(steps.len(), 5);
}

#[test]
fn a_drop_is_idempotent() {
    let mut reg = Registry::open(Vec::new(), Vec::new());
    let steps = drop_machine(&mut reg, &drop_request("x", false, false), false, None);
    assert_eq!(texts(&steps), ["forget-sync x"]);
    let snaps = vec![
        snapshot("s_1", "x", Some("a"), "own"),
        snapshot("s_2", "y", Some("a"), "other"),
    ];
    let mut reg = Registry::open(vec![machine("x"), machine("y")], snaps);
    drop_machine(&mut reg, &drop_request("x", false, true), false, None);
    let steps = drop_machine(&mut reg, &drop_request("x", false, true), false, None);
    assert_eq!(texts(&steps), ["forget-sync x", "forget-snapshots x"]);
    assert_eq!((reg.machines.len(), reg.snapshots.len()), (1, 1));
}

#[test]
fn shared_content_survives_a_drop_with_snapshots() {
    let snaps = vec![
        snapshot("s_1", "x", Some("a"), "shared"),
        snapshot("s_2", "x", Some("b"), "own"),
        snapshot("s_3", "y", Some("a"), "shared"),
    ];
    let mut reg = Registry::open(vec![machine("x"), machine("y")], snaps);
    let steps = drop_machine(&mut reg, &drop_request("x", false, true), false, None);
    assert_eq!(
        texts(&steps),
        [
            "remove /machines/%Sf97b771eaa16x.img",
            "forget x",
            "forget-sync x",
            "forget-snapshots x",
            "try-remove /snapshots/own",
        ]
    );
    assert_eq!(reg.snapshots.len(), 1);
    assert_eq!(reg.machines.len(), 1);
}

#[test]
fn a_command_runs_after_the_tree_is_synced() {
    let reg = Registry::open(vec![machine("x")], Vec::new());
    let steps = run_in_machine(&reg, "/repo", "x", false, "make").ok().unwrap();
    assert_eq!(texts(&steps), ["boot x", "sync x", "request x make"]);
    let steps = run_in_machine(&reg, "/repo", "x", true, "make").ok().unwrap();
    assert_eq!(texts(&steps), ["sync x", "request x make"]);
    let e = run_in_machine(&reg, "/other", "x", true, "make").err().unwrap();
    assert_eq!(e.run_message(), "no machine 'x' \u{2014} create it with `moo new x`");
    assert_eq!(e.message(), "no machine 'x'");
}

#[test]
fn a_save_settles_a_running_machine() {
    let reg = Registry::open(vec![machine("x")], Vec::new());
    let commands = vec!["checkpoint".to_string(), "flushall".to_string()];
    let steps = prepare_save(&reg, "/repo", "x", true, &commands).ok().unwrap();
    assert_eq!(
        texts(&steps),
        ["prepare x checkpoint", "prepare x flushall", "quiesce x", "flush /machines/%Sf97b771eaa16x.img"]
    );
    let steps = prepare_save(&reg, "/repo", "x", false, &commands).ok().unwrap();
    assert_eq!(texts(&steps), ["flush /machines/%Sf97b771eaa16x.img"]);
    assert!(prepare_save(&reg, "/repo", "y", false, &commands).is_err());
}

fn save_facts(hash: &str) -> SaveFacts {
    SaveFacts {
        head: Some("sha".to_string()),
        snapshots_dir: "/snapshots".to_string(),
        content_hash: hash.to_string(),
        saved_at: 5,
        retry_at: 6,
    }
}

#[test]
fn a_save_is_tagged_with_the_commit() {
    let mut detached = machine("d");
    detached.detached = true;
    let mut reg = Registry::open(vec![machine("x"), detached], Vec::new());
    let o = save_machine(&mut reg, "/repo", "x", &save_facts("0011223344")).ok().unwrap();
    assert!(o.fresh);
    assert_eq!(o.snapshot.head_sha.as_deref(), Some("sha"));
    let o = save_machine(&mut reg, "/repo", "x", &save_facts("0011223344")).ok().unwrap();
    assert!(!o.fresh);
    let o = save_machine(&mut reg, "/repo", "d", &save_facts("0011223344")).ok().unwrap();
    assert_eq!(o.snapshot.head_sha, None);
    assert_eq!(o.snapshot.snapshot_id, "s_00112233_6");
    let o = save_machine(&mut reg, "/repo", "d", &save_facts("0011223344")).ok().unwrap();
    assert!(!o.fresh);
    assert_eq!(o.snapshot.snapshot_id, "s_00112233_6");
    let e = save_machine(&mut reg, "/repo", "z", &save_facts("0011223344")).err().unwrap();
    assert_eq!(e.message(), "no machine 'z'");
}

#[test]
fn a_fresh_save_clones_the_overlay_before_it_is_recorded() {
    let m = machine("x");
    let mut reg = Registry::open(vec![m.clone()], Vec::new());
    let o = save_machine(&mut reg, "/repo", "x", &save_facts("0011223344")).ok().unwrap();
    assert_eq!(
        texts(&keep_steps(&m, &o, false)),
        [
            "copy /machines/%Sf97b771eaa16x.img /snapshots/0011223344",
            "record-snapshot s_00112233"
        ]
    );
    assert_eq!(texts(&keep_steps(&m, &o, true)), ["record-snapshot s_00112233"]);
    let again = save_machine(&mut reg, "/repo", "x", &save_facts("0011223344")).ok().unwrap();
    assert!(keep_steps(&m, &again, true).is_empty());
    assert!(keep_steps(&m, &again, false).is_empty());
}

#[test]
fn saved_state_returns_with_its_commit() {
    let mut reg = Registry::open(vec![machine("x"), machine("y")], Vec::new());
    let at = |sha: &str, hash: &str, saved_at: i64| SaveFacts {
        head: Some(sha.to_string()),
        snapshots_dir: "/snapshots".to_string(),
        content_hash: hash.to_string(),
        saved_at,
        retry_at: saved_at,
    };
    save_machine(&mut reg, "/repo", "x", &at("sha", "aaaaaaaa11", 1)).ok().unwrap();
    save_machine(&mut reg, "/repo", "x", &at("sha", "bbbbbbbb22", 2)).ok().unwrap();
    save_machine(&mut reg, "/repo", "x", &at("next", "cccccccc33", 3)).ok().unwrap();
    save_machine(&mut reg, "/repo", "y", &at("sha", "dddddddd44", 4)).ok().unwrap();
    let (plan, _) = decide(&mut reg, &request("x", None), &quiet);
    let plan = plan.unwrap();
    assert_eq!(plan.outcome.restored_from.unwrap().content_hash, "bbbbbbbb22");
    assert_eq!(texts(&plan.steps)[2], "copy /snapshots/bbbbbbbb22 /machines/%Sf97b771eaa16x.img");
    assert_eq!(texts(&plan.steps)[3..], ["boot x", "forget-sync x", "sync x"]);
    for row in &reg.snapshots {
        assert_eq!(row.snapshot_path, format!("/snapshots/{}", row.content_hash));
    }
}

#[test]
fn a_detached_save_is_found_by_its_id_only() {
    let mut detached = machine("d");
    detached.detached = true;
    let mut reg = Registry::open(vec![detached], Vec::new());
    let o = save_machine(&mut reg, "/repo", "d", &save_facts("0011223344")).ok().unwrap();
    assert_eq!(o.snapshot.snapshot_id, "s_00112233");
    assert!(reg.find_snapshot("/repo", "d", "sha").is_none());
    assert_eq!(reg.get_snapshot_by_id("s_00112233").unwrap().content_hash, "0011223344");
    let (plan, _) = decide(&mut reg, &request("x", Some("s_00112233")), &quiet);
    assert_eq!(texts(&plan.unwrap().steps)[1], "copy /snapshots/0011223344 /machines/%Sf97b771eaa16x.img");
}

#[test]
fn replies_of_the_guest_are_judged() {
    assert_eq!(prepare_reply("x", 0, b"fine"), None);
    assert_eq!(
        prepare_reply("x", 3, b" broken\n").unwrap(),
        "moo: warning: quiesce command failed in 'x' (exit 3): broken"
    );
    assert!(quiesce_reply("x", 0, b"").is_ok());
    assert_eq!(quiesce_reply("x", 1, b"no\n").unwrap_err(), "could not quiesce machine 'x': no\n");
    assert!(fork_quiesce_reply("x", 0).is_ok());
    assert_eq!(fork_quiesce_reply("x", 9).unwrap_err(), "could not quiesce machine 'x'");
}

#[test]
fn the_listing_shows_machines_and_snapshots() {
    let snaps = vec![snapshot("s_1", "y", None, "h")];
    let mut early = machine("y");
    early.created_at = 0;
    let reg = Registry::open(vec![machine("x"), early], snaps);
    let rows = list(&reg, &|root: &str, h: &str| root == "/repo" && h == "x");
    assert_eq!(rows.len(), 2);
    assert_eq!(rows[0].machine.handle, "y");
    assert!(!rows[0].running && rows[1].running);
    assert_eq!(rows[0].snapshots.len(), 1);
    assert!(rows[1].snapshots.is_empty());
}
