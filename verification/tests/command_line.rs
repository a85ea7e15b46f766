use moo::cli::{
    dispatch, doctor_report, drop_report, host_checks, ls_lines, machine_name, names_entitlement,
    new_report, not_running_note, open_url, parse_drop, parse_new, parse_open, parse_run,
    parse_shim, run_note, save_report, HostFacts, Shown, Verb,
};
use moo::lifecycle::{LsRow, NewOutcome, SaveOutcome};
use moo::shell::{command_line, shell_quote};
use moo::store::{Machine, Snapshot};
use moo::sync::SyncOutcome;

fn words(list: &[&str]) -> Vec<String> {
    list.iter().map(|s| s.to_string()).collect()
}

fn snapshot(sha: Option<&str>) -> Snapshot {
    Snapshot {
        snapshot_id: "s_1".to_string(),
        handle: "x".to_string(),
        project_root: String::new(),
        head_sha: sha.map(str::to_string),
        snapshot_path: "/s/h".to_string(),
        content_hash: "h".to_string(),
        saved_at: 1,
    }
}

fn lines(shown: &[Shown]) -> Vec<String> {
    shown
        .iter()
        .map(|s| match s {
            Shown::Out(t) => format!("out {}", t),
            Shown::Note(t) => format!("note {}", t),
        })
        .collect()
}

#[test]
fn verbs_are_told_apart() {
    for (word, verb) in [
        ("new", Verb::New),
        ("run", Verb::Run),
        ("save", Verb::Save),
        ("drop", Verb::Drop),
        ("ls", Verb::Ls),
        ("open", Verb::Open),
        ("doctor", Verb::Doctor),
        ("__shim", Verb::Shim),
        ("help", Verb::Usage),
    ] {
        assert!(dispatch(&words(&[word, "x"])) == verb, "{}", word);
    }
    assert!(dispatch(&[]) == Verb::Usage);
}

#[test]
fn new_takes_a_name_a_source_and_a_flag() {
    let a = parse_new(&words(&["--detached", "x", "from", "HEAD"])).ok().unwrap();
    assert_eq!(a.name.as_deref(), Some("x"));
    assert_eq!(a.from.as_deref(), Some("HEAD"));
    assert!(a.detached);
    assert_eq!(
        parse_new(&words(&["x", "from"])).err().unwrap(),
        "'from' needs a source (ref, commit, snapshot, or machine)"
    );
    assert_eq!(parse_new(&words(&["x", "y"])).err().unwrap(), "unexpected argument 'y'");
    let a = parse_new(&words(&["from", "from", "x"])).ok().unwrap();
    assert_eq!(a.from.as_deref(), Some("from"));
}

#[test]
fn a_detached_machine_gets_a_name() {
    let a = parse_new(&words(&["--detached"])).ok().unwrap();
    let n = 1234u64 * 2654435761 % 0xFFFF_FFFF;
    assert_eq!(machine_name(&a, 1234).unwrap(), format!("m_{:08x}", n));
    assert_eq!(machine_name(&a, 0).unwrap(), "m_00000000");
    let a = parse_new(&[]).ok().unwrap();
    assert_eq!(machine_name(&a, 1234), None);
    let a = parse_new(&words(&["x"])).ok().unwrap();
    assert_eq!(machine_name(&a, 1234).unwrap(), "x");
}

#[test]
fn new_is_reported() {
    let mut o = NewOutcome {
        handle: "x".to_string(),
        restored_from: Some(snapshot(Some("0123456789abcdef"))),
        created: false,
        synced: Some(SyncOutcome { files: 2, bytes: 10, workdir: "/srv/app".to_string() }),
    };
    assert_eq!(
        lines(&new_report(&o, "0.1")),
        [
            "out machine 'x' restored from snapshot s_1 (commit 0123456789ab)",
            "note note: the previous live state of 'x' was replaced; `moo save` before \
             switching commits to keep it",
            "out working tree synced: 2 files (0.1 MB) at /srv/app",
        ]
    );
    o.restored_from = Some(snapshot(None));
    o.created = true;
    o.synced = None;
    assert_eq!(
        lines(&new_report(&o, "")),
        ["out machine 'x' restored from snapshot s_1 (commit (detached))"]
    );
    o.restored_from = None;
    assert_eq!(lines(&new_report(&o, "")), ["out machine 'x' created"]);
    o.created = false;
    assert_eq!(lines(&new_report(&o, "")), ["out machine 'x' ready"]);
}

#[test]
fn run_takes_a_command_behind_dashes() {
    let (name, cmd) = parse_run(&words(&["x", "--", "echo", "a b", "--"])).ok().unwrap();
    assert_eq!((name.as_str(), cmd.as_str()), ("x", "echo 'a b' --"));
    let (_, cmd) = parse_run(&words(&["x", "--", "echo a && echo b"])).ok().unwrap();
    assert_eq!(cmd, "echo a && echo b");
    let usage = "usage: moo run <name> -- <cmd> [args...]";
    assert_eq!(parse_run(&[]).err().unwrap(), usage);
    assert_eq!(parse_run(&words(&["x", "ls"])).err().unwrap(), usage);
    assert_eq!(parse_run(&words(&["x", "--"])).err().unwrap(), "no command given after --");
    let (name, _) = parse_run(&words(&["--", "ls"])).ok().unwrap();
    assert_eq!(name, "--");
    let s = SyncOutcome { files: 4, bytes: 1, workdir: "/w".to_string() };
    assert_eq!(run_note(&s, "1.5"), "moo: synced 4 files (1.5 MB) to /w");
}

#[test]
fn words_are_quoted_for_the_shell() {
    assert_eq!(shell_quote("a-b_c./:=,@+%9"), "a-b_c./:=,@+%9");
    assert_eq!(shell_quote(""), "''");
    assert_eq!(shell_quote("a b"), "'a b'");
    assert_eq!(shell_quote("it's"), "'it'\\''s'");
    assert_eq!(shell_quote("$HOME"), "'$HOME'");
    assert_eq!(command_line(&words(&["a", "b c"])), "a 'b c'");
    assert_eq!(command_line(&words(&["b c"])), "b c");
}

#[test]
fn saves_are_reported() {
    let mut o = SaveOutcome { snapshot: snapshot(Some("0123456789abcdef")), fresh: true };
    assert_eq!(save_report("x", &o), "saved 'x' as s_1 (commit 0123456789ab)");
    o.fresh = false;
    o.snapshot.head_sha = None;
    assert_eq!(save_report("x", &o), "'x' unchanged since s_1 (commit (no commit))");
}

#[test]
fn drop_takes_a_name_and_flags() {
    let a = parse_drop(&words(&["--force", "x", "--snapshots"])).ok().unwrap();
    assert_eq!((a.name.as_str(), a.force, a.snapshots), ("x", true, true));
    assert_eq!(
        parse_drop(&words(&["--force"])).err().unwrap(),
        "usage: moo drop <name> [--force] [--snapshots]"
    );
    assert_eq!(parse_drop(&words(&["x", "y"])).err().unwrap(), "unexpected argument 'y'");
    assert_eq!(drop_report("x", false), "machine 'x' dropped");
    assert_eq!(drop_report("x", true), "machine 'x' dropped (snapshots too)");
}

#[test]
fn machines_are_listed_in_columns() {
    assert_eq!(ls_lines(&[]), ["no machines"]);
    let machine = Machine {
        handle: "feat/x".to_string(),
        base_commit: Some("0123456789abcdef".to_string()),
        recipe_hash: String::new(),
        parent_machine: None,
        base_image_path: String::new(),
        overlay_path: String::new(),
        lifecycle: "sealed".to_string(),
        detached: false,
        created_at: 0,
        cpus: 1,
        ram_mib: 1,
        port_map: "20001:80,20002:81".to_string(),
        project_root: String::new(),
    };
    let mut rows = vec![LsRow {
        machine: machine.clone(),
        running: false,
        snapshots: vec![snapshot(None)],
    }];
    let shown = ls_lines(&rows);
    assert_eq!(
        shown[0],
        format!(
            "{:<24} {:<8} {:<14} {:<22} snapshots",
            "HANDLE", "STATE", "BASE COMMIT", "PORTS (host->guest)"
        )
    );
    assert_eq!(
        shown[1],
        format!(
            "{:<24} {:<8} {:<14} {:<22} {}",
            "feat/x", "sealed", "0123456789ab", "20001->80 20002->81", 1
        )
    );
    assert_eq!(shown[2], "  s_1 @ (no commit)");
    rows[0].running = true;
    rows[0].machine.port_map = String::new();
    rows[0].machine.base_commit = None;
    let shown = ls_lines(&rows);
    assert_eq!(
        shown[1],
        format!("{:<24} {:<8} {:<14} {:<22} {}", "feat/x", "running", "-", "(none)", 1)
    );
}

#[test]
fn open_takes_a_port_and_a_path() {
    let a = parse_open(&words(&["x", "/p", "6901"])).ok().unwrap();
    assert_eq!(a.name.as_deref(), Some("x"));
    assert_eq!((a.guest, a.path.as_deref()), (Some(6901), Some("/p")));
    let a = parse_open(&words(&["x"])).ok().unwrap();
    assert_eq!(open_url(20001, &a.path), "http://localhost:20001/");
    assert_eq!(open_url(1, &Some("/q".to_string())), "http://localhost:1/q");
    assert_eq!(
        parse_open(&words(&["x", "port"])).err().unwrap(),
        "'port' is not a guest port number"
    );
    assert_eq!(
        parse_open(&words(&["x", "70000"])).err().unwrap(),
        "'70000' is not a guest port number"
    );
    assert_eq!(parse_open(&words(&["x", "/a", "/b"])).err().unwrap(), "unexpected argument '/b'");
    assert_eq!(parse_open(&words(&["x", "1", "2"])).err().unwrap(), "unexpected argument '2'");
    assert_eq!(
        parse_open(&[]).err().unwrap(),
        "usage: moo open <name> [guest-port] [/path]"
    );
    assert_eq!(
        not_running_note("x"),
        "note: machine 'x' is not running \u{2014} nothing answers yet; `moo run x -- true` boots it"
    );
}

#[test]
fn the_doctor_reports_what_fails() {
    let mut facts =
        HostFacts { firmware: true, network: true, clones: true, tools: true, signed: true };
    let (shown, code) = doctor_report(&host_checks(&facts));
    assert_eq!((shown.len(), code), (5, 0));
    assert_eq!(shown[0], "ok  machine firmware installed");
    facts.tools = false;
    let (shown, code) = doctor_report(&host_checks(&facts));
    assert_eq!((shown.len(), code), (6, 1));
    assert_eq!(shown[3], "FAIL filesystem tools installed");
    assert_eq!(shown[4], "     install with: brew install e2fsprogs");
    assert_eq!(doctor_report(&[]).1, 0);
    assert!(names_entitlement(b"x com.apple.security.hypervisor", b""));
    assert!(names_entitlement(b"", b"hypervisor"));
    assert!(!names_entitlement(b"hyper", b"visor"));
}

#[test]
fn a_supervisor_is_started_for_one_machine() {
    assert_eq!(parse_shim(&words(&["x"])).as_deref(), Some("x"));
    assert_eq!(parse_shim(&[]), None);
    assert_eq!(parse_shim(&words(&["x", "y"])), None);
}
