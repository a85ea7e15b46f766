use moo::archive::{complain, decode, read, size_in, walk, ArchiveEntry, PaxRecord, Walk};
use moo::guest::{
    agent_mode, boot_script_report, check_target, find_serial_port, manifest_body, plan_tree, prune,
    runs_at_boot, shell_failure, shell_reply, sync_message, sync_tree, tree_reply, Mode, PortEntry,
    TreeError, TreeStep,
};
use moo::store::Machine;
use moo::sync::{
    checked_payload, fingerprint, needs_push, pack, receives_tree, sync_into, sync_reply,
    sync_state_path, worktree_files, FileStamp, PackError,
};

fn archive(names: &[(&str, &[u8])]) -> Vec<u8> {
    let mut tar = tar::Builder::new(Vec::new());
    for (name, content) in names {
        let mut header = tar::Header::new_gnu();
        if name.ends_with('/') {
            header.set_entry_type(tar::EntryType::Directory);
        }
        header.set_size(content.len() as u64);
        header.set_mode(0o644);
        header.set_cksum();
        tar.append_data(&mut header, name, *content).unwrap();
    }
    tar.into_inner().unwrap()
}

fn entry(path: &str, size: u64, directory: bool) -> ArchiveEntry {
    ArchiveEntry { path: path.to_string(), size, directory }
}

fn stamp(path: &str, size: u64, mtime: u128) -> FileStamp {
    FileStamp { path: path.to_string(), size_and_mtime: Some((size, mtime)) }
}

#[test]
fn the_working_tree_is_listed() {
    assert_eq!(worktree_files(b"a.rs\0dir/b c\0\0d\0"), ["a.rs", "dir/b c", "d"]);
    assert!(worktree_files(b"").is_empty());
    assert_eq!(worktree_files(b"x\xff\0"), ["x\u{fffd}"]);
}

#[test]
fn a_fingerprint_covers_paths_sizes_and_times() {
    let files = [stamp("a", 1, 2), FileStamp { path: "gone".to_string(), size_and_mtime: None }];
    let mut input = b"a\0".to_vec();
    input.extend_from_slice(&1u64.to_le_bytes());
    input.extend_from_slice(&2u128.to_le_bytes());
    input.extend_from_slice(b"gone\0");
    assert_eq!(fingerprint(&files), blake3::hash(&input).to_hex().to_string());
    assert_eq!(fingerprint(&[]).len(), 64);
    assert_eq!(fingerprint(&[stamp("a", 1, 2)]), fingerprint(&[stamp("a", 1, 2)]));
    assert_ne!(fingerprint(&[stamp("a", 1, 2)]), fingerprint(&[stamp("a", 1, 3)]));
    assert_ne!(fingerprint(&[stamp("a", 1, 2)]), fingerprint(&[stamp("b", 1, 2)]));
}

#[test]
fn an_unchanged_tree_is_not_pushed() {
    assert!(!needs_push(Some("f"), "f"));
    assert!(needs_push(Some("g"), "f"));
    assert!(needs_push(None, "f"));
    assert_eq!(sync_state_path("/run", "", "a/b"), "/run/a%2Fb.syncstate");
    assert_ne!(sync_state_path("/run", "/a", "m"), sync_state_path("/run", "/b", "m"));
}

#[test]
fn a_machine_receives_the_tree_of_its_repository() {
    let mut m = Machine {
        handle: "x".to_string(),
        base_commit: None,
        recipe_hash: String::new(),
        parent_machine: None,
        base_image_path: String::new(),
        overlay_path: String::new(),
        lifecycle: "live".to_string(),
        detached: false,
        created_at: 0,
        cpus: 1,
        ram_mib: 1,
        port_map: String::new(),
        project_root: "/repo".to_string(),
    };
    assert!(receives_tree(&m, Some("/repo")));
    assert!(receives_tree(&m, Some("/repo/")));
    assert!(!receives_tree(&m, Some("/other")));
    assert!(!receives_tree(&m, None));
    let files = [stamp("a", 1, 2)];
    let print = sync_into(&m, Some("/repo"), &files, None).unwrap();
    assert_eq!(print, fingerprint(&files));
    assert_eq!(sync_into(&m, Some("/repo"), &files, Some(&print)), None);
    assert_eq!(sync_into(&m, Some("/other"), &files, None), None);
    m.project_root = String::new();
    assert!(!receives_tree(&m, Some("")));
}

#[test]
fn a_packed_archive_is_gzip() {
    let tar = archive(&[("a.txt", b"hello")]);
    let gz = pack(&tar).ok().unwrap();
    assert_ne!(gz, tar);
    let mut out = Vec::new();
    std::io::Read::read_to_end(&mut flate2::read::GzDecoder::new(&gz[..]), &mut out).unwrap();
    assert_eq!(out, tar);
}

#[test]
fn payloads_are_limited() {
    assert!(checked_payload(Some(vec![1, 2])).ok() == Some(vec![1, 2]));
    assert!(checked_payload(None).err() == Some(PackError::Compression));
    let large = vec![0u8; 536870913];
    assert!(checked_payload(Some(large)).err() == Some(PackError::TooLarge(536870913)));
}

#[test]
fn a_rejected_tree_is_an_error() {
    let ok = sync_reply("x", 0, b"synced", 3, 100, "/srv/app").ok().unwrap();
    assert_eq!((ok.files, ok.bytes, ok.workdir.as_str()), (3, 100, "/srv/app"));
    assert_eq!(
        sync_reply("x", 1, b" no space\n", 3, 100, "/srv/app").err().unwrap(),
        "machine 'x' could not install the working tree: no space (machines created before \
         working-tree sync need `moo drop x` and `moo new x`)"
    );
}

#[test]
fn an_archive_is_installed_and_stale_files_are_removed() {
    let gz = pack(&archive(&[("src/", b""), ("src/a.rs", b"12345"), ("b", b"1")])).ok().unwrap();
    let sync = sync_tree("/srv/app", Some("b\nold/x\nold/y"), &gz).ok().unwrap();
    assert_eq!(pack(&sync.archive).ok().unwrap(), gz);
    let plan = sync.plan;
    assert_eq!(plan.installed.items, ["b", "src/a.rs"]);
    assert_eq!(plan.stale, ["old/x", "old/y"]);
    assert_eq!(plan.removals, ["/srv/app/old/x", "/srv/app/old/y"]);
    assert_eq!(plan.bytes, 6);
    assert_eq!(manifest_body(&plan.installed), "b\nsrc/a.rs");
}

#[test]
fn a_file_that_became_a_directory_goes_before_the_archive_is_unpacked() {
    let gz = pack(&archive(&[("a/b", b"2")])).ok().unwrap();
    let plan = sync_tree("/srv/app", Some("a"), &gz).ok().unwrap().plan;
    assert_eq!(plan.steps.len(), 4);
    assert!(matches!(&plan.steps[0], TreeStep::Remove(p) if p == "/srv/app/a"));
    assert!(matches!(&plan.steps[1], TreeStep::Prune));
    assert!(matches!(&plan.steps[2], TreeStep::Unpack));
    assert!(matches!(&plan.steps[3], TreeStep::Record(body) if body == "a/b"));
}

/// A GNU header of a sparse file whose map goes on, with this size.
fn sparse_header(size: u64) -> Vec<u8> {
    let mut header = tar::Header::new_gnu();
    header.set_path("holes").unwrap();
    header.set_entry_type(tar::EntryType::GNUSparse);
    header.set_size(size);
    header.as_gnu_mut().unwrap().isextended[0] = 1;
    header.set_cksum();
    header.as_bytes().to_vec()
}

/// An extended header with this record, for the next entry.
fn extended(record: &[u8]) -> Vec<u8> {
    let mut header = tar::Header::new_ustar();
    header.set_path("records").unwrap();
    header.set_entry_type(tar::EntryType::XHeader);
    header.set_size(record.len() as u64);
    header.set_cksum();
    let mut block = record.to_vec();
    block.resize(512, 0);
    [header.as_bytes().to_vec(), block].concat()
}

fn digits(field: &mut [u8; 12], text: &[u8; 11]) {
    field[..11].copy_from_slice(text);
}

/// A sparse file of one block, whose map goes on in a block of its own.
fn sparse_file() -> Vec<u8> {
    let mut header = tar::Header::new_gnu();
    header.set_path("holes").unwrap();
    header.set_entry_type(tar::EntryType::GNUSparse);
    header.set_size(512);
    header.set_mode(0o644);
    let gnu = header.as_gnu_mut().unwrap();
    gnu.isextended[0] = 1;
    digits(&mut gnu.realsize, b"00000001000");
    digits(&mut gnu.sparse[0].offset, b"00000000000");
    digits(&mut gnu.sparse[0].numbytes, b"00000001000");
    header.set_cksum();
    [header.as_bytes().to_vec(), vec![0u8; 512], vec![7u8; 512]].concat()
}

#[test]
fn archives_that_leave_64_bits_are_refused() {
    let huge = [sparse_header(u64::MAX - 1023), vec![0u8; 1024]].concat();
    assert!(walk(&huge) == Walk::Overflows);
    let e = sync_tree("/srv/app", None, &pack(&huge).ok().unwrap()).err().unwrap();
    assert_eq!(e.message(), "read entry: size overflow");
    let small = [sparse_header(512), vec![0u8; 1024]].concat();
    assert!(walk(&small) == Walk::RunsOut);
    let e = sync_tree("/srv/app", None, &pack(&small).ok().unwrap()).err().unwrap();
    assert!(e.message().starts_with("read entry: "));
    assert_ne!(e.message(), "read entry: size overflow");
    let recorded = [extended(b"29 size=18446744073709550592\n"), sparse_header(512)].concat();
    assert!(walk(&recorded) == Walk::Overflows);
    let malformed = [extended(b"30 size=18446744073709550592\n"), sparse_header(512)].concat();
    assert!(walk(&malformed) == Walk::RunsOut);
    assert!(walk(b"") == Walk::RunsOut);
    assert!(walk(&[0; 512]) == Walk::Ends);
}

#[test]
fn what_looks_like_a_header_in_a_file_is_not_one() {
    let nested = [sparse_header(u64::MAX - 1023), vec![0u8; 1024]].concat();
    let names: [(&str, &[u8]); 2] = [("inner.tar", &nested), ("n", b"29 size=18446744073709550592\n")];
    let tar = [sparse_file(), archive(&names)].concat();
    assert!(walk(&tar) == Walk::Ends);
    let plan = sync_tree("/srv/app", None, &pack(&tar).ok().unwrap()).ok().unwrap().plan;
    assert_eq!(plan.installed.items, ["holes", "inner.tar", "n"]);
    assert_eq!(plan.bytes, 512 + 1536 + 29);
    let long = "d/".repeat(80) + "x";
    let tar = [archive(&[(&*long, b"1")])[..2048].to_vec(), sparse_file(), vec![0u8; 1024]].concat();
    assert!(walk(&tar) == Walk::Ends);
    assert_eq!(read(&pack(&tar).ok().unwrap()).ok().unwrap().entries.len(), 2);
}

#[test]
fn records_give_the_size_of_the_next_entry() {
    let mut header = tar::Header::new_gnu();
    header.set_path("f").unwrap();
    header.set_size(0);
    header.set_mode(0o644);
    header.set_cksum();
    let file = [header.as_bytes().to_vec(), vec![1u8; 512], vec![0u8; 1024]].concat();
    let tar = [extended(b"12 size=512\n"), file.clone()].concat();
    assert!(walk(&tar) == Walk::Ends);
    let listed = read(&pack(&tar).ok().unwrap()).ok().unwrap();
    assert_eq!((listed.entries.len(), listed.entries[0].size), (1, 512));
    let record = |key: &[u8], value: &[u8]| PaxRecord { key: key.to_vec(), value: value.to_vec() };
    assert_eq!(size_in(&[]), None);
    assert_eq!(size_in(&[record(b"path", b"9"), record(b"size", b"12"), record(b"size", b"1")]), Some(12));
    assert_eq!(size_in(&[record(b"size", b"18446744073709551615")]), Some(u64::MAX));
    assert_eq!(size_in(&[record(b"size", b"18446744073709551616")]), None);
    assert_eq!(size_in(&[record(b"size", b"\xff"), record(b"size", b"1")]), None);
}

#[test]
fn damage_behind_the_end_of_an_archive_does_no_harm() {
    let tar = archive(&[("a", &[7; 5000])]);
    let gz = pack(&tar).ok().unwrap();
    assert!(decode(&gz) == (tar.clone(), None));
    let mut wrong = gz.clone();
    let n = wrong.len();
    wrong[n - 6] ^= 1;
    let (bytes, damage) = decode(&wrong);
    assert_eq!(bytes, tar);
    assert!(damage.is_some());
    let sync = sync_tree("/srv/app", None, &wrong).ok().unwrap();
    assert_eq!(sync.plan.installed.items, ["a"]);
    assert_eq!(sync.archive, tar);
    assert!(sync_tree("/srv/app", None, &gz[..n - 4]).is_ok());
    // Without the blocks that end it, an archive ends where its bytes do, and
    // damage there is noticed.
    let open = pack(&tar[..tar.len() - 1024]).ok().unwrap();
    assert!(sync_tree("/srv/app", None, &open).is_ok());
    let mut wrong = open.clone();
    let n = wrong.len();
    wrong[n - 6] ^= 1;
    let damage = decode(&wrong).1.unwrap();
    let e = sync_tree("/srv/app", None, &wrong).err().unwrap();
    assert_eq!(e.message(), format!("read entry: {}", damage));
}

#[test]
fn what_is_wrong_with_an_archive_is_told() {
    let why = |s: &str| Some(s.to_string());
    assert_eq!(complain(Walk::Ends, None, None), None);
    assert_eq!(complain(Walk::Ends, why("d"), None), None);
    assert_eq!(complain(Walk::Ends, why("d"), why("l")), why("l"));
    assert_eq!(complain(Walk::RunsOut, None, None), None);
    assert_eq!(complain(Walk::RunsOut, None, why("l")), why("l"));
    assert_eq!(complain(Walk::RunsOut, why("d"), why("l")), why("d"));
    assert_eq!(complain(Walk::Overflows, why("d"), why("l")), why("size overflow"));
}

#[test]
fn what_is_recorded_is_read_by_the_next_sync() {
    let first = plan_tree("/t", None, &[entry("b", 1, false), entry("a", 1, false)]);
    assert!(first.stale.is_empty());
    let body = manifest_body(&first.installed);
    let second = plan_tree("/t", Some(&body), &[entry("b", 1, false)]);
    assert_eq!(second.stale, ["a"]);
    let third = plan_tree("/t", Some(&body), &[]);
    assert_eq!(third.stale, ["a", "b"]);
    assert_eq!(manifest_body(&third.installed), "");
}

#[test]
fn files_of_the_guest_are_never_removed() {
    let plan = plan_tree("/t", Some("a"), &[entry("dir/", 0, true), entry("c//", 5, false)]);
    assert_eq!(plan.removals, ["/t/a"]);
    assert_eq!(plan.installed.items, ["c"]);
    assert!(plan_tree("/t", None, &[]).removals.is_empty());
}

#[test]
fn broken_archives_and_targets_are_refused() {
    match sync_tree("srv/app", None, b"").err().unwrap() {
        TreeError::Relative(t) => assert_eq!(t, "srv/app"),
        TreeError::Unreadable(_) => panic!("the target comes first"),
    }
    let e = sync_tree("/srv/app", None, b"not gzip at all").err().unwrap();
    assert!(e.message().starts_with("read entry: "));
    assert_eq!(
        check_target("").err().unwrap().message(),
        "sync target must be absolute: "
    );
    assert!(check_target("/").is_ok());
    let mut gz = pack(&archive(&[("a", &[7; 5000])])).ok().unwrap();
    gz.truncate(20);
    assert!(sync_tree("/srv/app", None, &gz).is_err());
}

#[test]
fn emptied_directories_are_tried_deepest_first() {
    let removed = vec![
        "/t/a/x".to_string(),
        "/t/a/b/y".to_string(),
        "/t/z".to_string(),
        "/t/a/b/z".to_string(),
        "/elsewhere/q".to_string(),
    ];
    let chains: Vec<Vec<String>> = prune("/t", &removed)
        .iter()
        .map(|c| c.dirs.iter().map(|d| String::from_utf8(d.written()).unwrap()).collect())
        .collect();
    assert_eq!(
        chains,
        vec![
            vec!["/t/a/b".to_string(), "/t/a".to_string()],
            vec!["/t/a".to_string()],
            vec![],
            vec![],
        ]
    );
}

#[test]
fn the_order_of_directories_is_that_of_paths() {
    let dirs = ["/t/a-b", "/t/a/b", "/t/a", "/t/../u", "/t/!"];
    let removed: Vec<String> = dirs.iter().map(|d| format!("{}/f", d)).collect();
    let mut expected: Vec<std::path::PathBuf> =
        dirs.iter().map(std::path::PathBuf::from).collect();
    expected.sort();
    expected.reverse();
    let order: Vec<std::path::PathBuf> = prune("/t", &removed)
        .iter()
        .map(|c| std::path::PathBuf::from(String::from_utf8(c.dirs[0].written()).unwrap()))
        .collect();
    assert_eq!(order, expected);
}

#[test]
fn the_sync_is_reported() {
    assert_eq!(sync_message(12, "3.4", "/srv/app"), "synced 12 files (3.4 MB) to /srv/app");
    assert_eq!(tree_reply(&Ok("done".to_string())), (0, b"done".to_vec()));
    assert_eq!(tree_reply(&Err("why".to_string())), (1, b"why".to_vec()));
}

#[test]
fn exit_codes_fit_in_a_byte() {
    assert_eq!(shell_reply(Some(7), b"out\n", b"err\n"), (7, b"out\nerr\n".to_vec()));
    assert_eq!(shell_reply(Some(256), b"", b"").0, 255);
    assert_eq!(shell_reply(Some(0), b"", b"").0, 0);
    assert_eq!(shell_reply(Some(-1), b"", b"").0, 255);
    assert_eq!(shell_reply(None, b"killed", b""), (255, b"killed".to_vec()));
    assert_eq!(shell_failure("no shell"), (127, b"no shell".to_vec()));
}

#[test]
fn the_serial_port_is_found_by_its_name() {
    let port = |name: &str, device: &str| PortEntry {
        name: name.to_string(),
        device: device.to_string(),
    };
    let ports = [port("console\n", "vport0p1"), port("moo-exec\n", "vport1p1")];
    assert_eq!(find_serial_port(&ports).as_deref(), Some("/dev/vport1p1"));
    assert_eq!(find_serial_port(&ports[..1]), None);
}

#[test]
fn the_mode_of_the_agent_is_chosen() {
    assert!(agent_mode(None) == Some(Mode::Vsock));
    assert!(agent_mode(Some("--vsock")) == Some(Mode::Vsock));
    assert!(agent_mode(Some("--serial")) == Some(Mode::Serial));
    assert!(agent_mode(Some("serial")).is_none());
}

#[test]
fn the_boot_script_runs_if_it_is_executable() {
    assert!(runs_at_boot(true, 0o100755));
    assert!(runs_at_boot(true, 0o001));
    assert!(!runs_at_boot(true, 0o644));
    assert!(!runs_at_boot(false, 0o755));
    assert_eq!(boot_script_report(true, Some(0), b""), None);
    assert_eq!(
        boot_script_report(false, Some(3), b" bad \n").unwrap(),
        "moo-agent: rc.local exited 3: bad"
    );
    assert_eq!(
        boot_script_report(false, None, b"").unwrap(),
        "moo-agent: rc.local exited -1: "
    );
}
