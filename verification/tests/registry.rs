use moo::store::{machines_scoped, save_snapshot, Column, Machine, Registry, Snapshot, StoreError};

fn machine(root: &str, handle: &str, created_at: i64) -> Machine {
    Machine {
        handle: handle.to_string(),
        base_commit: None,
        recipe_hash: "r".to_string(),
        parent_machine: None,
        base_image_path: "/images/r.img".to_string(),
        overlay_path: format!("/machines/{}.img", handle),
        lifecycle: "live".to_string(),
        detached: false,
        created_at,
        cpus: 2,
        ram_mib: 4096,
        port_map: String::new(),
        project_root: root.to_string(),
    }
}

fn snapshot(id: &str, root: &str, handle: &str, sha: Option<&str>, hash: &str, at: i64) -> Snapshot {
    Snapshot {
        snapshot_id: id.to_string(),
        handle: handle.to_string(),
        project_root: root.to_string(),
        head_sha: sha.map(str::to_string),
        snapshot_path: format!("/snapshots/{}", hash),
        content_hash: hash.to_string(),
        saved_at: at,
    }
}

fn empty() -> Registry {
    Registry::open(Vec::new(), Vec::new())
}

const HASH: &str = "0123456789abcdef";

#[test]
fn machines_are_kept_apart_by_repository() {
    let mut reg = empty();
    assert!(reg.insert_machine(&machine("/a", "main", 1)).is_ok());
    assert!(reg.insert_machine(&machine("/b", "main", 2)).is_ok());
    assert_eq!(
        reg.insert_machine(&machine("/a", "main", 3)),
        Err(StoreError::DuplicateMachine)
    );
    assert_eq!(reg.get_machine("/a", "main").unwrap().created_at, 1);
    assert_eq!(reg.get_machine("/b", "main").unwrap().created_at, 2);
    assert!(reg.get_machine("", "main").is_none());
    assert_eq!(reg.machines.len(), 2);
}

#[test]
fn machines_are_listed_by_creation() {
    let mut reg = empty();
    for (h, t) in [("c", 30), ("a", 10), ("d", 30), ("b", 20)] {
        reg.insert_machine(&machine("", h, t)).unwrap();
    }
    let order: Vec<String> = reg.list_machines().into_iter().map(|m| m.handle).collect();
    assert_eq!(order, ["a", "b", "c", "d"]);
}

#[test]
fn a_removed_machine_is_gone_and_others_stay() {
    let mut reg = empty();
    reg.insert_machine(&machine("/a", "x", 1)).unwrap();
    reg.insert_machine(&machine("/a", "y", 2)).unwrap();
    reg.insert_snapshot(&snapshot("s_1", "/a", "x", Some("sha"), HASH, 1)).unwrap();
    reg.remove_machine("/a", "x");
    assert!(reg.get_machine("/a", "x").is_none());
    assert!(reg.get_machine("/a", "y").is_some());
    assert_eq!(reg.snapshots.len(), 1);
    reg.remove_machine("/a", "x");
    assert_eq!(reg.machines.len(), 1);
}

#[test]
fn lifecycle_changes_one_machine() {
    let mut reg = empty();
    reg.insert_machine(&machine("/a", "x", 1)).unwrap();
    reg.insert_machine(&machine("/b", "x", 2)).unwrap();
    reg.set_lifecycle("/a", "x", "sealed");
    assert_eq!(reg.get_machine("/a", "x").unwrap().lifecycle, "sealed");
    assert_eq!(reg.get_machine("/b", "x").unwrap().lifecycle, "live");
    assert_eq!(reg.get_machine("/a", "x").unwrap().created_at, 1);
}

#[test]
fn the_latest_snapshot_for_a_commit_is_found() {
    let mut reg = empty();
    reg.insert_snapshot(&snapshot("s_1", "/a", "x", Some("sha1"), "h1", 5)).unwrap();
    reg.insert_snapshot(&snapshot("s_2", "/a", "x", Some("sha1"), "h2", 9)).unwrap();
    reg.insert_snapshot(&snapshot("s_3", "/a", "x", Some("sha1"), "h3", 7)).unwrap();
    reg.insert_snapshot(&snapshot("s_4", "/a", "x", Some("sha2"), "h4", 99)).unwrap();
    reg.insert_snapshot(&snapshot("s_5", "/a", "x", None, "h5", 99)).unwrap();
    reg.insert_snapshot(&snapshot("s_6", "/b", "x", Some("sha1"), "h6", 99)).unwrap();
    assert_eq!(reg.find_snapshot("/a", "x", "sha1").unwrap().snapshot_id, "s_2");
    assert_eq!(reg.find_snapshot("/b", "x", "sha1").unwrap().snapshot_id, "s_6");
    assert!(reg.find_snapshot("/a", "y", "sha1").is_none());
    assert!(reg.find_snapshot("/a", "x", "sha3").is_none());
    assert_eq!(reg.get_snapshot_by_id("s_3").unwrap().content_hash, "h3");
    assert!(reg.get_snapshot_by_id("s_7").is_none());
}

#[test]
fn snapshots_of_a_machine_are_listed_by_time() {
    let mut reg = empty();
    reg.insert_snapshot(&snapshot("s_1", "", "x", None, "h1", 5)).unwrap();
    reg.insert_snapshot(&snapshot("s_2", "", "y", None, "h2", 1)).unwrap();
    reg.insert_snapshot(&snapshot("s_3", "", "x", None, "h3", 2)).unwrap();
    let ids: Vec<String> =
        reg.list_snapshots("", "x").into_iter().map(|s| s.snapshot_id).collect();
    assert_eq!(ids, ["s_3", "s_1"]);
}

#[test]
fn removed_snapshots_are_handed_back() {
    let mut reg = empty();
    reg.insert_snapshot(&snapshot("s_1", "", "x", None, "h1", 5)).unwrap();
    reg.insert_snapshot(&snapshot("s_2", "", "y", None, "h1", 1)).unwrap();
    reg.insert_snapshot(&snapshot("s_3", "", "x", None, "h3", 2)).unwrap();
    assert!(reg.snapshot_content_referenced("h3"));
    let ids: Vec<String> =
        reg.remove_snapshots("", "x").into_iter().map(|s| s.snapshot_id).collect();
    assert_eq!(ids, ["s_3", "s_1"]);
    assert_eq!(reg.snapshots.len(), 1);
    assert!(reg.snapshot_content_referenced("h1"));
    assert!(!reg.snapshot_content_referenced("h3"));
}

#[test]
fn snapshot_ids_are_unique() {
    let mut reg = empty();
    reg.insert_snapshot(&snapshot("s_1", "", "x", None, "h1", 5)).unwrap();
    assert_eq!(
        reg.insert_snapshot(&snapshot("s_1", "", "y", None, "h2", 6)),
        Err(StoreError::DuplicateSnapshot)
    );
    assert_eq!(reg.snapshots.len(), 1);
}

#[test]
fn opening_settles_the_project_of_old_snapshots() {
    let machines = vec![machine("/repo", "x", 1)];
    let snapshots = vec![
        snapshot("s_1", "", "x", None, "h", 1),
        snapshot("s_2", "", "y", None, "h", 1),
        snapshot("s_3", "/other", "x", None, "h", 1),
    ];
    let reg = Registry::open(machines, snapshots);
    let roots: Vec<&str> = reg.snapshots.iter().map(|s| s.project_root.as_str()).collect();
    assert_eq!(roots, ["/repo", "", "/other"]);
}

#[test]
fn a_save_is_idempotent() {
    let mut reg = empty();
    let (first, fresh) =
        save_snapshot(&mut reg, "/a", "x", Some("sha"), "/snapshots", HASH, 10, 11).unwrap();
    assert!(fresh);
    assert_eq!(first.snapshot_id, "s_01234567");
    assert_eq!(first.snapshot_path, "/snapshots/0123456789abcdef");
    assert_eq!(first.saved_at, 10);
    let (again, fresh) =
        save_snapshot(&mut reg, "/a", "x", Some("sha"), "/snapshots", HASH, 20, 21).unwrap();
    assert!(!fresh);
    assert_eq!(again.saved_at, 10);
    assert_eq!(reg.snapshots.len(), 1);
    assert_eq!(reg.find_snapshot("/a", "x", "sha").unwrap().snapshot_id, "s_01234567");
}

#[test]
fn equal_content_under_another_commit_gets_its_own_row_and_shares_storage() {
    let mut reg = empty();
    let (a, _) = save_snapshot(&mut reg, "", "x", Some("one"), "/s", HASH, 10, 10).unwrap();
    let (b, fresh) = save_snapshot(&mut reg, "", "x", Some("two"), "/s", HASH, 20, 21).unwrap();
    assert!(fresh);
    assert_eq!(b.snapshot_id, "s_01234567_21");
    assert_eq!(a.snapshot_path, b.snapshot_path);
    assert_eq!(reg.find_snapshot("", "x", "one").unwrap().snapshot_id, "s_01234567");
    let (c, fresh) = save_snapshot(&mut reg, "", "x", Some("three"), "/s", HASH, 30, 21).unwrap();
    assert!(fresh);
    assert_eq!(c.snapshot_id, "s_01234567_21_2");
}

#[test]
fn equal_content_of_many_machines_is_saved_within_one_second() {
    let mut reg = empty();
    let ids: Vec<String> = ["a", "b", "c", "d"]
        .iter()
        .map(|h| {
            let (s, fresh) =
                save_snapshot(&mut reg, "", h, Some("sha"), "/s", HASH, 10, 10).unwrap();
            assert!(fresh);
            s.snapshot_id
        })
        .collect();
    assert_eq!(ids, ["s_01234567", "s_01234567_10", "s_01234567_10_2", "s_01234567_10_3"]);
    assert_eq!(reg.snapshots.len(), 4);
    for id in &ids {
        assert_eq!(&reg.get_snapshot_by_id(id).unwrap().snapshot_id, id);
    }
}

#[test]
fn a_save_without_a_commit_is_idempotent() {
    let mut reg = empty();
    let (a, _) = save_snapshot(&mut reg, "", "x", None, "/s", HASH, 10, -5).unwrap();
    assert!(a.head_sha.is_none());
    let (b, fresh) = save_snapshot(&mut reg, "", "x", None, "/s", HASH, 20, -5).unwrap();
    assert!(!fresh);
    assert_eq!(b.snapshot_id, a.snapshot_id);
    assert_eq!(reg.snapshots.len(), 1);
    let (c, fresh) =
        save_snapshot(&mut reg, "", "x", None, "/s", "fedcba9876543210", 30, 30).unwrap();
    assert!(fresh);
    let (d, fresh) = save_snapshot(&mut reg, "", "x", None, "/s", HASH, 40, -5).unwrap();
    assert!(fresh);
    assert_eq!((c.snapshot_id.as_str(), d.snapshot_id.as_str()), ("s_fedcba98", "s_01234567_-5"));
}

#[test]
fn changed_content_for_a_commit_is_saved_anew() {
    let mut reg = empty();
    save_snapshot(&mut reg, "", "x", Some("sha"), "/s", HASH, 10, 10).unwrap();
    let (b, fresh) =
        save_snapshot(&mut reg, "", "x", Some("sha"), "/s", "fedcba9876543210", 20, 20).unwrap();
    assert!(fresh);
    assert_eq!(b.snapshot_id, "s_fedcba98");
    assert_eq!(reg.find_snapshot("", "x", "sha").unwrap().snapshot_id, "s_fedcba98");
}

#[test]
fn the_machines_table_is_scoped_by_its_key() {
    let col = |name: &str, key_place: i64| Column { name: name.to_string(), key_place };
    assert!(machines_scoped(&[col("handle", 2), col("project_root", 1)]));
    assert!(!machines_scoped(&[col("handle", 1), col("project_root", 0)]));
    assert!(!machines_scoped(&[]));
}
