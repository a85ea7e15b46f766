use moo::config::{
    config_file, parse_memory_mib, project_root, MooToml, DEFAULT_CPUS, DEFAULT_RAM_MIB,
};
use moo::digest::{content_digest, seed_of};
use moo::git::{answer, main_root, resolve, shadowed_head, toplevel};
use moo::paths::{
    images_dir, join, machines_dir, moo_home, registry_file, runtime_dir, same_path, snapshots_dir,
    Route,
};

#[test]
fn memory_sizes_are_read() {
    assert_eq!(parse_memory_mib("4GiB"), Some(4096));
    assert_eq!(parse_memory_mib(" 2048 MiB "), Some(2048));
    assert_eq!(parse_memory_mib("512"), Some(512));
    assert_eq!(parse_memory_mib("+7"), Some(7));
    assert_eq!(parse_memory_mib("4GB"), None);
    assert_eq!(parse_memory_mib(""), None);
    assert_eq!(parse_memory_mib("-1"), None);
    assert_eq!(parse_memory_mib("4294967296"), None);
    assert_eq!(parse_memory_mib("4294967295GiB"), Some(4294967295 * 1024));
}

#[test]
fn an_absent_configuration_has_defaults() {
    let cfg = MooToml::default();
    assert_eq!(cfg.cpus(), DEFAULT_CPUS);
    assert_eq!(cfg.ram_mib(), DEFAULT_RAM_MIB);
    assert_eq!(cfg.workdir(), "/srv/app");
    assert!(cfg.network.ports.is_empty() && cfg.quiesce.commands.is_empty());
}

#[test]
fn a_configuration_is_read() {
    let mut cfg = MooToml::default();
    cfg.resources.cpus = Some(8);
    cfg.resources.memory = Some("2GiB".to_string());
    cfg.project.workdir = Some("/work".to_string());
    assert_eq!((cfg.cpus(), cfg.ram_mib(), cfg.workdir()), (8, 2048, "/work"));
    cfg.resources.memory = Some("lots".to_string());
    assert!(cfg.has_fitting_ram());
    assert_eq!(cfg.ram_mib(), 4096);
    cfg.resources.memory = Some("4194304GiB".to_string());
    assert!(!cfg.has_fitting_ram());
}

#[test]
fn the_recipe_identifies_the_image() {
    let mut cfg = MooToml::default();
    cfg.recipe.lockfiles = vec!["a.lock".to_string(), "b.lock".to_string()];
    let contents = vec![Some(b"1".to_vec()), None];
    let hash = cfg.recipe_hash(&contents);
    let mut input = vec![4u8];
    input.extend_from_slice(b"default");
    input.extend_from_slice(b"a.lock1b.lock");
    input.push(2);
    input.extend_from_slice(&4096u32.to_le_bytes());
    assert_eq!(hash, blake3::hash(&input).to_hex().to_string());
    assert_eq!(hash, cfg.recipe_hash(&contents.clone()));
    assert_ne!(hash, cfg.recipe_hash(&[Some(b"2".to_vec()), None]));
    cfg.resources.cpus = Some(3);
    assert_ne!(hash, cfg.recipe_hash(&contents));
}

#[test]
fn digests_are_hexadecimal() {
    assert_eq!(
        content_digest(b""),
        "af1349b9f5f9a1a6a0404dea36dcc9499bcb25c9adc112b7cc9a93cae41f3262"
    );
    assert_eq!(content_digest(b"moo"), blake3::hash(b"moo").to_hex().to_string());
    let mut d = [0u8; 32];
    d[0] = 1;
    d[1] = 2;
    d[3] = 4;
    assert_eq!(seed_of(&d), 0x0400_0201);
}

#[test]
fn answers_of_git_are_trimmed() {
    assert_eq!(answer(true, b" abc \n").as_deref(), Some("abc"));
    assert_eq!(answer(true, b" \n"), None);
    assert_eq!(answer(false, b"abc"), None);
    assert_eq!(answer(true, b"a\xffb\n").as_deref(), Some("a\u{fffd}b"));
}

#[test]
fn a_handle_shadows_its_branch_or_the_head() {
    let both = |args: Vec<String>| match args.last().unwrap().as_str() {
        "HEAD" => Some("refs/heads/main".to_string()),
        "refs/heads/feat^{commit}" => Some("branch".to_string()),
        "HEAD^{commit}" => Some("head".to_string()),
        _ => None,
    };
    assert_eq!(shadowed_head(&both, "feat").as_deref(), Some("branch"));
    assert_eq!(shadowed_head(&both, "other").as_deref(), Some("head"));
    assert_eq!(resolve(&both, "nothing"), None);
    let none = |_: Vec<String>| None;
    assert_eq!(shadowed_head(&none, "feat"), None);
}

#[test]
fn a_handle_shadows_the_commit_that_is_checked_out() {
    let detached = |args: Vec<String>| match args.last().unwrap().as_str() {
        "refs/heads/feat^{commit}" => Some("tip".to_string()),
        "HEAD^{commit}" => Some("older".to_string()),
        _ => None,
    };
    assert_eq!(shadowed_head(&detached, "feat").as_deref(), Some("older"));
    assert_eq!(shadowed_head(&detached, "other").as_deref(), Some("older"));
    assert_eq!(resolve(&detached, "refs/heads/feat").as_deref(), Some("tip"));
}

#[test]
fn worktrees_share_their_main_root() {
    let git = |args: Vec<String>| {
        if args.contains(&"--git-common-dir".to_string()) {
            Some("/home/me/app/.git".to_string())
        } else {
            Some("/home/me/app-agent-b".to_string())
        }
    };
    assert_eq!(main_root(&git).unwrap(), b"/home/me/app");
    assert_eq!(toplevel(&git).as_deref(), Some("/home/me/app-agent-b"));
    assert_eq!(project_root(&git), "/home/me/app-agent-b");
    let bare = |args: Vec<String>| {
        if args.contains(&"--git-common-dir".to_string()) {
            Some("/srv/app.git".to_string())
        } else {
            Some("/srv/checkout".to_string())
        }
    };
    assert_eq!(main_root(&bare).unwrap(), b"/srv/checkout");
    let none = |_: Vec<String>| None;
    assert_eq!(main_root(&none), None);
    assert_eq!(project_root(&none), ".");
}

#[test]
fn state_lives_below_the_home_directory() {
    assert_eq!(moo_home("/home/me"), "/home/me/.moo");
    assert_eq!(machines_dir("/home/me"), "/home/me/.moo/machines");
    assert_eq!(snapshots_dir("/home/me"), "/home/me/.moo/snapshots");
    assert_eq!(images_dir("/home/me"), "/home/me/.moo/images");
    assert_eq!(runtime_dir("/home/me"), "/home/me/.moo/run");
    assert_eq!(registry_file("/home/me"), "/home/me/.moo/registry.db");
    assert_eq!(config_file("/repo"), "/repo/moo.toml");
}

#[test]
fn paths_are_joined_like_paths() {
    for (base, name) in [("/a", "b"), ("/a/", "b"), ("", "b"), ("/a", "/b"), ("/a", ""), ("", "")] {
        let expected = std::path::Path::new(base).join(name);
        assert_eq!(join(base, name), expected.to_str().unwrap());
    }
}

#[test]
fn paths_are_compared_by_their_names() {
    for (a, b) in [
        ("/srv/app", "/srv/app/"),
        ("/srv//app", "/srv/./app"),
        ("/srv/app", "srv/app"),
        ("./a", "a"),
        ("/a/..", "/"),
        ("/", "//"),
    ] {
        let expected = std::path::Path::new(a) == std::path::Path::new(b);
        assert_eq!(same_path(a, b), expected, "{} {}", a, b);
    }
}

#[test]
fn routes_know_their_last_name() {
    assert_eq!(Route::parse(b"/a/b/").file_name().unwrap(), b"b");
    assert_eq!(Route::parse(b"a/..").file_name(), None);
    assert_eq!(Route::parse(b"/").file_name(), None);
    assert_eq!(Route::parse(b"//a/./b").written(), b"/a/b");
    assert!(Route::parse(b"/a/b").is_below(&Route::parse(b"/a")));
    assert!(!Route::parse(b"/ab").is_below(&Route::parse(b"/a")));
}
