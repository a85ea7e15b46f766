use moo::image::{
    after_reply, anonymous_token, authentication_failure, authorization, base_reference,
    challenge_value, check_layer, ensure, find_tool, image_gigabytes, image_path, inspect_manifest,
    layer_action, layer_from, layer_progress, layers, mkfs_args, next_layer, no_build,
    ownership_script, parse_ref, pick_token, platform_digest, record_owner, select_platform,
    token_request, tool_missing, tools_installed, ClientStep, EntryKind, Golden, Layer, LayerAction,
    LayerStep, Manifest, Owner, PlatformRow, Reply,
};
use moo::config::MooToml;
use moo::json::is_document;

fn parts(s: &str) -> (String, String, String) {
    let r = parse_ref(s);
    (r.registry, r.repo, r.tag)
}

fn triple(a: &str, b: &str, c: &str) -> (String, String, String) {
    (a.to_string(), b.to_string(), c.to_string())
}

#[test]
fn references_are_taken_apart() {
    let hub = "registry-1.docker.io";
    assert_eq!(parts("debian:bookworm"), triple(hub, "library/debian", "bookworm"));
    assert_eq!(parts("debian"), triple(hub, "library/debian", "latest"));
    assert_eq!(parts("me/app:1"), triple(hub, "me/app", "1"));
    assert_eq!(parts("ghcr.io/me/app:2"), triple("ghcr.io", "me/app", "2"));
    assert_eq!(parts("localhost:5000/app"), triple("localhost:5000", "app", "latest"));
    assert_eq!(parts("localhost/app:x"), triple("localhost", "app", "x"));
    assert_eq!(parts(""), triple(hub, "library/", "latest"));
    assert_eq!(parts("my.image:1"), triple(hub, "library/my.image", "1"));
    assert_eq!(parts("localhost"), triple(hub, "library/localhost", "latest"));
    let digest = format!("sha256:{}", "0123456789abcdef".repeat(4));
    assert_eq!(
        parts(&format!("debian@{}", digest)),
        triple(hub, "library/debian", &digest)
    );
    assert_eq!(
        parts(&format!("localhost:5000/me/app:1@{}", digest)),
        triple("localhost:5000", "me/app", &digest)
    );
}

#[test]
fn urls_of_the_registry() {
    let img = parse_ref("ghcr.io/me/app:2");
    assert_eq!(img.manifest_url(&img.tag), "https://ghcr.io/v2/me/app/manifests/2");
    assert_eq!(img.blob_url("sha256:ab"), "https://ghcr.io/v2/me/app/blobs/sha256:ab");
    assert_eq!(image_path("/images", "abc"), "/images/abc.img");
    assert_eq!(base_reference(&None), "debian:bookworm");
    assert_eq!(base_reference(&Some("alpine".to_string())), "alpine");
}

#[test]
fn a_golden_image_is_built_once_per_recipe() {
    let mut cfg = MooToml::default();
    let expected = format!("/images/{}.img", cfg.recipe_hash(&[]));
    match ensure(&cfg, &[], "/images", &|_p: String| false) {
        Golden::Build { path, base_ref } => {
            assert_eq!((path.as_str(), base_ref.as_str()), (expected.as_str(), "debian:bookworm"))
        }
        Golden::Ready { .. } => panic!("an image that is not there is not ready"),
    }
    match ensure(&cfg, &[], "/images", &|p: String| p == expected) {
        Golden::Ready { path } => assert_eq!(path, expected),
        Golden::Build { .. } => panic!("an image that is there is not built again"),
    }
    cfg.project.base = Some("alpine:3".to_string());
    match ensure(&cfg, &[], "/images", &|p: String| p == expected) {
        Golden::Build { path, base_ref } => {
            assert_ne!(path, expected);
            assert_eq!(base_ref, "alpine:3");
        }
        Golden::Ready { .. } => panic!("another base is another recipe"),
    }
}

#[test]
fn challenges_are_read() {
    let c = r#"Bearer realm="https://auth.docker.io/token", service="registry.docker.io",scope=repo:x:pull"#;
    assert_eq!(challenge_value(c, "realm").unwrap(), "https://auth.docker.io/token");
    assert_eq!(challenge_value(c, "service").unwrap(), "registry.docker.io");
    assert_eq!(challenge_value(c, "scope").unwrap(), "repo:x:pull");
    assert_eq!(challenge_value(c, "other"), None);
    assert_eq!(challenge_value("a=1,a=\"2\"", "a").unwrap(), "2");
    let t = token_request(c).unwrap();
    assert_eq!(t.url, "https://auth.docker.io/token");
    assert_eq!(t.service.as_deref(), Some("registry.docker.io"));
    assert!(token_request("Basic x").is_none());
}

#[test]
fn tokens_are_found_in_replies() {
    assert_eq!(anonymous_token(br#"{"token":"t"}"#).as_deref(), Some("t"));
    assert_eq!(anonymous_token(br#"{"access_token":"a"}"#).as_deref(), Some("a"));
    assert_eq!(anonymous_token(br#"{"token":"t","access_token":"a"}"#).as_deref(), Some("t"));
    assert_eq!(anonymous_token(br#"{"token":5,"access_token":"a"}"#), None);
    assert_eq!(anonymous_token(b"not json"), None);
    assert_eq!(pick_token(true, None, Some("a".to_string())), None);
    assert_eq!(authorization("t"), "Bearer t");
    assert!(is_document(b"{}") && !is_document(b"{"));
}

#[test]
fn a_denied_request_is_repeated_once() {
    assert!(matches!(after_reply(0, Reply::Delivered), ClientStep::Deliver));
    assert!(matches!(after_reply(0, Reply::Failed), ClientStep::RequestFailed));
    assert!(matches!(after_reply(0, Reply::Denied(None)), ClientStep::NoChallenge));
    assert!(matches!(
        after_reply(0, Reply::Denied(Some("c".to_string()))),
        ClientStep::Authenticate { challenge, retry: true } if challenge == "c"
    ));
    assert!(matches!(
        after_reply(1, Reply::Denied(Some("c".to_string()))),
        ClientStep::Authenticate { retry: false, .. }
    ));
    assert_eq!(authentication_failure("u"), "registry authentication failed for u");
}

const INDEX: &[u8] = br#"{"manifests":[
    {"digest":"sha256:1","platform":{"os":"linux","architecture":"amd64"}},
    {"digest":"sha256:2","platform":{"os":"linux","architecture":"arm64"}},
    {"digest":"sha256:3","platform":{"os":"linux","architecture":"arm64"}}]}"#;

#[test]
fn the_build_for_the_guest_is_chosen() {
    assert_eq!(platform_digest(INDEX).as_deref(), Some("sha256:2"));
    assert!(matches!(inspect_manifest(INDEX), Manifest::Index(Some(d)) if d == "sha256:2"));
    assert!(matches!(inspect_manifest(br#"{"layers":[]}"#), Manifest::Image));
    assert!(matches!(inspect_manifest(br#"{"manifests":7}"#), Manifest::Broken));
    assert!(matches!(inspect_manifest(br#"{"manifests":[]}"#), Manifest::Index(None)));
    assert_eq!(no_build("x"), "x has no linux/arm64 build");
}

#[test]
fn the_first_matching_row_decides() {
    let row = |os: &str, arch: &str, digest: Option<&str>| PlatformRow {
        os: Some(os.to_string()),
        architecture: Some(arch.to_string()),
        digest: digest.map(str::to_string),
    };
    let rows = [row("linux", "amd64", Some("a")), row("linux", "arm64", None)];
    assert_eq!(select_platform(&rows), None);
    let rows = [row("linux", "arm64", Some("a")), row("linux", "arm64", Some("b"))];
    assert_eq!(select_platform(&rows).as_deref(), Some("a"));
    assert_eq!(select_platform(&[]), None);
}

#[test]
fn layers_are_listed_with_defaults() {
    let body = br#"{"layers":[
        {"digest":"sha256:1","mediaType":"application/vnd.oci.image.layer.v1.tar+gzip","size":12},
        {"size":"many"}]}"#;
    let l = layers(body).unwrap();
    assert_eq!(l.len(), 2);
    assert_eq!((l[0].digest.as_str(), l[0].size), ("sha256:1", 12));
    assert_eq!((l[1].digest.as_str(), l[1].media.as_str(), l[1].size), ("", "", 0));
    assert!(layers(br#"{"layers":{}}"#).is_none());
    assert!(layers(b"{}").is_none());
    assert_eq!(layer_from(None, None, Some(3)).size, 3);
}

#[test]
fn unsupported_layers_are_refused() {
    assert!(check_layer("b", "x.tar+gzip").is_ok());
    assert_eq!(check_layer("b", "squashfs").unwrap_err(), "unsupported layer type in b: squashfs");
    assert_eq!(
        check_layer("b", "x.tar+zstd").unwrap_err(),
        "zstd-compressed images are not supported yet: b"
    );
    let img = parse_ref("me/app");
    let layer = |media: &str| Layer {
        digest: "sha256:9".to_string(),
        media: media.to_string(),
        size: 1,
    };
    let all = [layer("tar"), layer("zip")];
    assert!(matches!(
        next_layer(&img, "me/app", &all, 0),
        LayerStep::Fetch(u) if u == "https://registry-1.docker.io/v2/me/app/blobs/sha256:9"
    ));
    assert!(matches!(next_layer(&img, "me/app", &all, 1), LayerStep::Fail(_)));
    assert!(matches!(next_layer(&img, "me/app", &all, 2), LayerStep::Finished));
    assert_eq!(layer_progress(1, 5, "28.1"), "moo:   layer 1/5 (28.1 MB)");
}

#[test]
fn entries_of_a_layer_are_applied() {
    let unpack = |p: &[u8]| match layer_action(p, EntryKind::Other) {
        LayerAction::Unpack { path } => Some(path),
        _ => None,
    };
    assert_eq!(unpack(b"./etc/passwd").unwrap(), b"etc/passwd");
    assert_eq!(unpack(b"usr/bin/").unwrap(), b"usr/bin");
    assert_eq!(unpack(b"./"), None);
    assert_eq!(unpack(b"a/.."), None);
    assert_eq!(unpack(b"a/\xff"), None);
    assert!(matches!(layer_action(b"dev/null", EntryKind::Char), LayerAction::Skip));
    assert!(matches!(layer_action(b"p", EntryKind::Fifo), LayerAction::Skip));
    assert!(matches!(layer_action(b"p", EntryKind::Block), LayerAction::Skip));
}

#[test]
fn whiteouts_remove_names() {
    match layer_action(b"./etc/.wh.hosts", EntryKind::Other) {
        LayerAction::Remove { dir, name } => {
            assert_eq!(dir, b"etc");
            assert_eq!(name, "hosts");
        }
        _ => panic!("not removed"),
    }
    match layer_action(b"var/lib/.wh..wh..opq", EntryKind::Other) {
        LayerAction::Clear { dir } => assert_eq!(dir, b"var/lib"),
        _ => panic!("not cleared"),
    }
    assert!(matches!(
        layer_action(b".wh.x", EntryKind::Char),
        LayerAction::Remove { dir, name } if dir.is_empty() && name == "x"
    ));
}

#[test]
fn the_owner_of_the_last_layer_wins() {
    let mut owners = Vec::new();
    record_owner(&mut owners, true, "a", 1000, 1000);
    record_owner(&mut owners, true, "b", 0, 5);
    record_owner(&mut owners, true, "a", 0, 0);
    record_owner(&mut owners, false, "a", 7, 7);
    let held: Vec<(&str, u64, u64)> =
        owners.iter().map(|o| (o.path.as_str(), o.uid, o.gid)).collect();
    assert_eq!(held, [("a", 1000, 1000), ("b", 0, 5), ("a", 0, 0)]);
    let script = ownership_script(&["a".to_string(), "b".to_string()], &owners);
    assert!(script.ends_with("sif \"/a\" uid 0\nsif \"/a\" gid 0\n"));
}

#[test]
fn tools_are_looked_for_in_order() {
    let second = |p: String| p.starts_with("/opt/homebrew/sbin/");
    assert_eq!(find_tool("debugfs", &second).unwrap(), "/opt/homebrew/sbin/debugfs");
    let all = |_: String| true;
    assert_eq!(find_tool("debugfs", &all).unwrap(), "/opt/homebrew/opt/e2fsprogs/sbin/debugfs");
    assert!(find_tool("debugfs", &|_: String| false).is_none());
    assert!(tools_installed(&second));
    assert!(!tools_installed(&|p: String| p.ends_with("mkfs.ext4")));
    assert_eq!(
        tool_missing("debugfs"),
        "debugfs not found \u{2014} run `moo doctor` for setup instructions"
    );
}

#[test]
fn images_are_sized_generously() {
    assert_eq!(image_gigabytes(0), 8);
    assert_eq!(image_gigabytes(1_999_999_999), 8);
    assert_eq!(image_gigabytes(2_500_000_000), 9);
    assert_eq!(
        mkfs_args("/root", "/out", 9),
        ["-q", "-F", "-d", "/root", "-L", "mooroot", "/out", "9G"]
    );
}

#[test]
fn owners_are_restored() {
    let found = vec!["etc".to_string(), "srv".to_string()];
    let owners = vec![Owner { path: "srv".to_string(), uid: 33, gid: 34 }];
    assert_eq!(
        ownership_script(&found, &owners),
        "sif / uid 0\nsif / gid 0\n\
         sif \"/etc\" uid 0\nsif \"/etc\" gid 0\n\
         sif \"/srv\" uid 0\nsif \"/srv\" gid 0\n\
         sif \"/srv\" uid 33\nsif \"/srv\" gid 34\n"
    );
}
