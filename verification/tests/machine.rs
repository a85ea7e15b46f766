use moo::network::{
    complain, ifreq, next_step, raise_flags, resolver_config, route_entry, sockaddr, NetStep,
    ADDRESS_TRIES, GATEWAY_ADDRESS, GUEST_ADDRESS, NETMASK,
};
use moo::ports::{allocate_ports, format_port_map, read_port_map, resolve_host_port, PortError};
use moo::shim::{
    console_log_path, did_not_come_up, did_not_shut_down, engine_log_path, expose_ports,
    net_api_path, net_api_post, net_api_reply, net_proxy_args, net_socket_path, not_running,
    pid_path, port_pairs, relay, run, runtime_leftovers, sanitize, serve, socket_path,
    split_pair, wait_step, Event, Serving, Turn, Wait, MACHINE_LIMIT_MS,
};
use moo::store::{Machine, Registry};
use moo::vmm::{
    check, enter, failure, firmware_installed, loader_path_value, start_failure, EngineCall,
    MachineConfig, FIRMWARE_DIR,
};

#[test]
fn handles_become_file_names() {
    assert_eq!(sanitize("feat/a/b"), "feat%2Fa%2Fb");
    assert_eq!(sanitize("plain"), "plain");
    assert_ne!(sanitize("a/b"), sanitize("a-b"));
    assert_eq!(socket_path("/run", "", "a/b"), "/run/a%2Fb.sock");
    assert_eq!(pid_path("/run", "/home/me/app", "a/b"), "/run/%S572e0ade9e38a%2Fb.pid");
    assert_eq!(console_log_path("/run", "", "x"), "/run/x.console.log");
    assert_eq!(engine_log_path("/run", "", "x"), "/run/x.engine.log");
    assert_eq!(net_socket_path("/run", "", "a/b"), "/run/a_2Fb.net.sock");
    assert_eq!(net_api_path("/run", "/r", "50%"), "/run/_S176d833d6dc350_25.net.api.sock");
    assert_eq!(socket_path("/run", "", "v1.2_x"), "/run/v1%2E2_x.sock");
    assert_eq!(net_socket_path("/run", "", "v1.2_x"), "/run/v1.2__x.net.sock");
    assert_eq!(runtime_leftovers("/run", "", "x").len(), 4);
}

#[test]
fn a_deep_repository_does_not_lengthen_a_socket() {
    let dir = "/Users/name/.moo/run";
    let deep = format!("/Users/name/{}", "work/".repeat(40));
    let handle = "feature-of-some-length-1234";
    let path = net_api_path(dir, &deep, handle);
    assert_eq!(path.len(), dir.len() + 1 + 14 + handle.len() + ".net.api.sock".len());
    assert_eq!(path.len(), net_api_path(dir, "/r", handle).len());
    assert!(path.len() < 104);
}

#[test]
fn machines_do_not_share_files() {
    let machines = [
        ("", "a/b"),
        ("", "a%2Fb"),
        ("", "a_2Fb"),
        ("", "a__2Fb"),
        ("", "a_25b"),
        ("", "a%b"),
        ("/repo", "b"),
        ("", "%Sf97b771eaa16b"),
        ("", "_Sf97b771eaa16b"),
        ("", "a%Sb"),
        ("a", "b"),
        ("/one", "b"),
        ("/two", "b"),
        ("", "b.net"),
        ("", "b.net.api"),
        ("", "b"),
    ];
    let mut files = Vec::new();
    for (root, handle) in machines {
        files.push(socket_path("/run", root, handle));
        files.push(pid_path("/run", root, handle));
        files.push(net_socket_path("/run", root, handle));
        files.push(net_api_path("/run", root, handle));
    }
    for (i, a) in files.iter().enumerate() {
        assert!(!a["/run/".len()..].contains('/'));
        for b in &files[i + 1..] {
            assert_ne!(a, b);
        }
    }
    for (root, handle) in machines {
        assert!(!net_socket_path("/run", root, handle).contains('%'));
    }
}

#[test]
fn a_request_is_forwarded_and_answered_once() {
    let (state, turn) = serve(Serving::Idle, Event::Request(b"ls".to_vec()));
    assert!(state == Serving::Handing);
    assert!(matches!(turn, Turn::Forward(q) if q == b"ls"));
    let (state, turn) = serve(state, Event::Handed(true));
    assert!(state == Serving::Waiting);
    assert!(matches!(turn, Turn::Await));
    let (state, turn) = serve(state, Event::Reply(Some((3, b"out".to_vec()))));
    assert!(state == Serving::Idle);
    assert!(matches!(turn, Turn::Answer(3, out) if out == b"out"));
    let (state, turn) = serve(Serving::Handing, Event::Handed(false));
    assert!(state == Serving::Idle);
    assert!(matches!(turn, Turn::Answer(255, out) if out == b"machine is shutting down"));
    let (_, turn) = serve(Serving::Waiting, Event::Reply(None));
    assert!(matches!(turn, Turn::Answer(255, out) if out == b"machine is shutting down"));
    let (state, turn) = serve(Serving::Idle, Event::NoRequest);
    assert!(state == Serving::Idle);
    assert!(matches!(turn, Turn::Accept));
}

#[test]
fn the_proxy_listens_on_both_sockets() {
    assert_eq!(
        net_proxy_args("/n", "/a"),
        ["-listen-vfkit", "unixgram:///n", "-listen", "unix:///a", "-ssh-port", "-1"]
    );
}

#[test]
fn requests_to_the_proxy_are_http() {
    assert_eq!(
        net_api_post("/p", "{\u{e9}}"),
        "POST /p HTTP/1.1\r\nHost: net\r\nContent-Type: application/json\r\n\
         Content-Length: 4\r\nConnection: close\r\n\r\n{\u{e9}}"
    );
    assert!(net_api_reply("HTTP/1.1 200 OK\r\n\r\n").is_ok());
    assert!(net_api_reply("HTTP/1.0 200 OK\r\n").is_ok());
    assert_eq!(
        net_api_reply("HTTP/1.1 500 no\r\nx").unwrap_err(),
        "network control request failed: HTTP/1.1 500 no"
    );
    assert_eq!(net_api_reply("").unwrap_err(), "network control request failed: ");
}

#[test]
fn port_maps_are_published() {
    assert_eq!(port_pairs("20001:80,,20002:5432"), ["20001:80", "20002:5432"]);
    assert!(port_pairs("").is_empty());
    let pairs = vec!["20001:80".to_string(), "odd".to_string()];
    assert_eq!(
        expose_ports(&pairs).iter().map(|e| (&*e.body, &*e.purpose)).collect::<Vec<_>>(),
        [(
            r#"{"local":"127.0.0.1:20001","remote":"192.168.127.2:80"}"#,
            "expose port 20001 -> 80"
        )]
    );
    let f = split_pair("1:2:3").unwrap();
    assert_eq!((f.host.as_str(), f.guest.as_str()), ("1", "2:3"));
}

#[test]
fn the_supervisor_answers_for_a_guest_that_goes_down() {
    assert_eq!(relay(true, Some((3, b"x".to_vec()))), (3, b"x".to_vec()));
    let down = (255, b"machine is shutting down".to_vec());
    assert_eq!(relay(false, None), down);
    assert_eq!(relay(true, None), down);
    assert_eq!(relay(false, Some((3, b"x".to_vec()))), down);
}

#[test]
fn waiting_ends() {
    assert!(wait_step(0, MACHINE_LIMIT_MS, false) == Wait::Again(10));
    assert!(wait_step(0, MACHINE_LIMIT_MS, true) == Wait::Done);
    assert!(wait_step(10000, MACHINE_LIMIT_MS, true) == Wait::TimedOut);
    assert_eq!(not_running("x"), "machine 'x' is not running");
    assert_eq!(did_not_come_up("x"), "machine 'x' did not come up");
    assert_eq!(did_not_shut_down("x"), "machine 'x' did not shut down");
}

#[test]
fn the_supervisor_follows_the_registry() {
    let m = Machine {
        handle: "a/b".to_string(),
        base_commit: None,
        recipe_hash: String::new(),
        parent_machine: None,
        base_image_path: String::new(),
        overlay_path: "/m/ab.img".to_string(),
        lifecycle: "live".to_string(),
        detached: false,
        created_at: 0,
        cpus: 3,
        ram_mib: 777,
        port_map: "20005:80".to_string(),
        project_root: "/repo".to_string(),
    };
    let reg = Registry::open(vec![m], Vec::new());
    let s = run(&reg, "/repo", "a/b", "/run").ok().unwrap();
    assert_eq!(s.socket, "/run/%Sf97b771eaa16a%2Fb.sock");
    assert_eq!(s.net_socket, "/run/_Sf97b771eaa16a_2Fb.net.sock");
    assert_eq!(s.proxy_args[1], format!("unixgram://{}", s.net_socket));
    assert_eq!(s.exposures.len(), 1);
    let cfg = s.machine_config(5, 6);
    assert_eq!((cfg.cpus, cfg.ram_mib, cfg.serial_input_fd, cfg.serial_output_fd), (3, 777, 5, 6));
    assert_eq!(cfg.overlay, "/m/ab.img");
    assert_eq!(cfg.net_socket, s.net_socket);
    assert_eq!(run(&reg, "", "a/b", "/run").err().unwrap().message(), "no machine 'a/b'");
}

fn place(handle: &str, guest: u16) -> u16 {
    let mut input = handle.as_bytes().to_vec();
    input.extend_from_slice(&guest.to_le_bytes());
    let d = *blake3::hash(&input).as_bytes();
    20000 + (u32::from_le_bytes([d[0], d[1], d[2], d[3]]) % 10000) as u16
}

#[test]
fn ports_are_stable() {
    let free = |_: u16| true;
    let map = allocate_ports("feat/x", &[80, 5432], &free);
    assert_eq!(map, [(place("feat/x", 80), 80), (place("feat/x", 5432), 5432)]);
    assert_eq!(map, allocate_ports("feat/x", &[80, 5432], &free));
}

#[test]
fn ports_in_use_are_passed_over() {
    let first = place("m", 80);
    let next = |p: u16| if p == 29999 { 20000 } else { p + 1 };
    let map = allocate_ports("m", &[80], &|p: u16| p != first);
    assert_eq!(map, [(next(first), 80)]);
    let twice = allocate_ports("m", &[80, 80], &|_: u16| true);
    assert_eq!(twice, [(first, 80), (next(first), 80)]);
    assert!(allocate_ports("m", &[80], &|_: u16| false).is_empty());
    let only = allocate_ports("m", &[80, 81], &|p: u16| p == 20000);
    assert_eq!(only, [(20000, 80)]);
}

#[test]
fn port_maps_are_read_back() {
    let map = vec![(20001, 80), (29999, 65535)];
    assert_eq!(format_port_map(&map), "20001:80,29999:65535");
    assert_eq!(read_port_map("20001:80,29999:65535"), map);
    assert_eq!(format_port_map(&[]), "");
    assert!(read_port_map("").is_empty());
    assert_eq!(read_port_map("x:80,1:2,70000:1"), [(1, 2)]);
}

#[test]
fn host_ports_are_resolved() {
    assert_eq!(resolve_host_port("20001:80", None), Ok(20001));
    assert_eq!(resolve_host_port("20001:80,20002:81", Some(81)), Ok(20002));
    assert_eq!(resolve_host_port("", None), Err(PortError::NoPorts));
    assert_eq!(resolve_host_port("20001:80,20002:81", None), Err(PortError::Several(2)));
    let e = resolve_host_port("20001:80", Some(6901)).unwrap_err();
    assert_eq!(e, PortError::NotForwarded(6901));
    assert_eq!(e.message("m"), "machine 'm' does not forward guest port 6901");
    assert_eq!(PortError::NoPorts.message("m"), "machine 'm' forwards no ports");
    assert_eq!(
        PortError::Several(2).message("m"),
        "machine 'm' forwards 2 ports, name the guest port to open"
    );
}

#[test]
fn the_loader_path_gets_the_firmware_once() {
    assert_eq!(loader_path_value(None), FIRMWARE_DIR);
    assert_eq!(loader_path_value(Some("")), FIRMWARE_DIR);
    let value = loader_path_value(Some("/lib:/x"));
    assert_eq!(value, format!("/lib:/x:{}", FIRMWARE_DIR));
    assert_eq!(loader_path_value(Some(&value)), value);
}

#[test]
fn the_firmware_is_looked_for() {
    let path = "/opt/homebrew/opt/libkrunfw/lib/libkrunfw.5.dylib";
    assert!(firmware_installed(&|p: String| p == path));
    assert!(!firmware_installed(&|_: String| false));
}

#[test]
fn the_engine_is_configured_in_order() {
    let cfg = MachineConfig {
        overlay: "/m/x.img".to_string(),
        cpus: 2,
        ram_mib: 512,
        console_log: "/run/x.console.log".to_string(),
        net_socket: "/run/x.net.sock".to_string(),
        serial_input_fd: 3,
        serial_output_fd: 4,
    };
    let calls = enter(&cfg);
    let names: Vec<&str> = calls.iter().map(|c| c.what.as_str()).collect();
    assert_eq!(
        names,
        [
            "log level",
            "context",
            "resources",
            "disk",
            "root filesystem",
            "network",
            "exec channel",
            "exec port",
            "console log",
            "workdir",
            "agent",
            "start",
        ]
    );
    assert!(matches!(&calls[3].call, EngineCall::Disk { path, .. } if path == "/m/x.img"));
    assert!(matches!(
        &calls[5].call,
        EngineCall::Network { socket } if socket == "/run/x.net.sock"
    ));
    assert!(matches!(
        &calls[10].call,
        EngineCall::Program { path, args, env }
            if path == "/usr/local/bin/moo-agent" && args == &["--serial"] && env.len() == 3
    ));
    assert!(check(0, "disk").is_ok());
    assert_eq!(check(-22, "disk").unwrap_err(), "machine engine rejected disk (-22)");
    assert_eq!(start_failure(-1), "machine failed to start (-1)");
    assert_eq!(failure(&calls[3], 0), None);
    assert_eq!(failure(&calls[3], -22).unwrap(), "machine engine rejected disk (-22)");
    assert_eq!(failure(&calls[11], 0).unwrap(), "machine failed to start (0)");
}

#[test]
fn socket_addresses_have_the_kernel_layout() {
    assert_eq!(
        sockaddr(GUEST_ADDRESS),
        [2, 0, 0, 0, 192, 168, 127, 2, 0, 0, 0, 0, 0, 0, 0, 0]
    );
    let req = ifreq("eth0", &sockaddr(NETMASK));
    assert_eq!(req.len(), 40);
    assert_eq!(&req[..6], b"eth0\0\0");
    assert_eq!(&req[16..24], [2, 0, 0, 0, 255, 255, 255, 0]);
    let route = route_entry(GATEWAY_ADDRESS);
    assert_eq!(route.len(), 120);
    assert_eq!(&route[8..16], [2, 0, 0, 0, 0, 0, 0, 0]);
    assert_eq!(&route[24..32], [2, 0, 0, 0, 192, 168, 127, 1]);
    assert_eq!(route[40], 2);
    assert_eq!(route[56], 3);
    assert!(route[57..].iter().all(|&b| b == 0));
}

#[test]
fn interfaces_are_raised() {
    assert_eq!(raise_flags(0), 0x41);
    assert_eq!(raise_flags(0x1002), 0x1043);
    assert_eq!(resolver_config(GATEWAY_ADDRESS), "nameserver 192.168.127.1\n");
}

#[test]
fn the_network_comes_up_or_is_given_up() {
    let mut step = NetStep::OpenSocket;
    let mut seen = 0;
    while step != NetStep::Done {
        let ok = !matches!(step, NetStep::LoopbackUp | NetStep::SetNetmask);
        step = next_step(step, ok);
        seen += 1;
    }
    assert_eq!(seen, 7);
    let mut step = NetStep::SetAddress(0);
    let mut tries = 0;
    while let NetStep::SetAddress(_) = step {
        step = next_step(step, false);
        tries += 1;
    }
    assert_eq!(tries, ADDRESS_TRIES);
    assert!(step == NetStep::NoInterface);
    assert!(next_step(NetStep::OpenSocket, false) == NetStep::Done);
    assert_eq!(complain(NetStep::SetAddress(3), "e"), None);
    assert_eq!(complain(NetStep::AddRoute, "e").unwrap(), "moo-agent: net: default route: e");
    assert_eq!(
        complain(NetStep::NoInterface, "").unwrap(),
        "moo-agent: net: eth0 did not appear; machine has no network"
    );
}
