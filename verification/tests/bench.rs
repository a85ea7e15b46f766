use moo::spike::{
    agent_argv, call_failure, check_answer, enter_machine, handle_disk, mutation,
    parallel_members, parse_bench, registry_lookup, registry_path, registry_record, sh,
    shows_mark, AgentTransport, Bench,
};
use moo::vmm::EngineCall;

fn words(list: &[&str]) -> Vec<String> {
    list.iter().map(|s| s.to_string()).collect()
}

#[test]
fn command_lines_of_the_bench() {
    assert_eq!(sh("ls"), ["/bin/sh", "-c", "ls"]);
    assert_eq!(agent_argv("--vsock"), ["/usr/local/bin/moo-agent", "--vsock"]);
    assert_eq!(mutation("abc"), "echo abc > /state-of-commit && sync");
    assert_eq!(handle_disk("/d", "a/b", "-live.img"), "/d/a-b-live.img");
}

#[test]
fn what_is_recorded_last_is_found() {
    let mut text = String::new();
    text.push_str(&registry_record("m", "sha1", "h1"));
    text.push_str(&registry_record("m", "sha2", "h2"));
    text.push_str(&registry_record("m", "sha1", "h3"));
    text.push_str(&registry_record("n", "sha1", "h4"));
    assert_eq!(registry_lookup(&text, "m", "sha1").as_deref(), Some("h3"));
    assert_eq!(registry_lookup(&text, "m", "sha2").as_deref(), Some("h2"));
    assert_eq!(registry_lookup(&text, "m", "sha3"), None);
    assert_eq!(registry_lookup("m sha1\n", "m", "sha1"), None);
    assert_eq!(registry_lookup(" m\tsha1  h5 extra", "m", "sha1").as_deref(), Some("h5"));
    assert_eq!(registry_path("/d"), "/d/registry.txt");
}

#[test]
fn a_machine_of_the_bench_is_configured() {
    let argv = words(&["/bin/sh", "-c", "true"]);
    let plain = enter_machine("/d.img", &argv, &None, None);
    assert_eq!(plain.len(), 8);
    assert!(matches!(
        &plain[6].call,
        EngineCall::Program { path, args, .. } if path == "/bin/sh" && args == &["-c", "true"]
    ));
    let vsock = Some(AgentTransport::Vsock { host_sock: "/s".to_string() });
    let calls = enter_machine("/d.img", &argv, &vsock, Some("/log"));
    assert_eq!(calls.len(), 10);
    assert!(matches!(&calls[5].call, EngineCall::VsockPort { port: 1024, path } if path == "/s"));
    assert!(matches!(&calls[6].call, EngineCall::ConsoleLog(p) if p == "/log"));
    let serial = Some(AgentTransport::Serial { input_fd: 3, output_fd: 4 });
    let calls = enter_machine("/d.img", &argv, &serial, None);
    assert!(matches!(&calls[5].call, EngineCall::AddConsole));
    assert!(matches!(
        &calls[6].call,
        EngineCall::SerialPort { name, input_fd: 3, output_fd: 4 } if name == "moo-exec"
    ));
    assert_eq!(call_failure(&calls[3], -2).unwrap(), "error: attach disk failed (-2)");
    assert_eq!(call_failure(&calls[3], 0), None);
    assert_eq!(call_failure(&calls[0], -2), None);
    let start = calls.last().unwrap();
    assert_eq!(call_failure(start, -5).unwrap(), "error: machine failed to start (-5)");
}

#[test]
fn parallel_machines_are_told_apart() {
    let m = parallel_members("/d", 12);
    assert_eq!(m.len(), 12);
    assert_eq!(m[11].disk, "/d/par-11.img");
    assert_eq!(m[0].command, "echo machine-0 > /whoami && cat /whoami");
    assert_eq!(m[0].expected, "machine-0\n");
    assert!(check_answer(0, 0, b"machine-0\n", &m[0].expected).is_ok());
    assert_eq!(
        check_answer(1, 0, b"machine-0\n", &m[1].expected).unwrap_err(),
        "machine 1 returned wrong identity"
    );
    assert_eq!(check_answer(1, 2, b"", &m[1].expected).unwrap_err(), "machine 1 exec failed");
}

#[test]
fn benches_are_told_apart() {
    assert!(matches!(
        parse_bench(&words(&["boot", "d.img", "--", "ls", "-l"])),
        Bench::Boot { disk, command } if disk == "d.img" && command == ["ls", "-l"]
    ));
    assert!(matches!(parse_bench(&words(&["boot", "d.img"])), Bench::Usage));
    assert!(matches!(parse_bench(&words(&["boot", "d.img", "--"])), Bench::Usage));
    assert!(matches!(parse_bench(&words(&["killgate", "b"])), Bench::Killgate { .. }));
    assert!(matches!(
        parse_bench(&words(&["vsock-bench", "b", "7"])),
        Bench::VsockBench { rounds: Some(n), .. } if n == "7"
    ));
    assert!(matches!(
        parse_bench(&words(&["serial-bench", "b"])),
        Bench::SerialBench { rounds: None, .. }
    ));
    assert!(matches!(
        parse_bench(&words(&["e2e", "b"])),
        Bench::EndToEnd { handle, .. } if handle == "spike-machine"
    ));
    assert!(matches!(
        parse_bench(&words(&["parallel", "b", "3"])),
        Bench::Parallel { machines: Some(n), .. } if n == "3"
    ));
    assert!(matches!(parse_bench(&words(&["parallel"])), Bench::Usage));
    assert!(matches!(parse_bench(&[]), Bench::Usage));
    assert!(shows_mark("boot\nabc\n", "abc") && !shows_mark("ab", "abc"));
}
