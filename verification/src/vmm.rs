//! The machine backend: which calls configure and start the engine.
//!
//! Messages speak of the machine, its firmware and the engine, and never
//! name the engine.
use crate::paths;
use crate::seqs;
use crate::text;
use vstd::prelude::*;

verus! {

/// Directory where the boot firmware is installed.
pub const FIRMWARE_DIR: &'static str = "/opt/homebrew/opt/libkrunfw/lib";

pub const FIRMWARE_LEAF: &'static str = "libkrunfw.5.dylib";

/// Environment variable that the loader reads at process start. A process
/// that boots a machine is launched with the firmware directory on this path.
pub const LOADER_PATH_VAR: &'static str = "DYLD_FALLBACK_LIBRARY_PATH";

/// Name of the serial port on which the guest agent answers.
pub const EXEC_PORT_NAME: &'static str = "moo-exec";

/// Where the agent is in the guest.
pub const AGENT_PATH: &'static str = "/usr/local/bin/moo-agent";

pub const DISK_FORMAT_RAW: u32 = 0;

pub const SYNC_MODE_RELAXED: u32 = 1;

/// Where the firmware is.
pub fn firmware_path() -> (r: String)
    ensures
        r@ == paths::joined(FIRMWARE_DIR@, FIRMWARE_LEAF@),
{
    paths::join(FIRMWARE_DIR, FIRMWARE_LEAF)
}

/// True if the boot firmware is where it is expected.
pub fn firmware_installed<F: Fn(String) -> bool>(there: &F) -> (r: bool)
    requires
        forall|p: String| #[trigger] call_requires(*there, (p,)),
    ensures
        exists|p: String|
            p@ == paths::joined(FIRMWARE_DIR@, FIRMWARE_LEAF@) && #[trigger] call_ensures(
                *there,
                (p,),
                r,
            ),
{
    let p = firmware_path();
    let found = there(p);
    assert(call_ensures(*there, (p,), found));
    found
}

/// The firmware directory is on the loader path.
pub open spec fn on_path(current: Seq<char>) -> bool {
    seqs::split(current, ':').contains(FIRMWARE_DIR@)
}

/// The loader path that a process needs to boot a machine.
pub open spec fn loader_path(current: Option<Seq<char>>) -> Seq<char> {
    match current {
        Some(cur) => if cur.len() == 0 {
            FIRMWARE_DIR@
        } else if on_path(cur) {
            cur
        } else {
            cur + ":"@ + FIRMWARE_DIR@
        },
        None => FIRMWARE_DIR@,
    }
}

fn has_firmware_dir(current: &str) -> (r: bool)
    ensures
        r == on_path(current@),
{
    let parts = text::split_on(current, ':');
    let ghost all = seqs::split(current@, ':');
    for i in 0..parts.len()
        invariant
            all == seqs::split(current@, ':'),
            text::texts(parts@) == all,
            forall|j: int| 0 <= j < i ==> #[trigger] all[j] != FIRMWARE_DIR@,
    {
        assert(all[i as int] == parts@[i as int]@);
        if text::same(parts[i].as_str(), FIRMWARE_DIR) {
            assert(all.contains(FIRMWARE_DIR@));
            return true;
        }
    }
    assert(all.len() == parts@.len());
    assert(!all.contains(FIRMWARE_DIR@));
    false
}

/// The value of the loader path variable for a process that boots a machine,
/// given its current value.
pub fn loader_path_value(current: Option<&str>) -> (r: String)
    ensures
        r@ == loader_path(text::opt_str(current)),
{
    match current {
        Some(cur) => {
            if cur.is_empty() {
                FIRMWARE_DIR.to_owned()
            } else if has_firmware_dir(cur) {
                cur.to_owned()
            } else {
                text::concat3(cur, ":", FIRMWARE_DIR)
            }
        },
        None => FIRMWARE_DIR.to_owned(),
    }
}

/// The directory ends up on the path, and setting the path again changes nothing.
pub proof fn loader_path_settles(current: Option<Seq<char>>)
    ensures
        on_path(loader_path(current)),
        loader_path(Some(loader_path(current))) == loader_path(current),
{
    reveal_strlit(":");
    reveal_strlit("/opt/homebrew/opt/libkrunfw/lib");
    let dir = FIRMWARE_DIR@;
    assert(!dir.contains(':'));
    let none = Seq::<char>::empty();
    seqs::lemma_split_append(none, ':', dir);
    assert(none + dir =~= dir);
    assert(seqs::split(dir, ':')[0] == dir);
    match current {
        Some(cur) => {
            if cur.len() > 0 && !on_path(cur) {
                let head = cur + ":"@;
                assert(head.drop_last() =~= cur);
                seqs::lemma_split_append(head, ':', dir);
                let parts = seqs::split(cur + ":"@ + dir, ':');
                assert(seqs::split(head, ':') == seqs::split(cur, ':').push(none));
                assert(parts.last() =~= dir);
                assert(parts[parts.len() - 1] == dir);
            }
        },
        None => {},
    }
}

/// What the engine's return code means: it went on, or the message to fail with.
pub fn check(rc: i32, what: &str) -> (r: Result<(), String>)
    ensures
        r is Ok <==> rc >= 0,
        r is Err ==> r->Err_0@ == "machine engine rejected "@ + what@ + " ("@
            + text::decimal_signed(rc as int) + ")"@,
{
    if rc < 0 {
        let mut s = text::concat3("machine engine rejected ", what, " (");
        s.append(text::format_signed(rc as i64).as_str());
        s.append(")");
        return Err(s);
    }
    Ok(())
}

/// The message when the engine returns instead of running the machine.
pub fn start_failure(rc: i32) -> (r: String)
    ensures
        r@ == "machine failed to start ("@ + text::decimal_signed(rc as int) + ")"@,
{
    let n = text::format_signed(rc as i64);
    text::concat3("machine failed to start (", n.as_str(), ")")
}

/// A call to the engine.
pub enum EngineCall {
    LogLevel(u32),
    CreateContext,
    Resources { cpus: u8, ram_mib: u32 },
    /// Attach a raw disk that the guest may write, flushed lazily.
    Disk { id: String, path: String },
    RootRemount { device: String, fstype: String },
    /// Attach the network whose proxy listens on this socket.
    Network { socket: String },
    /// Forward a port of the guest to a socket on the host.
    VsockPort { port: u32, path: String },
    AddConsole,
    /// A serial port on the console that was added.
    SerialPort { name: String, input_fd: i32, output_fd: i32 },
    ConsoleLog(String),
    Workdir(String),
    /// The program that the guest runs, its further arguments, and its environment.
    Program { path: String, args: Vec<String>, env: Vec<String> },
    /// Become the machine.
    Enter,
}

/// What a call says.
pub enum CallModel {
    LogLevel(u32),
    CreateContext,
    Resources { cpus: u8, ram_mib: u32 },
    Disk { id: Seq<char>, path: Seq<char> },
    RootRemount { device: Seq<char>, fstype: Seq<char> },
    Network { socket: Seq<char> },
    VsockPort { port: u32, path: Seq<char> },
    AddConsole,
    SerialPort { name: Seq<char>, input_fd: i32, output_fd: i32 },
    ConsoleLog(Seq<char>),
    Workdir(Seq<char>),
    Program { path: Seq<char>, args: Seq<Seq<char>>, env: Seq<Seq<char>> },
    Enter,
}

impl View for EngineCall {
    type V = CallModel;

    open spec fn view(&self) -> CallModel {
        match self {
            EngineCall::LogLevel(n) => CallModel::LogLevel(*n),
            EngineCall::CreateContext => CallModel::CreateContext,
            EngineCall::Resources { cpus, ram_mib } => CallModel::Resources {
                cpus: *cpus,
                ram_mib: *ram_mib,
            },
            EngineCall::Disk { id, path } => CallModel::Disk { id: id@, path: path@ },
            EngineCall::RootRemount { device, fstype } => CallModel::RootRemount {
                device: device@,
                fstype: fstype@,
            },
            EngineCall::Network { socket } => CallModel::Network { socket: socket@ },
            EngineCall::VsockPort { port, path } => CallModel::VsockPort {
                port: *port,
                path: path@,
            },
            EngineCall::AddConsole => CallModel::AddConsole,
            EngineCall::SerialPort { name, input_fd, output_fd } => CallModel::SerialPort {
                name: name@,
                input_fd: *input_fd,
                output_fd: *output_fd,
            },
            EngineCall::ConsoleLog(p) => CallModel::ConsoleLog(p@),
            EngineCall::Workdir(p) => CallModel::Workdir(p@),
            EngineCall::Program { path, args, env } => CallModel::Program {
                path: path@,
                args: text::texts(args@),
                env: text::texts(env@),
            },
            EngineCall::Enter => CallModel::Enter,
        }
    }
}

/// A call, and what the engine is said to have rejected where it fails.
pub struct Configured {
    pub call: EngineCall,
    pub what: String,
}

/// What the calls of a list say, each with its name.
pub open spec fn configured(calls: Seq<Configured>) -> Seq<(CallModel, Seq<char>)> {
    calls.map_values(|c: Configured| (c.call@, c.what@))
}

/// The message where a call made the machine fail: the engine rejected it,
/// or returned from running the machine at all.
pub open spec fn failure_text(call: CallModel, what: Seq<char>, rc: int) -> Option<Seq<char>> {
    match call {
        CallModel::Enter => Some(
            "machine failed to start ("@ + text::decimal_signed(rc) + ")"@,
        ),
        _ => if rc < 0 {
            Some("machine engine rejected "@ + what + " ("@ + text::decimal_signed(rc) + ")"@)
        } else {
            None
        },
    }
}

/// The message to fail with after a call, where the engine's code asks for it.
pub fn failure(c: &Configured, rc: i32) -> (r: Option<String>)
    ensures
        text::opt_text(r) == failure_text(c.call@, c.what@, rc as int),
{
    match &c.call {
        EngineCall::Enter => Some(start_failure(rc)),
        _ => match check(rc, c.what.as_str()) {
            Ok(()) => None,
            Err(message) => Some(message),
        },
    }
}

/// Everything needed to boot one machine that runs the guest agent.
pub struct MachineConfig {
    pub overlay: String,
    pub cpus: u8,
    pub ram_mib: u32,
    pub console_log: String,
    /// The datagram socket of the machine's network proxy.
    pub net_socket: String,
    /// Read end of the pipe from the host to the guest.
    pub serial_input_fd: i32,
    /// Write end of the pipe from the guest to the host.
    pub serial_output_fd: i32,
}

/// The environment of the guest's program.
pub open spec fn guest_env() -> Seq<Seq<char>> {
    seq![
        "PATH=/usr/local/sbin:/usr/local/bin:/usr/sbin:/usr/bin:/sbin:/bin"@,
        "HOME=/root"@,
        "TERM=xterm"@,
    ]
}

pub fn guest_environment() -> (r: Vec<String>)
    ensures
        text::texts(r@) == guest_env(),
{
    let r = vec![
        "PATH=/usr/local/sbin:/usr/local/bin:/usr/sbin:/usr/bin:/sbin:/bin".to_owned(),
        "HOME=/root".to_owned(),
        "TERM=xterm".to_owned(),
    ];
    assert(text::texts(r@) =~= guest_env());
    r
}

/// The root disk of a machine.
pub open spec fn root_disk(path: Seq<char>) -> CallModel {
    CallModel::Disk { id: "root"@, path }
}

/// The root file system on that disk.
pub open spec fn root_file_system() -> CallModel {
    CallModel::RootRemount { device: "/dev/vda"@, fstype: "ext4"@ }
}

/// The calls that boot a machine with the guest agent, in order.
pub open spec fn boot_calls(cfg: MachineConfig) -> Seq<(CallModel, Seq<char>)> {
    seq![
        (CallModel::LogLevel(0), "log level"@),
        (CallModel::CreateContext, "context"@),
        (CallModel::Resources { cpus: cfg.cpus, ram_mib: cfg.ram_mib }, "resources"@),
        (root_disk(cfg.overlay@), "disk"@),
        (root_file_system(), "root filesystem"@),
        (CallModel::Network { socket: cfg.net_socket@ }, "network"@),
        (CallModel::AddConsole, "exec channel"@),
        (
            CallModel::SerialPort {
                name: EXEC_PORT_NAME@,
                input_fd: cfg.serial_input_fd,
                output_fd: cfg.serial_output_fd,
            },
            "exec port"@,
        ),
        (CallModel::ConsoleLog(cfg.console_log@), "console log"@),
        (CallModel::Workdir("/"@), "workdir"@),
        (
            CallModel::Program { path: AGENT_PATH@, args: seq!["--serial"@], env: guest_env() },
            "agent"@,
        ),
        (CallModel::Enter, "start"@),
    ]
}

pub fn named(call: EngineCall, what: &str) -> (r: Configured)
    ensures
        r.call == call,
        r.what@ == what@,
{
    Configured { call, what: what.to_owned() }
}

/// Configures a machine and enters it. The calls are made in order, up to
/// the first that the engine rejects; the last returns only on failure.
pub fn enter(cfg: &MachineConfig) -> (r: Vec<Configured>)
    ensures
        configured(r@) == boot_calls(*cfg),
{
    let args = vec!["--serial".to_owned()];
    assert(text::texts(args@) =~= seq!["--serial"@]);
    let r = vec![
        named(EngineCall::LogLevel(0), "log level"),
        named(EngineCall::CreateContext, "context"),
        named(EngineCall::Resources { cpus: cfg.cpus, ram_mib: cfg.ram_mib }, "resources"),
        named(EngineCall::Disk { id: "root".to_owned(), path: cfg.overlay.clone() }, "disk"),
        named(
            EngineCall::RootRemount { device: "/dev/vda".to_owned(), fstype: "ext4".to_owned() },
            "root filesystem",
        ),
        named(EngineCall::Network { socket: cfg.net_socket.clone() }, "network"),
        named(EngineCall::AddConsole, "exec channel"),
        named(
            EngineCall::SerialPort {
                name: EXEC_PORT_NAME.to_owned(),
                input_fd: cfg.serial_input_fd,
                output_fd: cfg.serial_output_fd,
            },
            "exec port",
        ),
        named(EngineCall::ConsoleLog(cfg.console_log.clone()), "console log"),
        named(EngineCall::Workdir("/".to_owned()), "workdir"),
        named(
            EngineCall::Program { path: AGENT_PATH.to_owned(), args, env: guest_environment() },
            "agent",
        ),
        named(EngineCall::Enter, "start"),
    ];
    assert(configured(r@) =~= boot_calls(*cfg));
    r
}

} // verus!
