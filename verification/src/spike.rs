//! The spike: a bench that boots machines without the registry.
use crate::seqs;
use crate::text;
use crate::vmm;
use vstd::prelude::*;

verus! {

/// The vsock port of the guest agent.
pub const AGENT_VSOCK_PORT: u32 = 1024;

/// The processors and the memory of a machine of the bench.
pub const BENCH_CPUS: u8 = 1;

pub const BENCH_RAM_MIB: u32 = 512;

/// How the bench talks to the guest agent.
pub enum AgentTransport {
    /// A socket on the host, forwarded to the agent's vsock listener.
    Vsock { host_sock: String },
    /// Pipes wired to a serial port of the guest.
    Serial { input_fd: i32, output_fd: i32 },
}

/// The calls that wire up the transport.
pub open spec fn transport_calls(transport: Option<AgentTransport>) -> Seq<
    (vmm::CallModel, Seq<char>),
> {
    match transport {
        Some(AgentTransport::Vsock { host_sock }) => seq![
            (
                vmm::CallModel::VsockPort { port: AGENT_VSOCK_PORT, path: host_sock@ },
                "exec channel"@,
            ),
        ],
        Some(AgentTransport::Serial { input_fd, output_fd }) => seq![
            (vmm::CallModel::AddConsole, "exec console"@),
            (
                vmm::CallModel::SerialPort { name: vmm::EXEC_PORT_NAME@, input_fd, output_fd },
                "exec port"@,
            ),
        ],
        None => Seq::<(vmm::CallModel, Seq<char>)>::empty(),
    }
}

/// The call that sends the console to a log.
pub open spec fn log_calls(console_log: Option<Seq<char>>) -> Seq<(vmm::CallModel, Seq<char>)> {
    match console_log {
        Some(path) => seq![(vmm::CallModel::ConsoleLog(path), "console log"@)],
        None => Seq::<(vmm::CallModel, Seq<char>)>::empty(),
    }
}

/// The calls that boot a machine of the bench, in order. The first word of
/// the command is the program, the others are its arguments.
pub open spec fn enter_calls(
    disk: Seq<char>,
    argv: Seq<Seq<char>>,
    transport: Option<AgentTransport>,
    console_log: Option<Seq<char>>,
) -> Seq<(vmm::CallModel, Seq<char>)> {
    seq![
        (vmm::CallModel::LogLevel(0), "log level"@),
        (vmm::CallModel::CreateContext, "create context"@),
        (
            vmm::CallModel::Resources { cpus: BENCH_CPUS, ram_mib: BENCH_RAM_MIB },
            "vm config"@,
        ),
        (vmm::root_disk(disk), "attach disk"@),
        (vmm::root_file_system(), "root remount"@),
    ] + transport_calls(transport) + log_calls(console_log) + seq![
        (vmm::CallModel::Workdir("/"@), "workdir"@),
        (
            vmm::CallModel::Program { path: argv[0], args: argv.skip(1), env: vmm::guest_env() },
            "set exec"@,
        ),
        (vmm::CallModel::Enter, "start"@),
    ]
}

fn push_call(
    calls: &mut Vec<vmm::Configured>,
    call: vmm::EngineCall,
    what: &str,
)
    ensures
        vmm::configured(final(calls)@) == vmm::configured(old(calls)@).push((call@, what@)),
{
    let c = vmm::named(call, what);
    calls.push(c);
    assert(vmm::configured(calls@) =~= vmm::configured(old(calls)@).push((c.call@, c.what@)));
}

/// Configures a machine of the bench and enters it.
pub fn enter_machine(
    disk: &str,
    argv: &[String],
    transport: &Option<AgentTransport>,
    console_log: Option<&str>,
) -> (r: Vec<vmm::Configured>)
    requires
        argv@.len() > 0,
    ensures
        vmm::configured(r@) == enter_calls(
            disk@,
            text::texts(argv@),
            *transport,
            text::opt_str(console_log),
        ),
{
    let mut calls: Vec<vmm::Configured> = Vec::new();
    let ghost words = text::texts(argv@);
    push_call(&mut calls, vmm::EngineCall::LogLevel(0), "log level");
    push_call(&mut calls, vmm::EngineCall::CreateContext, "create context");
    push_call(
        &mut calls,
        vmm::EngineCall::Resources { cpus: BENCH_CPUS, ram_mib: BENCH_RAM_MIB },
        "vm config",
    );
    push_call(
        &mut calls,
        vmm::EngineCall::Disk { id: "root".to_owned(), path: disk.to_owned() },
        "attach disk",
    );
    push_call(
        &mut calls,
        vmm::EngineCall::RootRemount { device: "/dev/vda".to_owned(), fstype: "ext4".to_owned() },
        "root remount",
    );
    let ghost head = vmm::configured(calls@);
    match transport {
        Some(AgentTransport::Vsock { host_sock }) => {
            push_call(
                &mut calls,
                vmm::EngineCall::VsockPort { port: AGENT_VSOCK_PORT, path: host_sock.clone() },
                "exec channel",
            );
        },
        Some(AgentTransport::Serial { input_fd, output_fd }) => {
            push_call(&mut calls, vmm::EngineCall::AddConsole, "exec console");
            push_call(
                &mut calls,
                vmm::EngineCall::SerialPort {
                    name: vmm::EXEC_PORT_NAME.to_owned(),
                    input_fd: *input_fd,
                    output_fd: *output_fd,
                },
                "exec port",
            );
        },
        None => {},
    }
    assert(vmm::configured(calls@) =~= head + transport_calls(*transport));
    let ghost wired = vmm::configured(calls@);
    if let Some(log) = console_log {
        push_call(&mut calls, vmm::EngineCall::ConsoleLog(log.to_owned()), "console log");
    }
    assert(vmm::configured(calls@) =~= wired + log_calls(text::opt_str(console_log)));
    push_call(&mut calls, vmm::EngineCall::Workdir("/".to_owned()), "workdir");
    let mut args: Vec<String> = Vec::new();
    let n = argv.len();
    let mut i: usize = 1;
    assert(words.skip(1).take(0) =~= text::texts(args@));
    while i < n
        invariant
            1 <= i <= n,
            n == argv@.len(),
            words == text::texts(argv@),
            text::texts(args@) == words.skip(1).take(i - 1),
        decreases n - i,
    {
        let ghost held = text::texts(args@);
        args.push(argv[i].clone());
        assert(text::texts(args@) =~= held.push(argv@[i as int]@));
        assert(words.skip(1).take(i as int) =~= held.push(words.skip(1)[i - 1]));
        i = i + 1;
    }
    assert(words.skip(1).take(n - 1) =~= words.skip(1));
    assert(words[0] == argv@[0]@);
    push_call(
        &mut calls,
        vmm::EngineCall::Program { path: argv[0].clone(), args, env: vmm::guest_environment() },
        "set exec",
    );
    push_call(&mut calls, vmm::EngineCall::Enter, "start");
    assert(vmm::configured(calls@) =~= enter_calls(
        disk@,
        words,
        *transport,
        text::opt_str(console_log),
    ));
    calls
}

/// The message where a call made the machine fail. What the engine says of
/// the log level does not matter.
pub open spec fn failure_text(call: vmm::CallModel, what: Seq<char>, rc: int) -> Option<Seq<char>> {
    match call {
        vmm::CallModel::LogLevel(_) => None,
        vmm::CallModel::Enter => Some(
            "error: machine failed to start ("@ + text::decimal_signed(rc) + ")"@,
        ),
        _ => if rc < 0 {
            Some("error: "@ + what + " failed ("@ + text::decimal_signed(rc) + ")"@)
        } else {
            None
        },
    }
}

/// The message to fail with after a call, where the engine's code asks for it.
pub fn call_failure(c: &vmm::Configured, rc: i32) -> (r: Option<String>)
    ensures
        text::opt_text(r) == failure_text(c.call@, c.what@, rc as int),
{
    let n = text::format_signed(rc as i64);
    match &c.call {
        vmm::EngineCall::LogLevel(_) => None,
        vmm::EngineCall::Enter => Some(
            text::concat3("error: machine failed to start (", n.as_str(), ")"),
        ),
        _ => {
            if rc >= 0 {
                return None;
            }
            let mut s = text::concat3("error: ", c.what.as_str(), " failed (");
            s.append(n.as_str());
            s.append(")");
            Some(s)
        },
    }
}

/// A shell command as a command line.
pub fn sh(cmd: &str) -> (r: Vec<String>)
    ensures
        text::texts(r@) == seq!["/bin/sh"@, "-c"@, cmd@],
{
    let r = vec!["/bin/sh".to_owned(), "-c".to_owned(), cmd.to_owned()];
    assert(text::texts(r@) =~= seq!["/bin/sh"@, "-c"@, cmd@]);
    r
}

/// The command line of the guest agent.
pub fn agent_argv(mode: &str) -> (r: Vec<String>)
    ensures
        text::texts(r@) == seq![vmm::AGENT_PATH@, mode@],
{
    let r = vec![vmm::AGENT_PATH.to_owned(), mode.to_owned()];
    assert(text::texts(r@) =~= seq![vmm::AGENT_PATH@, mode@]);
    r
}

/// A file in a directory of the bench.
pub open spec fn in_dir(dir: Seq<char>, name: Seq<char>) -> Seq<char> {
    dir + "/"@ + name
}

pub fn file_in(dir: &str, name: &str) -> (r: String)
    ensures
        r@ == in_dir(dir@, name@),
{
    text::concat3(dir, "/", name)
}

/// The registry of the bench.
pub fn registry_path(dir: &str) -> (r: String)
    ensures
        r@ == in_dir(dir@, "registry.txt"@),
{
    file_in(dir, "registry.txt")
}

/// The content hash on a line of the registry, where it is for the handle
/// and the commit.
pub open spec fn line_hash(line: Seq<char>, handle: Seq<char>, head_sha: Seq<char>) -> Option<
    Seq<char>,
> {
    let w = text::words_of(line);
    if w.len() >= 3 && w[0] == handle && w[1] == head_sha {
        Some(w[2])
    } else {
        None
    }
}

/// The content hash recorded last.
pub open spec fn recorded(lines: Seq<Seq<char>>, handle: Seq<char>, head_sha: Seq<char>) -> Option<
    Seq<char>,
>
    decreases lines.len(),
{
    if lines.len() == 0 {
        None
    } else {
        match line_hash(lines.last(), handle, head_sha) {
            Some(hash) => Some(hash),
            None => recorded(lines.drop_last(), handle, head_sha),
        }
    }
}

/// The content hash that the registry records last for the handle and the commit.
pub fn registry_lookup(content: &str, handle: &str, head_sha: &str) -> (r: Option<String>)
    ensures
        text::opt_text(r) == recorded(text::lines_of(content@), handle@, head_sha@),
{
    let lines = text::lines(content);
    let ghost all = text::lines_of(content@);
    let mut i: usize = lines.len();
    assert(all.take(i as int) =~= all);
    while i > 0
        invariant
            i <= lines@.len(),
            text::texts(lines@) == all,
            all == text::lines_of(content@),
            recorded(all, handle@, head_sha@) == recorded(all.take(i as int), handle@, head_sha@),
        decreases i,
    {
        let ghost t = all.take(i as int);
        assert(t.last() == lines@[i - 1]@);
        assert(t.drop_last() =~= all.take(i - 1));
        let w = text::words(lines[i - 1].as_str());
        let ghost said = text::words_of(lines@[i - 1]@);
        assert(said.len() == w@.len());
        if w.len() >= 3 {
            assert(said[0] == w@[0]@ && said[1] == w@[1]@ && said[2] == w@[2]@);
            if text::same(w[0].as_str(), handle) && text::same(w[1].as_str(), head_sha) {
                return Some(w[2].clone());
            }
        }
        i = i - 1;
    }
    None
}

/// A line of the registry.
pub open spec fn record_text(handle: Seq<char>, head_sha: Seq<char>, hash: Seq<char>) -> Seq<char> {
    handle + " "@ + head_sha + " "@ + hash
}

/// The line that records content for a handle and a commit, with its line feed.
pub fn registry_record(handle: &str, head_sha: &str, content_hash: &str) -> (r: String)
    ensures
        r@ == record_text(handle@, head_sha@, content_hash@) + "\n"@,
{
    let mut s = text::concat3(handle, " ", head_sha);
    s.append(" ");
    s.append(content_hash);
    s.append("\n");
    s
}

/// A word: some characters, none of them white space.
pub open spec fn is_word(s: Seq<char>) -> bool {
    s.len() > 0 && forall|i: int| 0 <= i < s.len() ==> !text::is_space(#[trigger] s[i])
}

/// One more word behind a blank.
proof fn lemma_word_behind_blank(s: Seq<char>, w: Seq<char>)
    requires
        is_word(w),
        s.len() > 0 ==> text::is_space(s.last()),
    ensures
        text::words_of(s + w) == text::words_of(s).push(w),
    decreases w.len(),
{
    let t = w.drop_last();
    assert((s + w).drop_last() =~= s + t);
    assert((s + w).last() == w.last());
    assert(!text::is_space(w[w.len() - 1]));
    if t.len() == 0 {
        assert(s + t =~= s);
        assert(w =~= seq![w.last()]);
        if s.len() > 0 {
            assert((s + w)[(s + w).len() - 2] == s.last());
        }
    } else {
        assert forall|i: int| 0 <= i < t.len() implies !text::is_space(#[trigger] t[i]) by {
            assert(t[i] == w[i]);
        }
        lemma_word_behind_blank(s, t);
        let before = text::words_of(s + t);
        assert((s + w)[(s + w).len() - 2] == t.last());
        assert(!text::is_space(t[t.len() - 1]));
        assert(before.last() == t);
        assert(t.push(w.last()) =~= w);
        assert(before.update(before.len() - 1, w) =~= text::words_of(s).push(w));
    }
}

/// A record is read back as its three words.
proof fn lemma_record_words(handle: Seq<char>, head_sha: Seq<char>, hash: Seq<char>)
    requires
        is_word(handle),
        is_word(head_sha),
        is_word(hash),
    ensures
        text::words_of(record_text(handle, head_sha, hash)) == seq![handle, head_sha, hash],
{
    reveal_strlit(" ");
    let none = Seq::<char>::empty();
    lemma_word_behind_blank(none, handle);
    assert(none + handle =~= handle);
    let a = handle + " "@;
    assert(a.drop_last() =~= handle);
    assert(text::is_space(' '));
    lemma_word_behind_blank(a, head_sha);
    let b = a + head_sha + " "@;
    assert(b.drop_last() =~= a + head_sha);
    lemma_word_behind_blank(b, hash);
    assert(text::words_of(record_text(handle, head_sha, hash)) =~= seq![handle, head_sha, hash]);
}

/// What is recorded last for a handle and a commit is what is found.
pub proof fn recorded_is_found(
    lines: Seq<Seq<char>>,
    handle: Seq<char>,
    head_sha: Seq<char>,
    hash: Seq<char>,
)
    requires
        is_word(handle),
        is_word(head_sha),
        is_word(hash),
    ensures
        recorded(lines.push(record_text(handle, head_sha, hash)), handle, head_sha) == Some(hash),
{
    lemma_record_words(handle, head_sha, hash);
}

/// What is recorded for another handle or commit changes nothing.
pub proof fn other_records_do_not_matter(
    lines: Seq<Seq<char>>,
    handle: Seq<char>,
    head_sha: Seq<char>,
    other: Seq<char>,
    other_sha: Seq<char>,
    hash: Seq<char>,
)
    requires
        is_word(other),
        is_word(other_sha),
        is_word(hash),
        other != handle || other_sha != head_sha,
    ensures
        recorded(lines.push(record_text(other, other_sha, hash)), handle, head_sha) == recorded(
            lines,
            handle,
            head_sha,
        ),
{
    lemma_record_words(other, other_sha, hash);
    assert(lines.push(record_text(other, other_sha, hash)).drop_last() =~= lines);
}

/// A machine of the parallel bench.
pub struct Member {
    pub disk: String,
    pub console_log: String,
    /// A command that leaves a mark on the machine's disk and reads it back.
    pub command: String,
    /// What the command is to answer.
    pub expected: String,
}

/// What a member says: its disk, its log, its command and the answer.
pub open spec fn member_model(m: Member) -> (Seq<char>, Seq<char>, Seq<char>, Seq<char>) {
    (m.disk@, m.console_log@, m.command@, m.expected@)
}

/// The `i`-th member.
pub open spec fn member_at(dir: Seq<char>, i: nat) -> (Seq<char>, Seq<char>, Seq<char>, Seq<char>) {
    let n = text::decimal(i);
    (
        dir + "/par-"@ + n + ".img"@,
        "/tmp/moo-spike-par-"@ + n + ".log"@,
        "echo machine-"@ + n + " > /whoami && cat /whoami"@,
        "machine-"@ + n + "\n"@,
    )
}

/// The machines of the parallel bench.
pub fn parallel_members(dir: &str, n: usize) -> (r: Vec<Member>)
    ensures
        r@.len() == n,
        forall|i: int| 0 <= i < n ==> member_model(#[trigger] r@[i]) == member_at(dir@, i as nat),
{
    let mut out: Vec<Member> = Vec::new();
    for i in 0..n
        invariant
            out@.len() == i,
            forall|j: int|
                0 <= j < i ==> member_model(#[trigger] out@[j]) == member_at(dir@, j as nat),
    {
        let d = text::format_decimal(i as u64);
        let mut disk = text::concat3(dir, "/par-", d.as_str());
        disk.append(".img");
        let m = Member {
            disk,
            console_log: text::concat3("/tmp/moo-spike-par-", d.as_str(), ".log"),
            command: text::concat3("echo machine-", d.as_str(), " > /whoami && cat /whoami"),
            expected: text::concat3("machine-", d.as_str(), "\n"),
        };
        out.push(m);
    }
    out
}

/// Machines that run in parallel share no disk, and each is told apart by its answer.
pub proof fn members_are_distinct(dir: Seq<char>, i: nat, j: nat)
    requires
        i != j,
    ensures
        member_at(dir, i).0 != member_at(dir, j).0,
        member_at(dir, i).3 != member_at(dir, j).3,
{
    text::decimal_round_trip(i);
    text::decimal_round_trip(j);
    let a = text::decimal(i);
    let b = text::decimal(j);
    assert(a != b);
    let head = dir + "/par-"@;
    if member_at(dir, i).0 == member_at(dir, j).0 {
        lemma_same_middle(head, a, b, ".img"@);
    }
    if member_at(dir, i).3 == member_at(dir, j).3 {
        lemma_same_middle("machine-"@, a, b, "\n"@);
    }
}

proof fn lemma_same_middle(head: Seq<char>, a: Seq<char>, b: Seq<char>, tail: Seq<char>)
    requires
        head + a + tail == head + b + tail,
    ensures
        a == b,
{
    let x = head + a + tail;
    let y = head + b + tail;
    assert(x.len() == y.len());
    assert(a.len() == b.len());
    assert(a =~= x.subrange(head.len() as int, (head.len() + a.len()) as int));
    assert(b =~= y.subrange(head.len() as int, (head.len() + b.len()) as int));
}

/// Why a member's answer is not accepted.
pub open spec fn answer_problem(i: nat, code: u8, out: Seq<u8>, expected: Seq<char>) -> Option<
    Seq<char>,
> {
    if code != 0 {
        Some("machine "@ + text::decimal(i) + " exec failed"@)
    } else if text::lossy_of(out) != expected {
        Some("machine "@ + text::decimal(i) + " returned wrong identity"@)
    } else {
        None
    }
}

/// Whether a member answered with its own mark.
pub fn check_answer(i: usize, code: u8, out: &[u8], expected: &str) -> (r: Result<(), String>)
    ensures
        match answer_problem(i as nat, code, out@, expected@) {
            None => r is Ok,
            Some(m) => r is Err && r->Err_0@ == m,
        },
{
    let n = text::format_decimal(i as u64);
    if code != 0 {
        return Err(text::concat3("machine ", n.as_str(), " exec failed"));
    }
    if !text::same(text::lossy_text(out).as_str(), expected) {
        return Err(text::concat3("machine ", n.as_str(), " returned wrong identity"));
    }
    Ok(())
}

/// The disks of the end-to-end bench: a handle's slashes become dashes.
pub fn handle_disk(dir: &str, handle: &str, suffix: &str) -> (r: String)
    ensures
        r@ == in_dir(dir@, text::replaced(handle@, '/', "-"@) + suffix@),
{
    let mut name = text::replace_char(handle, '/', "-");
    name.append(suffix);
    file_in(dir, name.as_str())
}

/// The command that ties the state of a machine to a commit.
pub fn mutation(head_sha: &str) -> (r: String)
    ensures
        r@ == "echo "@ + head_sha@ + " > /state-of-commit && sync"@,
{
    text::concat3("echo ", head_sha, " > /state-of-commit && sync")
}

/// True if the captured output shows the mark.
pub fn shows_mark(output: &str, mark: &str) -> (r: bool)
    ensures
        r == text::holds(output@, mark@),
{
    text::contains(output, mark)
}

/// What the bench is asked for.
pub enum Bench {
    /// Boot a disk and run a command in it.
    Boot { disk: String, command: Vec<String> },
    Killgate { base: String },
    VsockBench { base: String, rounds: Option<String> },
    SerialBench { base: String, rounds: Option<String> },
    EndToEnd { base: String, handle: String },
    Parallel { base: String, machines: Option<String> },
    Usage,
}

pub enum BenchModel {
    Boot { disk: Seq<char>, command: Seq<Seq<char>> },
    Killgate { base: Seq<char> },
    VsockBench { base: Seq<char>, rounds: Option<Seq<char>> },
    SerialBench { base: Seq<char>, rounds: Option<Seq<char>> },
    EndToEnd { base: Seq<char>, handle: Seq<char> },
    Parallel { base: Seq<char>, machines: Option<Seq<char>> },
    Usage,
}

impl View for Bench {
    type V = BenchModel;

    open spec fn view(&self) -> BenchModel {
        match self {
            Bench::Boot { disk, command } => BenchModel::Boot {
                disk: disk@,
                command: text::texts(command@),
            },
            Bench::Killgate { base } => BenchModel::Killgate { base: base@ },
            Bench::VsockBench { base, rounds } => BenchModel::VsockBench {
                base: base@,
                rounds: text::opt_text(*rounds),
            },
            Bench::SerialBench { base, rounds } => BenchModel::SerialBench {
                base: base@,
                rounds: text::opt_text(*rounds),
            },
            Bench::EndToEnd { base, handle } => BenchModel::EndToEnd {
                base: base@,
                handle: handle@,
            },
            Bench::Parallel { base, machines } => BenchModel::Parallel {
                base: base@,
                machines: text::opt_text(*machines),
            },
            Bench::Usage => BenchModel::Usage,
        }
    }
}

/// The word at a place, if there is one.
pub open spec fn word_at(words: Seq<Seq<char>>, i: int) -> Option<Seq<char>> {
    if i < words.len() {
        Some(words[i])
    } else {
        None
    }
}

/// The handle of the end-to-end bench where none is given.
pub const BENCH_HANDLE: &'static str = "spike-machine";

/// What the words ask for. Every bench needs a disk image behind its name.
pub open spec fn bench_of(words: Seq<Seq<char>>) -> BenchModel {
    if words.len() < 2 {
        BenchModel::Usage
    } else if words[0] == "boot"@ {
        let sep = seqs::index_of(words, "--"@);
        if sep + 1 >= words.len() {
            BenchModel::Usage
        } else {
            BenchModel::Boot { disk: words[1], command: words.skip(sep + 1) }
        }
    } else if words[0] == "killgate"@ {
        BenchModel::Killgate { base: words[1] }
    } else if words[0] == "vsock-bench"@ {
        BenchModel::VsockBench { base: words[1], rounds: word_at(words, 2) }
    } else if words[0] == "serial-bench"@ {
        BenchModel::SerialBench { base: words[1], rounds: word_at(words, 2) }
    } else if words[0] == "e2e"@ {
        BenchModel::EndToEnd {
            base: words[1],
            handle: if words.len() > 2 {
                words[2]
            } else {
                BENCH_HANDLE@
            },
        }
    } else if words[0] == "parallel"@ {
        BenchModel::Parallel { base: words[1], machines: word_at(words, 2) }
    } else {
        BenchModel::Usage
    }
}

fn third(args: &[String]) -> (r: Option<String>)
    ensures
        text::opt_text(r) == word_at(text::texts(args@), 2),
{
    if args.len() > 2 {
        assert(text::texts(args@)[2] == args@[2]@);
        Some(args[2].clone())
    } else {
        None
    }
}

/// What the arguments of the bench ask for.
pub fn parse_bench(args: &[String]) -> (r: Bench)
    ensures
        r@ == bench_of(text::texts(args@)),
{
    let n = args.len();
    let ghost words = text::texts(args@);
    if n < 2 {
        return Bench::Usage;
    }
    assert(words[0] == args@[0]@ && words[1] == args@[1]@);
    let w = args[0].as_str();
    if text::same(w, "boot") {
        let mut i: usize = 0;
        while i < n && !text::same(args[i].as_str(), "--")
            invariant
                n == args@.len(),
                i <= n,
                words == text::texts(args@),
                forall|j: int| 0 <= j < i ==> #[trigger] words[j] != "--"@,
            decreases n - i,
        {
            assert(words[i as int] == args@[i as int]@);
            i = i + 1;
        }
        proof {
            if i < n {
                assert(words[i as int] == args@[i as int]@);
            }
            seqs::lemma_index_of(words, "--"@, i as int);
        }
        if i >= n - 1 {
            return Bench::Usage;
        }
        let mut command: Vec<String> = Vec::new();
        let ghost tail = words.skip(i as int + 1);
        let mut k: usize = i + 1;
        assert(tail.take(0) =~= text::texts(command@));
        while k < n
            invariant
                n == args@.len(),
                i + 1 <= k <= n,
                words == text::texts(args@),
                tail == words.skip(i as int + 1),
                text::texts(command@) == tail.take(k - i - 1),
            decreases n - k,
        {
            let ghost held = text::texts(command@);
            command.push(args[k].clone());
            assert(text::texts(command@) =~= held.push(args@[k as int]@));
            assert(tail.take(k - i) =~= held.push(tail[k - i - 1]));
            k = k + 1;
        }
        assert(tail.take(n - i - 1) =~= tail);
        return Bench::Boot { disk: args[1].clone(), command };
    }
    let base = args[1].clone();
    if text::same(w, "killgate") {
        Bench::Killgate { base }
    } else if text::same(w, "vsock-bench") {
        Bench::VsockBench { base, rounds: third(args) }
    } else if text::same(w, "serial-bench") {
        Bench::SerialBench { base, rounds: third(args) }
    } else if text::same(w, "e2e") {
        let handle = match third(args) {
            Some(h) => h,
            None => BENCH_HANDLE.to_owned(),
        };
        Bench::EndToEnd { base, handle }
    } else if text::same(w, "parallel") {
        Bench::Parallel { base, machines: third(args) }
    } else {
        Bench::Usage
    }
}

/// What is shown where the arguments of the bench ask for nothing.
pub const BENCH_USAGE: &'static str =
    "usage: spike boot <disk.img> -- <cmd> [args...]\n       spike killgate <base.img>\n       spike vsock-bench <base.img> [n]\n       spike serial-bench <base.img> [n]\n       spike e2e <base.img> [handle]\n       spike parallel <base.img> [n]";

} // verus!
