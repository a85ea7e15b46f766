//! How a machine boots, is supervised and is reached.
use crate::bytes;
use crate::config;
use crate::digest;
use crate::git;
use crate::keys;
use crate::laws::images;
use crate::laws::trees;
use crate::lifecycle;
use crate::network;
use crate::ports;
use crate::proto;
use crate::seqs;
use crate::shim;
use crate::spike;
use crate::store;
use crate::text;
use crate::vmm;
use vstd::prelude::*;

verus! {

/// A machine boots as it is configured. Before the engine is entered, which
/// is the last call and made once, it is given exactly one set of processors
/// and memory, one disk, one network, one port for requests and one program,
/// and they are those of the configuration.
pub proof fn machines_boot_as_configured(calls: Seq<vmm::Configured>, cfg: vmm::MachineConfig)
    requires
        vmm::configured(calls) == vmm::boot_calls(cfg),
    ensures
        calls.len() > 0,
        forall|i: int|
            0 <= i < calls.len() ==> ((#[trigger] calls[i]).call is Enter <==> i == calls.len() - 1),
        exists|i: int| 0 <= i < calls.len() && (#[trigger] calls[i]).call is Resources,
        forall|i: int, j: int|
            0 <= i < calls.len() && 0 <= j < calls.len() && (#[trigger] calls[i]).call is Resources
                && (#[trigger] calls[j]).call is Resources ==> i == j,
        forall|i: int|
            0 <= i < calls.len() && (#[trigger] calls[i]).call is Resources ==> calls[i].call
                == (vmm::EngineCall::Resources { cpus: cfg.cpus, ram_mib: cfg.ram_mib }),
        exists|i: int| 0 <= i < calls.len() && (#[trigger] calls[i]).call is Disk,
        forall|i: int|
            0 <= i < calls.len() && (#[trigger] calls[i]).call is Disk ==> calls[i].call@
                == (vmm::CallModel::Disk { id: "root"@, path: cfg.overlay@ }),
        exists|i: int| 0 <= i < calls.len() && (#[trigger] calls[i]).call is Network,
        forall|i: int|
            0 <= i < calls.len() && (#[trigger] calls[i]).call is Network ==> calls[i].call@
                == (vmm::CallModel::Network { socket: cfg.net_socket@ }),
        exists|i: int| 0 <= i < calls.len() && (#[trigger] calls[i]).call is SerialPort,
        forall|i: int|
            0 <= i < calls.len() && (#[trigger] calls[i]).call is SerialPort ==> calls[i].call@
                == (vmm::CallModel::SerialPort {
                name: "moo-exec"@,
                input_fd: cfg.serial_input_fd,
                output_fd: cfg.serial_output_fd,
            }),
        exists|i: int| 0 <= i < calls.len() && (#[trigger] calls[i]).call is ConsoleLog,
        forall|i: int|
            0 <= i < calls.len() && (#[trigger] calls[i]).call is ConsoleLog ==> calls[i].call@
                == vmm::CallModel::ConsoleLog(cfg.console_log@),
        exists|i: int| 0 <= i < calls.len() && (#[trigger] calls[i]).call is Program,
        forall|i: int|
            0 <= i < calls.len() && (#[trigger] calls[i]).call is Program ==> {
                let program = calls[i].call@;
                &&& program->Program_path == "/usr/local/bin/moo-agent"@
                &&& program->Program_args == seq!["--serial"@]
                &&& program->Program_env == seq![
                    "PATH=/usr/local/sbin:/usr/local/bin:/usr/sbin:/usr/bin:/sbin:/bin"@,
                    "HOME=/root"@,
                    "TERM=xterm"@,
                ]
            },
        exists|i: int| 0 <= i < calls.len() && (#[trigger] calls[i]).call is Workdir,
        forall|i: int|
            0 <= i < calls.len() && (#[trigger] calls[i]).call is Workdir ==> calls[i].call@
                == vmm::CallModel::Workdir("/"@),
        exists|i: int| 0 <= i < calls.len() && (#[trigger] calls[i]).call is RootRemount,
        forall|i: int|
            0 <= i < calls.len() && (#[trigger] calls[i]).call is RootRemount ==> calls[i].call@
                == (vmm::CallModel::RootRemount { device: "/dev/vda"@, fstype: "ext4"@ }),
        forall|i: int| 0 <= i < calls.len() ==> !((#[trigger] calls[i]).call is VsockPort),
        exists|i: int, j: int|
            0 <= i < j < calls.len() && (#[trigger] calls[i]).call is AddConsole && (
            #[trigger] calls[j]).call is SerialPort,
        calls[0].call is LogLevel,
        calls[1].call is CreateContext,
{
    let said = vmm::configured(calls);
    assert(said.len() == calls.len());
    assert(vmm::boot_calls(cfg).len() == 12);
    assert forall|i: int| 0 <= i < calls.len() implies (#[trigger] calls[i]).call@
        == said[i].0 by {}
    assert(calls[0].call@ is LogLevel);
    assert(calls[1].call@ is CreateContext);
    assert(calls[2].call@ == (vmm::CallModel::Resources { cpus: cfg.cpus, ram_mib: cfg.ram_mib }));
    assert(calls[3].call@ is Disk);
    assert(calls[4].call@ is RootRemount);
    assert(calls[5].call@ is Network);
    assert(calls[6].call@ is AddConsole);
    assert(calls[7].call@ is SerialPort);
    assert(calls[8].call@ is ConsoleLog);
    assert(calls[9].call@ is Workdir);
    assert(calls[10].call@ is Program);
    assert(calls[11].call@ is Enter);
}

/// A machine boots with the processors, the memory, the disk and the network
/// that its row in the registry gives it.
pub proof fn rows_decide_what_boots(
    s: shim::Supervisor,
    m: store::Machine,
    dir: Seq<char>,
    root: Seq<char>,
    handle: Seq<char>,
    cfg: vmm::MachineConfig,
    input_fd: i32,
    output_fd: i32,
    calls: Seq<vmm::Configured>,
    i: int,
)
    requires
        s.serves(m, dir, root, handle),
        s.configures(cfg, input_fd, output_fd),
        vmm::configured(calls) == vmm::boot_calls(cfg),
        0 <= i < calls.len(),
    ensures
        calls[i].call is Resources ==> calls[i].call == (vmm::EngineCall::Resources {
            cpus: m.cpus,
            ram_mib: m.ram_mib,
        }),
        calls[i].call is Disk ==> calls[i].call@ == (vmm::CallModel::Disk {
            id: "root"@,
            path: m.overlay_path@,
        }),
        calls[i].call is Network ==> calls[i].call@ == (vmm::CallModel::Network {
            socket: shim::net_file(dir, root, handle, ".net.sock"@),
        }),
        calls[i].call is ConsoleLog ==> calls[i].call@ == vmm::CallModel::ConsoleLog(
            shim::runtime_file(dir, root, handle, ".console.log"@),
        ),
        calls[i].call is SerialPort ==> calls[i].call@ == (vmm::CallModel::SerialPort {
            name: "moo-exec"@,
            input_fd,
            output_fd,
        }),
        s.socket@ == shim::runtime_file(dir, root, handle, ".sock"@),
        s.pid_file@ == shim::runtime_file(dir, root, handle, ".pid"@),
        s.net_api@ == shim::net_file(dir, root, handle, ".net.api.sock"@),
{
    machines_boot_as_configured(calls, cfg);
}

/// A call that the engine rejects fails the machine, and one that it accepts
/// does not; the last call fails it whenever it returns.
pub proof fn rejected_calls_fail(call: vmm::CallModel, what: Seq<char>, rc: int)
    ensures
        vmm::failure_text(call, what, rc) is Some <==> call is Enter || rc < 0,
        spike::failure_text(call, what, rc) is Some <==> call is Enter || !(call is LogLevel) && rc
            < 0,
{
}

/// The loader path of a process that boots a machine leads to the firmware,
/// and everything that was on it stays.
pub proof fn loader_path_keeps(current: Seq<char>)
    ensures
        current.is_prefix_of(vmm::loader_path(Some(current))),
        seqs::split(vmm::loader_path(Some(current)), ':').contains(
            "/opt/homebrew/opt/libkrunfw/lib"@,
        ),
        vmm::loader_path(None) == "/opt/homebrew/opt/libkrunfw/lib"@,
{
    vmm::loader_path_settles(Some(current));
    let now = vmm::loader_path(Some(current));
    assert(current =~= now.take(current.len() as int));
}

/// What the supervisor answers on each event: a request goes to the guest as
/// it is, the guest's answer goes to the client as it is, and a client that
/// gets no answer is told that the machine is shutting down.
pub proof fn clients_are_answered(state: shim::Serving, event: shim::EventModel)
    requires
        shim::expects(state, event),
    ensures
        match event {
            shim::EventModel::Request(q) => shim::served(state, event) == (
                shim::Serving::Handing,
                shim::TurnModel::Forward(q),
            ),
            shim::EventModel::NoRequest => shim::served(state, event) == (
                shim::Serving::Idle,
                shim::TurnModel::Accept,
            ),
            shim::EventModel::Handed(true) => shim::served(state, event) == (
                shim::Serving::Waiting,
                shim::TurnModel::Await,
            ),
            shim::EventModel::Reply(Some((code, out))) => shim::served(state, event) == (
                shim::Serving::Idle,
                shim::TurnModel::Answer(code, out),
            ),
            _ => shim::served(state, event) == (
                shim::Serving::Idle,
                shim::TurnModel::Answer(
                    255,
                    vstd::utf8::encode_utf8("machine is shutting down"@),
                ),
            ),
        },
        state is Idle <==> event is Request || event is NoRequest,
        state is Handing <==> event is Handed,
        state is Waiting <==> event is Reply,
{
}

/// Every port that was settled for a machine is published: the proxy is told
/// to forward each host port of the map, on the host's own address, to the
/// guest port that goes with it, at the guest's address.
pub proof fn ports_are_published(map: Seq<(u16, u16)>)
    ensures
        ({
            let asked = shim::exposures(shim::pairs_of(ports::port_map_text(map)));
            &&& asked.len() == map.len()
            &&& forall|i: int|
                0 <= i < map.len() ==> (#[trigger] asked[i]).0 == "{\"local\":\"127.0.0.1:"@
                    + text::decimal(map[i].0 as nat) + "\",\"remote\":\""@ + "192.168.127.2"@ + ":"@
                    + text::decimal(map[i].1 as nat) + "\"}"@ && asked[i].1 == "expose port "@
                    + text::decimal(map[i].0 as nat) + " -> "@ + text::decimal(map[i].1 as nat)
        }),
{
    reveal_strlit(",");
    let parts = map.map_values(|pair: (u16, u16)| ports::pair_text(pair));
    assert(","@ =~= seq![',']);
    assert forall|i: int| 0 <= i < parts.len() implies !(#[trigger] parts[i]).contains(',')
        && parts[i].len() > 0 by {
        ports::lemma_pair_read(map[i]);
    }
    let none = Seq::<char>::empty();
    if map.len() == 0 {
        assert(ports::port_map_text(map) =~= none);
        let pieces = seqs::split(none, ',');
        assert(pieces.drop_last() =~= Seq::<Seq<char>>::empty());
        assert(seqs::select(pieces.drop_last(), |p: Seq<char>| p.len() > 0) =~= Seq::<
            Seq<char>,
        >::empty());
        assert(shim::pairs_of(none) =~= parts);
    } else {
        seqs::split_of_join(parts, ',');
        ports::lemma_all_kept(parts);
    }
    assert(shim::pairs_of(ports::port_map_text(map)) == parts);
    lemma_exposures(parts, map);
}

proof fn lemma_exposures(parts: Seq<Seq<char>>, map: Seq<(u16, u16)>)
    requires
        parts == map.map_values(|pair: (u16, u16)| ports::pair_text(pair)),
    ensures
        shim::exposures(parts).len() == map.len(),
        forall|i: int|
            0 <= i < map.len() ==> (#[trigger] shim::exposures(parts)[i]).0
                == "{\"local\":\"127.0.0.1:"@ + text::decimal(map[i].0 as nat)
                + "\",\"remote\":\""@ + "192.168.127.2"@ + ":"@ + text::decimal(map[i].1 as nat)
                + "\"}"@ && shim::exposures(parts)[i].1 == "expose port "@ + text::decimal(
                map[i].0 as nat,
            ) + " -> "@ + text::decimal(map[i].1 as nat),
    decreases map.len(),
{
    if map.len() > 0 {
        let t = map.drop_last();
        let before = parts.drop_last();
        assert(before =~= t.map_values(|pair: (u16, u16)| ports::pair_text(pair)));
        lemma_exposures(before, t);
        let n = map.len() - 1;
        assert(parts.last() == ports::pair_text(map[n]));
        lemma_pair_parts(map[n]);
        assert(shim::exposures(parts).drop_last() =~= shim::exposures(before));
        assert forall|i: int| 0 <= i < map.len() implies (#[trigger] shim::exposures(parts)[i]).0
            == "{\"local\":\"127.0.0.1:"@ + text::decimal(map[i].0 as nat) + "\",\"remote\":\""@
            + "192.168.127.2"@ + ":"@ + text::decimal(map[i].1 as nat) + "\"}"@ && shim::exposures(
            parts,
        )[i].1 == "expose port "@ + text::decimal(map[i].0 as nat) + " -> "@ + text::decimal(
            map[i].1 as nat,
        ) by {
            if i < n {
                assert(shim::exposures(parts)[i] == shim::exposures(before)[i]);
                assert(t[i] == map[i]);
            }
        }
    }
}

proof fn lemma_pair_parts(pair: (u16, u16))
    ensures
        shim::pair_parts(ports::pair_text(pair)) == Some(
            (text::decimal(pair.0 as nat), text::decimal(pair.1 as nat)),
        ),
{
    reveal_strlit(":");
    let h = text::decimal(pair.0 as nat);
    let g = text::decimal(pair.1 as nat);
    text::decimal_round_trip(pair.0 as nat);
    let s = ports::pair_text(pair);
    assert(s[h.len() as int] == ':');
    assert forall|j: int| 0 <= j < h.len() implies s[j] != ':' by {
        assert(s[j] == h[j]);
        assert(text::is_digit(h[j]));
    }
    seqs::lemma_index_of(s, ':', h.len() as int);
    assert(s.take(h.len() as int) =~= h);
    assert(s.skip(h.len() as int + 1) =~= g);
}

/// The network proxy listens where the machine and the supervisor look for
/// it, and offers nothing else.
pub proof fn the_proxy_listens(net_socket: Seq<char>, api_socket: Seq<char>)
    ensures
        shim::proxy_words(net_socket, api_socket) == seq![
            "-listen-vfkit"@,
            "unixgram://"@ + net_socket,
            "-listen"@,
            "unix://"@ + api_socket,
            "-ssh-port"@,
            "-1"@,
        ],
{
}

/// The proxy's answer is a success where its status is 200, in either version
/// of the protocol, and only there.
pub proof fn only_status_200_is_a_success(resp: Seq<char>)
    ensures
        shim::post_succeeded(resp) <==> {
            &&& resp.len() >= 12
            &&& resp.take(7) == "HTTP/1."@
            &&& resp[7] == '0' || resp[7] == '1'
            &&& resp[8] == ' '
            &&& resp[9] == '2'
            &&& resp[10] == '0'
            &&& resp[11] == '0'
        },
{
    reveal_strlit("HTTP/1.1 200");
    reveal_strlit("HTTP/1.0 200");
    reveal_strlit("HTTP/1.");
    let a = "HTTP/1.1 200"@;
    let b = "HTTP/1.0 200"@;
    if a.is_prefix_of(resp) {
        assert(a == resp.take(12));
        assert forall|i: int| 0 <= i < 12 implies resp[i] == a[i] by {
            assert(resp.take(12)[i] == resp[i]);
        }
        assert(resp.take(7) =~= "HTTP/1."@);
    }
    if b.is_prefix_of(resp) {
        assert(b == resp.take(12));
        assert forall|i: int| 0 <= i < 12 implies resp[i] == b[i] by {
            assert(resp.take(12)[i] == resp[i]);
        }
        assert(resp.take(7) =~= "HTTP/1."@);
    }
    if resp.len() >= 12 && resp.take(7) == "HTTP/1."@ && (resp[7] == '0' || resp[7] == '1')
        && resp[8] == ' ' && resp[9] == '2' && resp[10] == '0' && resp[11] == '0' {
        assert forall|i: int| 0 <= i < 7 implies resp[i] == "HTTP/1."@[i] by {
            assert(resp.take(7)[i] == resp[i]);
        }
        if resp[7] == '1' {
            assert(a =~= resp.take(12));
        } else {
            assert(b =~= resp.take(12));
        }
    }
}

/// A request to the proxy is sent whole: it names the path, says how long
/// its body is, and ends with the body.
pub proof fn requests_to_the_proxy_are_whole(path: Seq<char>, body: Seq<char>)
    ensures
        shim::post_text(path, body) == "POST "@ + path
            + " HTTP/1.1\r\nHost: net\r\nContent-Type: application/json\r\nContent-Length: "@
            + text::decimal(vstd::utf8::encode_utf8(body).len())
            + "\r\nConnection: close\r\n\r\n"@ + body,
        body.is_suffix_of(shim::post_text(path, body)),
{
    let t = shim::post_text(path, body);
    assert(body =~= t.subrange(t.len() - body.len(), t.len() as int));
}

/// The address of the guest is set with the address at its place: behind the
/// sixteen bytes of the interface's name, the family and a port of zero.
pub proof fn addresses_are_laid_out(name: Seq<char>, addr: Seq<u8>, i: int)
    requires
        vstd::utf8::encode_utf8(name).len() <= 16,
        addr.len() == 4,
    ensures
        ({
            let req = network::interface_request(name, network::inet(addr));
            let wire = vstd::utf8::encode_utf8(name);
            &&& req.len() == 40
            &&& 0 <= i < wire.len() ==> req[i] == wire[i]
            &&& wire.len() <= i < 16 ==> req[i] == 0
            &&& req[16] == 2 && req[17] == 0 && req[18] == 0 && req[19] == 0
            &&& 0 <= i < 4 ==> req[20 + i] == addr[i]
            &&& 24 <= i < 40 ==> req[i] == 0
        }),
{
}

/// The default route leads through the gateway: the destination and the mask
/// are all zeros, the gateway stands at its place, and the route is up.
pub proof fn the_default_route_leads_through_the_gateway(gateway: Seq<u8>, i: int)
    requires
        gateway.len() == 4,
    ensures
        ({
            let route = network::default_route(gateway);
            &&& route.len() == 120
            &&& route[8] == 2 && route[24] == 2 && route[40] == 2
            &&& 0 <= i < 4 ==> route[12 + i] == 0 && route[28 + i] == gateway[i] && route[44 + i]
                == 0
            &&& route[56] == 3 && route[57] == 0
            &&& 0 <= i < 8 ==> route[i] == 0
            &&& 58 <= i < 120 ==> route[i] == 0
        }),
{
}

/// The network comes up in order, whatever else fails: the loopback, the
/// address, the mask, the interface, the route, the resolver. Without a
/// socket nothing is tried, and an interface that does not appear is waited
/// for so often and no longer.
pub proof fn the_network_comes_up_in_order(succeeded: bool, failed: u32)
    ensures
        network::after(network::NetStep::OpenSocket, true) == network::NetStep::LoopbackUp,
        network::after(network::NetStep::OpenSocket, false) == network::NetStep::Done,
        network::after(network::NetStep::LoopbackUp, succeeded) == network::NetStep::SetAddress(0),
        network::after(network::NetStep::SetAddress(failed), true)
            == network::NetStep::SetNetmask,
        failed < 299 ==> network::after(network::NetStep::SetAddress(failed), false)
            == network::NetStep::SetAddress((failed + 1) as u32),
        failed >= 299 ==> network::after(network::NetStep::SetAddress(failed), false)
            == network::NetStep::NoInterface,
        network::after(network::NetStep::SetNetmask, succeeded) == network::NetStep::InterfaceUp,
        network::after(network::NetStep::InterfaceUp, succeeded) == network::NetStep::AddRoute,
        network::after(network::NetStep::AddRoute, succeeded) == network::NetStep::WriteResolver,
        network::after(network::NetStep::WriteResolver, succeeded) == network::NetStep::Done,
        network::after(network::NetStep::NoInterface, succeeded) == network::NetStep::Done,
{
}

/// A failure is told of every step but a try that is repeated, with the
/// error.
pub proof fn network_failures_are_told(step: network::NetStep, error: Seq<char>)
    ensures
        network::complaint(step, error) is None <==> step is SetAddress || step is Done,
        !(step is SetAddress) && !(step is Done) && !(step is NoInterface) ==> error.is_suffix_of(
            network::complaint(step, error)->0,
        ),
{
    if !(step is SetAddress) && !(step is Done) && !(step is NoInterface) {
        let t = network::complaint(step, error)->0;
        assert(error =~= t.subrange(t.len() - error.len(), t.len() as int));
    }
}

/// On the wire a request is the length of the command, the most significant
/// byte first, and the command.
pub proof fn requests_are_laid_out(cmd: Seq<u8>)
    requires
        cmd.len() <= u32::MAX,
    ensures
        ({
            let frame = proto::request(cmd);
            let n = cmd.len();
            &&& frame.len() == n + 4
            &&& frame[0] == n / 0x100_0000
            &&& frame[1] == n / 0x1_0000 % 0x100
            &&& frame[2] == n / 0x100 % 0x100
            &&& frame[3] == n % 0x100
            &&& frame.skip(4) == cmd
        }),
{
    reveal(bytes::be32);
    let frame = proto::request(cmd);
    assert(frame.skip(4) =~= cmd);
}

/// A response is the exit code, the length of the output in the same form,
/// and the output.
pub proof fn responses_are_laid_out(code: u8, out: Seq<u8>)
    requires
        out.len() <= u32::MAX,
    ensures
        ({
            let frame = proto::response(code, out);
            let n = out.len();
            &&& frame.len() == n + 5
            &&& frame[0] == code
            &&& frame[1] == n / 0x100_0000
            &&& frame[2] == n / 0x1_0000 % 0x100
            &&& frame[3] == n / 0x100 % 0x100
            &&& frame[4] == n % 0x100
            &&& frame.skip(5) == out
        }),
{
    reveal(bytes::be32);
    let frame = proto::response(code, out);
    assert(frame.skip(5) =~= out);
}

/// A frame that installs a tree is the reserved word, a NUL, the target, a
/// NUL and the archive.
pub proof fn trees_are_framed(target: Seq<char>, gz_tar: Seq<u8>)
    ensures
        proto::synctree(target, gz_tar) == vstd::utf8::encode_utf8("__synctree__\0"@)
            + vstd::utf8::encode_utf8(target) + seq![0u8] + gz_tar,
{
}

/// Where git knows what is checked out as a branch, and a branch has the
/// machine's name, the machine shadows the tip of that branch. Otherwise it
/// shadows what is checked out.
pub proof fn branches_are_shadowed<G: Fn(Vec<String>) -> Option<String>>(
    run_git: G,
    handle: Seq<char>,
    on_branch: Seq<Seq<char>>,
    tip_of: Seq<Seq<char>>,
    head_of: Seq<Seq<char>>,
    tip: Option<String>,
    head: Option<String>,
    commit: Option<String>,
)
    requires
        on_branch == seq!["symbolic-ref"@, "--quiet"@, "HEAD"@],
        tip_of == seq![
            "rev-parse"@,
            "--verify"@,
            "--quiet"@,
            "refs/heads/"@ + handle + "^{commit}"@,
        ],
        head_of == seq!["rev-parse"@, "--verify"@, "--quiet"@, "HEAD"@ + "^{commit}"@],
        forall|a: Option<String>| #[trigger] git::answered(run_git, tip_of, a) ==> a == tip,
        forall|a: Option<String>| #[trigger] git::answered(run_git, head_of, a) ==> a == head,
        git::shadows(run_git, handle, commit),
    ensures
        (forall|a: Option<String>| #[trigger]
            git::answered(run_git, on_branch, a) ==> a is Some) && tip is Some ==> commit == tip,
        (forall|a: Option<String>| #[trigger]
            git::answered(run_git, on_branch, a) ==> a is None) || tip is None ==> commit == head,
{
    assert(git::branch_args() =~= on_branch);
    assert(git::resolve_args("HEAD"@) =~= head_of);
    assert(git::resolve_args("refs/heads/"@ + handle) =~= tip_of);
}

/// What git is asked about the checkout.
pub proof fn git_is_asked()
    ensures
        git::toplevel_args() == seq!["rev-parse"@, "--show-toplevel"@],
        git::common_dir_args() == seq![
            "rev-parse"@,
            "--path-format=absolute"@,
            "--git-common-dir"@,
        ],
{
}

/// What git answers is what it wrote, without the white space around it, and
/// nothing where it failed or wrote nothing.
pub proof fn git_answers_are_read(success: bool, stdout: Seq<u8>, core: Seq<char>)
    requires
        core.len() > 0,
        !text::is_space(core[0]),
        !text::is_space(core.last()),
        text::lossy_of(stdout) == core + seq!['\n'],
    ensures
        success ==> git::answer_of(success, stdout) == Some(core),
        !success ==> git::answer_of(success, stdout) is None,
{
    let s = core + seq!['\n'];
    assert(s[0] == core[0]);
    assert(text::trimmed_start(s) == s);
    assert(s.drop_last() =~= core);
    assert(text::is_space('\n'));
    assert(text::trimmed_end(s) == text::trimmed_end(core));
    assert(text::trimmed_end(core) == core);
}

/// A machine of the bench boots with one processor and 512 MiB, the disk it
/// is given as its only one, and the command it is given; its console goes to
/// the log where there is one, and requests reach it over the transport where
/// there is one.
pub proof fn bench_machines_boot_as_asked(
    calls: Seq<vmm::Configured>,
    disk: Seq<char>,
    argv: Seq<Seq<char>>,
    transport: Option<spike::AgentTransport>,
    console_log: Option<Seq<char>>,
)
    requires
        argv.len() > 0,
        vmm::configured(calls) == spike::enter_calls(disk, argv, transport, console_log),
    ensures
        calls.len() > 0,
        forall|i: int|
            0 <= i < calls.len() ==> ((#[trigger] calls[i]).call is Enter <==> i == calls.len() - 1),
        exists|i: int| 0 <= i < calls.len() && (#[trigger] calls[i]).call is Resources,
        forall|i: int|
            0 <= i < calls.len() && (#[trigger] calls[i]).call is Resources ==> calls[i].call
                == (vmm::EngineCall::Resources { cpus: 1, ram_mib: 512 }),
        exists|i: int| 0 <= i < calls.len() && (#[trigger] calls[i]).call is Disk,
        forall|i: int|
            0 <= i < calls.len() && (#[trigger] calls[i]).call is Disk ==> calls[i].call@
                == (vmm::CallModel::Disk { id: "root"@, path: disk }),
        exists|i: int| 0 <= i < calls.len() && (#[trigger] calls[i]).call is Program,
        forall|i: int|
            0 <= i < calls.len() && (#[trigger] calls[i]).call is Program
                ==> calls[i].call@->Program_path == argv[0] && seq![argv[0]]
                + calls[i].call@->Program_args == argv,
        transport is Some && transport->0 is Vsock ==> exists|i: int|
            0 <= i < calls.len() && (#[trigger] calls[i]).call@ == (vmm::CallModel::VsockPort {
                port: 1024,
                path: transport->0->host_sock@,
            }),
        transport is Some && transport->0 is Serial ==> exists|i: int|
            0 <= i < calls.len() && (#[trigger] calls[i]).call@ == (vmm::CallModel::SerialPort {
                name: "moo-exec"@,
                input_fd: transport->0->input_fd,
                output_fd: transport->0->output_fd,
            }),
        transport is None ==> forall|i: int|
            0 <= i < calls.len() ==> !((#[trigger] calls[i]).call is SerialPort)
                && !(calls[i].call is VsockPort),
        console_log is Some ==> exists|i: int|
            0 <= i < calls.len() && (#[trigger] calls[i]).call@ == vmm::CallModel::ConsoleLog(
                console_log->0,
            ),
        console_log is None ==> forall|i: int|
            0 <= i < calls.len() ==> !((#[trigger] calls[i]).call is ConsoleLog),
{
    let said = vmm::configured(calls);
    assert(said.len() == calls.len());
    let wires = spike::transport_calls(transport);
    let logs = spike::log_calls(console_log);
    let n = 5 + wires.len() as int;
    let k = n + logs.len() as int;
    assert(calls.len() == k + 3);
    assert forall|i: int| 0 <= i < calls.len() implies (#[trigger] calls[i]).call@
        == said[i].0 by {}
    assert(calls[0].call@ is LogLevel);
    assert(calls[1].call@ is CreateContext);
    assert(calls[2].call@ == (vmm::CallModel::Resources { cpus: 1, ram_mib: 512 }));
    assert(calls[3].call@ is Disk);
    assert(calls[4].call@ is RootRemount);
    if transport is Some && transport->0 is Vsock {
        assert(calls[5].call@ is VsockPort);
    }
    if transport is Some && transport->0 is Serial {
        assert(calls[5].call@ is AddConsole);
        assert(calls[6].call@ is SerialPort);
    }
    if console_log is Some {
        assert(calls[n].call@ is ConsoleLog);
    }
    assert(calls[k].call@ is Workdir);
    assert(calls[k + 1].call@ is Program);
    assert(calls[k + 2].call@ is Enter);
    assert(seq![argv[0]] + argv.skip(1) =~= argv);
}

/// Each bench has its word, and takes the disk image behind it and what
/// follows that.
pub proof fn benches_are_read(base: Seq<char>, more: Seq<Seq<char>>)
    ensures
        spike::bench_of(seq!["killgate"@, base] + more) == (spike::BenchModel::Killgate { base }),
        spike::bench_of(seq!["vsock-bench"@, base] + more) == (spike::BenchModel::VsockBench {
            base,
            rounds: if more.len() > 0 {
                Some(more[0])
            } else {
                None
            },
        }),
        spike::bench_of(seq!["serial-bench"@, base] + more) == (spike::BenchModel::SerialBench {
            base,
            rounds: if more.len() > 0 {
                Some(more[0])
            } else {
                None
            },
        }),
        spike::bench_of(seq!["e2e"@, base] + more) == (spike::BenchModel::EndToEnd {
            base,
            handle: if more.len() > 0 {
                more[0]
            } else {
                "spike-machine"@
            },
        }),
        spike::bench_of(seq!["parallel"@, base] + more) == (spike::BenchModel::Parallel {
            base,
            machines: if more.len() > 0 {
                Some(more[0])
            } else {
                None
            },
        }),
        spike::bench_of(seq![base]) is Usage,
{
    reveal_strlit("boot");
    reveal_strlit("killgate");
    reveal_strlit("vsock-bench");
    reveal_strlit("serial-bench");
    reveal_strlit("e2e");
    reveal_strlit("parallel");
    assert("boot"@.len() == 4 && "killgate"@.len() == 8 && "vsock-bench"@.len() == 11);
    assert("serial-bench"@.len() == 12 && "e2e"@.len() == 3 && "parallel"@.len() == 8);
    assert("killgate"@[0] != "parallel"@[0]);
}

/// The bench boots a disk with the command behind the dashes.
pub proof fn benches_boot_commands(
    disk: Seq<char>,
    between: Seq<Seq<char>>,
    command: Seq<Seq<char>>,
)
    requires
        disk != "--"@,
        !between.contains("--"@),
    ensures
        command.len() > 0 ==> spike::bench_of(
            seq!["boot"@, disk] + between + seq!["--"@] + command,
        ) == (spike::BenchModel::Boot { disk, command }),
        command.len() == 0 ==> spike::bench_of(
            seq!["boot"@, disk] + between + seq!["--"@] + command,
        ) is Usage,
{
    reveal_strlit("boot");
    reveal_strlit("--");
    assert("boot"@.len() == 4 && "--"@.len() == 2);
    let words = seq!["boot"@, disk] + between + seq!["--"@] + command;
    let sep = 2 + between.len() as int;
    assert(words[sep] == "--"@);
    assert forall|j: int| 0 <= j < sep implies words[j] != "--"@ by {
        if j > 1 {
            assert(words[j] == between[j - 2]);
            assert(between.contains(between[j - 2]));
        }
    }
    seqs::lemma_index_of(words, "--"@, sep);
    assert(words.skip(sep + 1) =~= command);
}

/// A member of the parallel bench is accepted exactly where its command
/// succeeded and answered with the mark that it left.
pub proof fn members_answer_for_themselves(i: nat, code: u8, out: Seq<u8>, expected: Seq<char>)
    ensures
        spike::answer_problem(i, code, out, expected) is None <==> code == 0 && text::lossy_of(out)
            == expected,
{
}

/// The supervisor starts the proxy on the sockets that the machine and its own
/// requests use, and publishes every port that the machine's row maps.
pub proof fn rows_decide_what_is_published(
    s: shim::Supervisor,
    m: store::Machine,
    dir: Seq<char>,
    root: Seq<char>,
    handle: Seq<char>,
    map: Seq<(u16, u16)>,
)
    requires
        s.serves(m, dir, root, handle),
        m.port_map@ == ports::port_map_text(map),
    ensures
        text::texts(s.proxy_args@) == seq![
            "-listen-vfkit"@,
            "unixgram://"@ + shim::net_file(dir, root, handle, ".net.sock"@),
            "-listen"@,
            "unix://"@ + shim::net_file(dir, root, handle, ".net.api.sock"@),
            "-ssh-port"@,
            "-1"@,
        ],
        s.exposures@.len() == map.len(),
        forall|i: int|
            0 <= i < map.len() ==> (#[trigger] s.exposures@[i])@.0 == "{\"local\":\"127.0.0.1:"@
                + text::decimal(map[i].0 as nat) + "\",\"remote\":\""@ + "192.168.127.2"@ + ":"@
                + text::decimal(map[i].1 as nat) + "\"}"@,
{
    ports_are_published(map);
    let said = shim::asked(s.exposures@);
    assert(said.len() == s.exposures@.len());
    assert forall|i: int| 0 <= i < map.len() implies (#[trigger] s.exposures@[i])@ == said[i] by {}
}

/// The checkout that a repository's directory belongs to is what stands
/// before its last name, where that is `.git`; any other name tells nothing.
pub proof fn checkouts_are_found(common: Seq<char>, names: Seq<Seq<u8>>, last: Seq<u8>)
    requires
        images::are_names(names.push(last)),
        vstd::utf8::encode_utf8(common) == seq![47u8] + seqs::join(names.push(last), seq![47u8]),
    ensures
        last == vstd::utf8::encode_utf8(".git"@) ==> git::checkout_of(common) == Some(
            seq![47u8] + seqs::join(names, seq![47u8]),
        ),
        last != vstd::utf8::encode_utf8(".git"@) ==> git::checkout_of(common) is None,
{
    let all = names.push(last);
    trees::lemma_absolute_names(all);
    assert(all.last() == last);
    assert(all.drop_last() =~= names);
    assert(all[all.len() - 1] != seq![46u8]);
}

/// Where the proxy refuses a request, its first line is told, and no more.
pub proof fn refusals_are_told(line: Seq<char>, rest: Seq<char>)
    requires
        !line.contains('\n'),
        line.len() > 0,
        line.last() != '\r',
    ensures
        shim::first_line(line + seq!['\r', '\n'] + rest) == line,
        shim::first_line(line + seq!['\n'] + rest) == line,
        shim::first_line(line) == line,
{
    lemma_first_line(line, seq!['\n'] + rest, line);
    assert(line + seq!['\n'] + rest =~= line + (seq!['\n'] + rest));
    let returned = line.push('\r');
    assert(!returned.contains('\n')) by {
        assert forall|i: int| 0 <= i < returned.len() implies returned[i] != '\n' by {
            if i < line.len() {
                assert(returned[i] == line[i]);
                assert(line.contains(line[i]));
            }
        }
    }
    assert(returned.drop_last() =~= line);
    lemma_first_line(returned, seq!['\n'] + rest, line);
    assert(line + seq!['\r', '\n'] + rest =~= returned + (seq!['\n'] + rest));
    let none = Seq::<char>::empty();
    seqs::lemma_split_append(none, '\n', line);
    assert(none + line =~= line);
    assert(seqs::split(none, '\n') =~= seq![none]);
    assert(seqs::split(line, '\n') =~= seq![line]);
}

proof fn lemma_first_line(piece: Seq<char>, more: Seq<char>, line: Seq<char>)
    requires
        !piece.contains('\n'),
        more.len() > 0,
        more[0] == '\n',
        text::without_return(piece) == line,
    ensures
        text::lines_of(piece + more).len() > 0,
        text::lines_of(piece + more)[0] == line,
        seqs::split(piece + more, '\n').len() > 1,
        seqs::split(piece + more, '\n')[0] == piece,
    decreases more.len(),
{
    let all = piece + more;
    let t = more.drop_last();
    assert(all.drop_last() =~= piece + t);
    assert(all.last() == more.last());
    if t.len() == 0 {
        let none = Seq::<char>::empty();
        assert(piece + t =~= piece);
        seqs::lemma_split_append(none, '\n', piece);
        assert(none + piece =~= piece);
        assert(seqs::split(none, '\n') =~= seq![none]);
        assert(seqs::split(piece, '\n') =~= seq![piece]);
    } else {
        assert(t[0] == '\n');
        lemma_first_line(piece, t, line);
    }
    let pieces = seqs::split(all, '\n');
    let whole = pieces.drop_last().map_values(|p: Seq<char>| text::without_return(p));
    assert(whole[0] == text::without_return(pieces[0]));
}

/// An address is written as its four numbers, with dots between them.
pub proof fn addresses_are_dotted(a: u8, b: u8, c: u8, d: u8)
    ensures
        network::dotted(seq![a, b, c, d]) == text::decimal(a as nat) + "."@ + text::decimal(
            b as nat,
        ) + "."@ + text::decimal(c as nat) + "."@ + text::decimal(d as nat),
{
}

/// The guest, its gateway and the mask are one network, and the agent's
/// address is the one at which the proxy looks for the guest.
pub proof fn the_guest_is_where_the_proxy_looks(i: int)
    requires
        0 <= i < 4,
    ensures
        network::GUEST_ADDRESS@ == seq![192u8, 168u8, 127u8, 2u8],
        network::GATEWAY_ADDRESS@ == seq![192u8, 168u8, 127u8, 1u8],
        network::NETMASK@ == seq![255u8, 255u8, 255u8, 0u8],
        network::NETMASK@[i] == 255 ==> network::GUEST_ADDRESS@[i] == network::GATEWAY_ADDRESS@[i],
        shim::GUEST_IP@ == "192.168.127.2"@,
{
}

/// A repository is told apart by the first twelve digits of its digest.
pub proof fn repositories_have_tags(root: Seq<char>, i: int)
    ensures
        keys::tag(root).len() == 12,
        0 <= i < 12 && digest::blake3_of(vstd::utf8::encode_utf8(root)).len() >= 6 ==> keys::tag(
            root,
        )[i] == text::hex_of(digest::blake3_of(vstd::utf8::encode_utf8(root)))[i],
{
    text::hex_is_ascii(digest::blake3_of(vstd::utf8::encode_utf8(root)));
}

/// Waiting ends when the limit is reached, and before that as soon as what is
/// waited for is there; in between there is another look a hundred times a
/// second.
pub proof fn waiting_ends(elapsed: nat, limit: nat, there: bool)
    ensures
        shim::waited(elapsed, limit, there) is TimedOut <==> elapsed >= limit,
        shim::waited(elapsed, limit, there) is Done <==> elapsed < limit && there,
        shim::waited(elapsed, limit, there) is Again ==> shim::waited(elapsed, limit, there)
            == shim::Wait::Again(10),
{
}

/// A machine is supervised exactly where a row has the repository and the
/// handle, with the processors, the memory and the disk of that row.
pub proof fn recorded_machines_are_supervised(
    machines: Seq<store::Machine>,
    root: Seq<char>,
    handle: Seq<char>,
    dir: Seq<char>,
    r: Result<shim::Supervisor, lifecycle::MissingMachine>,
    m: store::Machine,
)
    requires
        shim::supervises(machines, root, handle, dir, r),
    ensures
        r is Ok <==> store::machine_in(machines, root, handle) is Some,
        r is Err ==> r->Err_0.name@ == handle,
        store::machine_in(machines, root, handle) == Some(m) ==> {
            &&& r->Ok_0.cpus == m.cpus
            &&& r->Ok_0.ram_mib == m.ram_mib
            &&& r->Ok_0.overlay@ == m.overlay_path@
        },
{
}

/// All checkouts of a repository belong to its main one: where git's common
/// directory is the `.git` of a checkout, that checkout is the repository,
/// wherever git is asked. Where git knows no common directory there is none,
/// and a common directory of another name leaves the checkout's own top level.
pub proof fn checkouts_share_their_repository<G: Fn(Vec<String>) -> Option<String>>(
    run_git: G,
    asked: Seq<Seq<char>>,
    common: Option<String>,
    root: Option<Seq<u8>>,
    names: Seq<Seq<u8>>,
)
    requires
        asked == seq!["rev-parse"@, "--path-format=absolute"@, "--git-common-dir"@],
        forall|a: Option<String>| #[trigger] git::answered(run_git, asked, a) ==> a == common,
        git::belongs_to(run_git, root),
    ensures
        common is None ==> root is None,
        common is Some && images::are_names(names) && vstd::utf8::encode_utf8(common->0@)
            == seq![47u8] + seqs::join(
            names.push(vstd::utf8::encode_utf8(".git"@)),
            seq![47u8],
        ) ==> root == Some(seq![47u8] + seqs::join(names, seq![47u8])),
{
    assert(git::common_dir_args() =~= asked);
    if common is Some && images::are_names(names) && vstd::utf8::encode_utf8(common->0@)
        == seq![47u8] + seqs::join(names.push(vstd::utf8::encode_utf8(".git"@)), seq![47u8]) {
        let last = vstd::utf8::encode_utf8(".git"@);
        let all = names.push(last);
        lemma_git_is_a_name();
        assert forall|i: int| 0 <= i < all.len() implies (#[trigger] all[i]).len() > 0 && all[i]
            != seq![46u8] && all[i] != seq![46u8, 46u8] && !all[i].contains(47u8) by {
            if i < names.len() {
                assert(all[i] == names[i]);
            }
        }
        checkouts_are_found(common->0@, names, last);
    }
}

proof fn lemma_git_is_a_name()
    ensures
        vstd::utf8::encode_utf8(".git"@).len() == 4,
        !vstd::utf8::encode_utf8(".git"@).contains(47u8),
{
    reveal_strlit(".git");
    let s = ".git"@;
    assert(vstd::utf8::is_ascii_chars(s));
    vstd::utf8::is_ascii_chars_encode_utf8(s);
    let b = vstd::utf8::encode_utf8(s);
    assert forall|i: int| 0 <= i < b.len() implies b[i] != 47u8 by {
        assert(s[i] as u8 == b[i]);
    }
}

/// The project is where git says that the checkout starts, and here where git
/// knows none.
pub proof fn projects_start_at_the_checkout<G: Fn(Vec<String>) -> Option<String>>(
    run_git: G,
    asked: Seq<Seq<char>>,
    top: Option<String>,
    root: Seq<char>,
)
    requires
        asked == seq!["rev-parse"@, "--show-toplevel"@],
        forall|a: Option<String>| #[trigger] git::answered(run_git, asked, a) ==> a == top,
        config::project_at(run_git, root),
    ensures
        top is Some ==> root == top->0@,
        top is None ==> root == "."@,
{
    assert(git::toplevel_args() =~= asked);
}

} // verus!
