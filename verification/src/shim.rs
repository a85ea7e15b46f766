//! The machine supervisor: where its sockets are, what it asks of the
//! network proxy, and how it relays requests between a machine's socket and
//! the guest.
use crate::keys;
use crate::lifecycle;
use crate::paths;
use crate::seqs;
use crate::store;
use crate::text;
use crate::vmm;
use vstd::prelude::*;

verus! {

/// A handle as part of a file name: slashes are percent-encoded.
pub open spec fn sanitized(handle: Seq<char>) -> Seq<char> {
    text::replaced(handle, '/', "%2F"@)
}

pub fn sanitize(handle: &str) -> (r: String)
    ensures
        r@ == sanitized(handle@),
{
    text::replace_char(handle, '/', "%2F")
}

/// Somewhere in the handle stands the encoding of a slash.
pub open spec fn has_encoded_slash(handle: Seq<char>) -> bool {
    exists|i: int| 0 <= i <= handle.len() - 3 && #[trigger] handle.subrange(i, i + 3) == "%2F"@
}

/// A sanitized handle holds no slash, so it names a file in the directory it
/// is joined to.
pub proof fn sanitized_has_no_slash(handle: Seq<char>)
    ensures
        !sanitized(handle).contains('/'),
    decreases handle.len(),
{
    reveal_strlit("%2F");
    if handle.len() > 0 {
        sanitized_has_no_slash(handle.drop_last());
        let before = sanitized(handle.drop_last());
        let now = sanitized(handle);
        assert forall|i: int| 0 <= i < now.len() implies now[i] != '/' by {
            if i < before.len() {
                assert(now[i] == before[i]);
                assert(before.contains(before[i]));
            }
        }
    }
}

/// Two handles in which no encoded slash stands have different sanitized forms.
pub proof fn sanitized_tells_apart(a: Seq<char>, b: Seq<char>)
    requires
        sanitized(a) == sanitized(b),
        !has_encoded_slash(a),
        !has_encoded_slash(b),
    ensures
        a == b,
    decreases a.len(),
{
    reveal_strlit("%2F");
    let x = sanitized(a);
    let y = sanitized(b);
    if a.len() == 0 {
        if b.len() > 0 {
            assert(y.len() > 0);
        }
        assert(a =~= b);
    } else if b.len() == 0 {
        assert(x.len() > 0);
    } else {
        let a1 = a.drop_last();
        let b1 = b.drop_last();
        lemma_no_encoding_before(a);
        lemma_no_encoding_before(b);
        if a.last() == '/' && b.last() == '/' {
            assert(sanitized(a1) =~= x.take(x.len() - 3));
            assert(sanitized(b1) =~= y.take(y.len() - 3));
            sanitized_tells_apart(a1, b1);
            assert(a =~= a1.push('/'));
            assert(b =~= b1.push('/'));
        } else if a.last() == '/' {
            lemma_literal_ending(b, x);
        } else if b.last() == '/' {
            lemma_literal_ending(a, y);
        } else {
            assert(x.last() == a.last());
            assert(y.last() == b.last());
            assert(sanitized(a1) =~= x.drop_last());
            assert(sanitized(b1) =~= y.drop_last());
            sanitized_tells_apart(a1, b1);
            assert(a =~= a1.push(a.last()));
            assert(b =~= b1.push(b.last()));
        }
    }
}

proof fn lemma_no_encoding_before(s: Seq<char>)
    requires
        s.len() > 0,
        !has_encoded_slash(s),
    ensures
        !has_encoded_slash(s.drop_last()),
{
    let t = s.drop_last();
    if has_encoded_slash(t) {
        let i = choose|i: int| 0 <= i <= t.len() - 3 && #[trigger] t.subrange(i, i + 3) == "%2F"@;
        assert(s.subrange(i, i + 3) =~= t.subrange(i, i + 3));
    }
}

/// A handle that does not end in a slash cannot sanitize to a text that ends
/// in an encoded slash, unless it holds one itself.
proof fn lemma_literal_ending(s: Seq<char>, x: Seq<char>)
    requires
        s.len() > 0,
        s.last() != '/',
        x == sanitized(s),
        x.len() >= 3,
        x[x.len() - 1] == 'F',
        x[x.len() - 2] == '2',
        x[x.len() - 3] == '%',
    ensures
        has_encoded_slash(s),
{
    reveal_strlit("%2F");
    let s1 = s.drop_last();
    let x1 = sanitized(s1);
    assert(x == x1.push(s.last()));
    assert(x1.len() >= 2);
    assert(s1.len() > 0);
    assert(x1.last() == '2');
    assert(s1.last() != '/') by {
        if s1.last() == '/' {
            assert(x1.last() == "%2F"@[2]);
        }
    }
    let s2 = s1.drop_last();
    let x2 = sanitized(s2);
    assert(x1 == x2.push(s1.last()));
    assert(s2.len() > 0);
    assert(x2.last() == '%');
    assert(s2.last() != '/') by {
        if s2.last() == '/' {
            assert(x2.last() == "%2F"@[2]);
        }
    }
    let n = s.len();
    assert(s2.last() == s[n - 3]);
    assert(s1.last() == s[n - 2]);
    assert(s.subrange(n - 3, n as int) =~= "%2F"@);
    assert(s.subrange(n - 3, n - 3 + 3) == "%2F"@);
}

/// A file of the machine in the runtime directory.
pub open spec fn runtime_file(
    dir: Seq<char>,
    root: Seq<char>,
    handle: Seq<char>,
    suffix: Seq<char>,
) -> Seq<char> {
    paths::joined(dir, keys::machine_name(root, handle, keys::PERCENT) + suffix)
}

/// Outside of any repository, a handle without dots and percent signs names
/// its files by its sanitized form.
pub proof fn plain_handles_are_sanitized(handle: Seq<char>)
    requires
        !handle.contains('.'),
        !handle.contains('%'),
    ensures
        keys::machine_name(Seq::<char>::empty(), handle, keys::PERCENT) == sanitized(handle),
    decreases handle.len(),
{
    reveal_strlit("%2F");
    if handle.len() > 0 {
        let t = handle.drop_last();
        let c = handle.last();
        assert forall|i: int| 0 <= i < t.len() implies t[i] != '.' && t[i] != '%' by {
            assert(handle.contains(handle[i]));
        }
        assert(handle.contains(handle[handle.len() - 1]));
        plain_handles_are_sanitized(t);
        let nowhere = keys::place(Seq::<char>::empty(), keys::PERCENT);
        assert(nowhere + keys::spelled(t, keys::PERCENT) =~= keys::spelled(t, keys::PERCENT));
        assert("%2F"@ =~= seq!['%', '2', 'F']);
        assert(sanitized(handle) =~= sanitized(t) + keys::code(c, keys::PERCENT));
        assert(nowhere + keys::spelled(handle, keys::PERCENT) =~= sanitized(handle));
    }
}

/// A socket of the machine's network proxy, which decodes percent escapes:
/// no percent sign is in its name.
pub open spec fn net_file(
    dir: Seq<char>,
    root: Seq<char>,
    handle: Seq<char>,
    suffix: Seq<char>,
) -> Seq<char> {
    paths::joined(dir, keys::machine_name(root, handle, keys::UNDERSCORE) + suffix)
}

fn file_in(dir: &str, name: String, suffix: &str) -> (r: String)
    ensures
        r@ == paths::joined(dir@, name@ + suffix@),
{
    let mut n = name;
    n.append(suffix);
    paths::join(dir, n.as_str())
}

/// A file of the machine in the runtime directory.
pub fn runtime_path(runtime_dir: &str, project_root: &str, handle: &str, suffix: &str) -> (r: String)
    ensures
        r@ == runtime_file(runtime_dir@, project_root@, handle@, suffix@),
{
    file_in(runtime_dir, keys::name_machine(project_root, handle, keys::PERCENT), suffix)
}

/// The socket on which the supervisor takes requests.
pub fn socket_path(runtime_dir: &str, project_root: &str, handle: &str) -> (r: String)
    ensures
        r@ == runtime_file(runtime_dir@, project_root@, handle@, ".sock"@),
{
    runtime_path(runtime_dir, project_root, handle, ".sock")
}

pub fn pid_path(runtime_dir: &str, project_root: &str, handle: &str) -> (r: String)
    ensures
        r@ == runtime_file(runtime_dir@, project_root@, handle@, ".pid"@),
{
    runtime_path(runtime_dir, project_root, handle, ".pid")
}

pub fn console_log_path(runtime_dir: &str, project_root: &str, handle: &str) -> (r: String)
    ensures
        r@ == runtime_file(runtime_dir@, project_root@, handle@, ".console.log"@),
{
    runtime_path(runtime_dir, project_root, handle, ".console.log")
}

pub fn engine_log_path(runtime_dir: &str, project_root: &str, handle: &str) -> (r: String)
    ensures
        r@ == runtime_file(runtime_dir@, project_root@, handle@, ".engine.log"@),
{
    runtime_path(runtime_dir, project_root, handle, ".engine.log")
}

/// The datagram socket of the machine's network.
pub fn net_socket_path(runtime_dir: &str, project_root: &str, handle: &str) -> (r: String)
    ensures
        r@ == net_file(runtime_dir@, project_root@, handle@, ".net.sock"@),
{
    file_in(
        runtime_dir,
        keys::name_machine(project_root, handle, keys::UNDERSCORE),
        ".net.sock",
    )
}

/// The control socket of the machine's network.
pub fn net_api_path(runtime_dir: &str, project_root: &str, handle: &str) -> (r: String)
    ensures
        r@ == net_file(runtime_dir@, project_root@, handle@, ".net.api.sock"@),
{
    file_in(
        runtime_dir,
        keys::name_machine(project_root, handle, keys::UNDERSCORE),
        ".net.api.sock",
    )
}

/// Machines do not share files: a file of one machine in the runtime
/// directory is a file of another only where they have the same handle and
/// the same place, and then it is the same file of it.
pub proof fn runtime_files_are_apart(
    dir: Seq<char>,
    root: Seq<char>,
    handle: Seq<char>,
    suffix: Seq<char>,
    other_root: Seq<char>,
    other: Seq<char>,
    other_suffix: Seq<char>,
)
    requires
        suffix.len() > 0 && suffix[0] == '.',
        other_suffix.len() > 0 && other_suffix[0] == '.',
        runtime_file(dir, root, handle, suffix) == runtime_file(
            dir,
            other_root,
            other,
            other_suffix,
        ),
    ensures
        handle == other,
        keys::same_place(root, other_root),
        suffix == other_suffix,
{
    keys::names_are_plain(root, handle, keys::PERCENT);
    keys::names_are_plain(other_root, other, keys::PERCENT);
    keys::files_tell_apart(
        dir,
        keys::machine_name(root, handle, keys::PERCENT),
        suffix,
        keys::machine_name(other_root, other, keys::PERCENT),
        other_suffix,
    );
    keys::names_tell_apart(root, handle, other_root, other, keys::PERCENT);
}

/// Two machines never share network state: machines with different handles
/// or of different places have different network and control sockets, and
/// none of them is the socket on which a supervisor takes requests.
pub proof fn networks_are_apart(
    dir: Seq<char>,
    root: Seq<char>,
    handle: Seq<char>,
    other_root: Seq<char>,
    other: Seq<char>,
)
    ensures
        handle != other || !keys::same_place(root, other_root) ==> {
            &&& net_file(dir, root, handle, ".net.sock"@) != net_file(
                dir,
                other_root,
                other,
                ".net.sock"@,
            )
            &&& net_file(dir, root, handle, ".net.api.sock"@) != net_file(
                dir,
                other_root,
                other,
                ".net.api.sock"@,
            )
        },
        net_file(dir, root, handle, ".net.sock"@) != net_file(
            dir,
            other_root,
            other,
            ".net.api.sock"@,
        ),
        net_file(dir, root, handle, ".net.sock"@) != runtime_file(dir, other_root, other, ".sock"@),
        net_file(dir, root, handle, ".net.api.sock"@) != runtime_file(
            dir,
            other_root,
            other,
            ".sock"@,
        ),
{
    reveal_strlit(".sock");
    reveal_strlit(".net.sock");
    reveal_strlit(".net.api.sock");
    let a = keys::machine_name(root, handle, keys::UNDERSCORE);
    let b = keys::machine_name(other_root, other, keys::UNDERSCORE);
    let c = keys::machine_name(other_root, other, keys::PERCENT);
    keys::names_are_plain(root, handle, keys::UNDERSCORE);
    keys::names_are_plain(other_root, other, keys::UNDERSCORE);
    keys::names_are_plain(other_root, other, keys::PERCENT);
    let net = a + ".net.sock"@;
    let api = a + ".net.api.sock"@;
    if paths::joined(dir, net) == paths::joined(dir, b + ".net.sock"@) {
        keys::names_in_one_directory(dir, net, b + ".net.sock"@);
        assert(a =~= net.take(net.len() - 9));
        assert(b =~= net.take(net.len() - 9));
        keys::names_tell_apart(root, handle, other_root, other, keys::UNDERSCORE);
    }
    if paths::joined(dir, api) == paths::joined(dir, b + ".net.api.sock"@) {
        keys::names_in_one_directory(dir, api, b + ".net.api.sock"@);
        assert(a =~= api.take(api.len() - 13));
        assert(b =~= api.take(api.len() - 13));
        keys::names_tell_apart(root, handle, other_root, other, keys::UNDERSCORE);
    }
    if paths::joined(dir, net) == paths::joined(dir, b + ".net.api.sock"@) {
        keys::names_in_one_directory(dir, net, b + ".net.api.sock"@);
        assert(net[net.len() - 8] == 'n');
        assert((b + ".net.api.sock"@)[net.len() - 8] == 'a');
    }
    if paths::joined(dir, net) == paths::joined(dir, c + ".sock"@) {
        keys::names_in_one_directory(dir, net, c + ".sock"@);
        assert(net[a.len() as int] == '.');
        assert(c.contains(c[a.len() as int]));
    }
    if paths::joined(dir, api) == paths::joined(dir, c + ".sock"@) {
        keys::names_in_one_directory(dir, api, c + ".sock"@);
        assert(api[a.len() as int] == '.');
        assert(c.contains(c[a.len() as int]));
    }
}

/// What is left in the runtime directory when a machine is down, and removed.
pub open spec fn leftovers(dir: Seq<char>, root: Seq<char>, handle: Seq<char>) -> Seq<Seq<char>> {
    seq![
        runtime_file(dir, root, handle, ".sock"@),
        runtime_file(dir, root, handle, ".pid"@),
        net_file(dir, root, handle, ".net.sock"@),
        net_file(dir, root, handle, ".net.api.sock"@),
    ]
}

pub fn runtime_leftovers(runtime_dir: &str, project_root: &str, handle: &str) -> (r: Vec<String>)
    ensures
        text::texts(r@) == leftovers(runtime_dir@, project_root@, handle@),
{
    let r = vec![
        socket_path(runtime_dir, project_root, handle),
        pid_path(runtime_dir, project_root, handle),
        net_socket_path(runtime_dir, project_root, handle),
        net_api_path(runtime_dir, project_root, handle),
    ];
    assert(text::texts(r@) =~= leftovers(runtime_dir@, project_root@, handle@));
    r
}

/// The command line of the network proxy of a machine.
pub open spec fn proxy_words(net_socket: Seq<char>, api_socket: Seq<char>) -> Seq<Seq<char>> {
    seq![
        "-listen-vfkit"@,
        "unixgram://"@ + net_socket,
        "-listen"@,
        "unix://"@ + api_socket,
        "-ssh-port"@,
        "-1"@,
    ]
}

pub fn net_proxy_args(net_socket: &str, api_socket: &str) -> (r: Vec<String>)
    ensures
        text::texts(r@) == proxy_words(net_socket@, api_socket@),
{
    let mut net = "unixgram://".to_owned();
    net.append(net_socket);
    let mut api = "unix://".to_owned();
    api.append(api_socket);
    let r = vec![
        "-listen-vfkit".to_owned(),
        net,
        "-listen".to_owned(),
        api,
        "-ssh-port".to_owned(),
        "-1".to_owned(),
    ];
    assert(text::texts(r@) =~= proxy_words(net_socket@, api_socket@));
    r
}

/// One HTTP POST to the proxy's control socket.
pub open spec fn post_text(path: Seq<char>, body: Seq<char>) -> Seq<char> {
    "POST "@ + path + " HTTP/1.1\r\nHost: net\r\nContent-Type: application/json\r\nContent-Length: "@
        + text::decimal(vstd::utf8::encode_utf8(body).len())
        + "\r\nConnection: close\r\n\r\n"@ + body
}

pub fn net_api_post(path: &str, body: &str) -> (r: String)
    ensures
        r@ == post_text(path@, body@),
{
    let mut s = "POST ".to_owned();
    s.append(path);
    s.append(
        " HTTP/1.1\r\nHost: net\r\nContent-Type: application/json\r\nContent-Length: ",
    );
    s.append(text::format_decimal(body.as_bytes().len() as u64).as_str());
    s.append("\r\nConnection: close\r\n\r\n");
    s.append(body);
    s
}

/// The proxy did what was asked.
pub open spec fn post_succeeded(resp: Seq<char>) -> bool {
    "HTTP/1.1 200"@.is_prefix_of(resp) || "HTTP/1.0 200"@.is_prefix_of(resp)
}

/// The first line of a text; the empty text has none, which reads as empty.
pub open spec fn first_line(s: Seq<char>) -> Seq<char> {
    let lines = text::lines_of(s);
    if lines.len() == 0 {
        Seq::<char>::empty()
    } else {
        lines[0]
    }
}

/// What the proxy's response means: nothing, or the message to fail with.
pub fn net_api_reply(resp: &str) -> (r: Result<(), String>)
    ensures
        r is Ok <==> post_succeeded(resp@),
        r is Err ==> r->Err_0@ == "network control request failed: "@ + first_line(resp@),
{
    if text::starts_with(resp, "HTTP/1.1 200") || text::starts_with(resp, "HTTP/1.0 200") {
        return Ok(());
    }
    let lines = text::lines(resp);
    let mut m = "network control request failed: ".to_owned();
    if lines.len() > 0 {
        m.append(lines[0].as_str());
        assert(text::texts(lines@)[0] == lines@[0]@);
    } else {
        assert(text::texts(lines@).len() == 0);
        assert(m@ =~= "network control request failed: "@ + first_line(resp@));
    }
    Err(m)
}

/// The pairs of a port map: its comma-separated parts that are not empty.
pub open spec fn pairs_of(port_map: Seq<char>) -> Seq<Seq<char>> {
    seqs::select(seqs::split(port_map, ','), |p: Seq<char>| p.len() > 0)
}

pub fn port_pairs(port_map: &str) -> (r: Vec<String>)
    ensures
        text::texts(r@) == pairs_of(port_map@),
{
    let pieces = text::split_on(port_map, ',');
    let ghost all = seqs::split(port_map@, ',');
    let ghost keep = |p: Seq<char>| p.len() > 0;
    let mut out: Vec<String> = Vec::new();
    for i in 0..pieces.len()
        invariant
            text::texts(pieces@) == all,
            keep == (|p: Seq<char>| p.len() > 0),
            text::texts(out@) == seqs::select(all.take(i as int), keep),
    {
        let ghost t = all.take(i as int + 1);
        assert(t.drop_last() =~= all.take(i as int));
        assert(t.last() == pieces@[i as int]@);
        if !pieces[i].as_str().is_empty() {
            let ghost held = text::texts(out@);
            out.push(pieces[i].clone());
            assert(text::texts(out@) =~= held.push(pieces@[i as int]@));
        }
    }
    assert(all.take(all.len() as int) =~= all);
    out
}

/// The guest's address in its private network.
pub const GUEST_IP: &'static str = "192.168.127.2";

/// A port of the host that forwards to a port of the guest.
pub struct Forward {
    pub host: String,
    pub guest: String,
}

/// The host and the guest port of a "host:guest" pair.
pub open spec fn pair_parts(pair: Seq<char>) -> Option<(Seq<char>, Seq<char>)> {
    let i = seqs::index_of(pair, ':');
    if i >= pair.len() {
        None
    } else {
        Some((pair.take(i), pair.skip(i + 1)))
    }
}

pub fn split_pair(pair: &str) -> (r: Option<Forward>)
    ensures
        match r {
            Some(f) => pair_parts(pair@) == Some((f.host@, f.guest@)),
            None => pair_parts(pair@) is None,
        },
{
    let cs = text::chars_of(pair);
    let i = text::position(&cs, ':');
    if i == cs.len() {
        return None;
    }
    let host = text::text_of(&cs, 0, i);
    let guest = text::text_of(&cs, i + 1, cs.len());
    assert(host@ =~= pair@.take(i as int));
    assert(guest@ =~= pair@.skip(i as int + 1));
    Some(Forward { host, guest })
}

/// A request to publish a port: what the proxy is sent, and what is said of
/// it where that fails.
pub struct Exposure {
    pub body: String,
    pub purpose: String,
}

impl View for Exposure {
    type V = (Seq<char>, Seq<char>);

    open spec fn view(&self) -> (Seq<char>, Seq<char>) {
        (self.body@, self.purpose@)
    }
}

/// What the proxy is asked for one pair; pairs without a colon ask for nothing.
pub open spec fn exposure(pair: Seq<char>) -> Option<(Seq<char>, Seq<char>)> {
    match pair_parts(pair) {
        Some((host, guest)) => Some(
            (
                "{\"local\":\"127.0.0.1:"@ + host + "\",\"remote\":\""@ + GUEST_IP@ + ":"@ + guest
                    + "\"}"@,
                "expose port "@ + host + " -> "@ + guest,
            ),
        ),
        None => None,
    }
}

/// The requests to publish each pair.
pub open spec fn exposures(pairs: Seq<Seq<char>>) -> Seq<(Seq<char>, Seq<char>)>
    decreases pairs.len(),
{
    if pairs.len() == 0 {
        Seq::<(Seq<char>, Seq<char>)>::empty()
    } else {
        match exposure(pairs.last()) {
            Some(e) => exposures(pairs.drop_last()).push(e),
            None => exposures(pairs.drop_last()),
        }
    }
}

/// What the requests of a list say.
pub open spec fn asked(list: Seq<Exposure>) -> Seq<(Seq<char>, Seq<char>)> {
    list.map_values(|e: Exposure| e@)
}

/// Where the proxy takes requests to publish ports.
pub const EXPOSE_PATH: &'static str = "/services/forwarder/expose";

fn exposure_of(f: &Forward) -> (r: Exposure)
    ensures
        r.body@ == "{\"local\":\"127.0.0.1:"@ + f.host@ + "\",\"remote\":\""@ + GUEST_IP@ + ":"@
            + f.guest@ + "\"}"@,
        r.purpose@ == "expose port "@ + f.host@ + " -> "@ + f.guest@,
{
    let mut body = "{\"local\":\"127.0.0.1:".to_owned();
    body.append(f.host.as_str());
    body.append("\",\"remote\":\"");
    body.append(GUEST_IP);
    body.append(":");
    body.append(f.guest.as_str());
    body.append("\"}");
    let mut purpose = "expose port ".to_owned();
    purpose.append(f.host.as_str());
    purpose.append(" -> ");
    purpose.append(f.guest.as_str());
    Exposure { body, purpose }
}

/// The requests that publish each "host:guest" pair: the port of the host
/// forwards to the guest's address inside its private network.
pub fn expose_ports(pairs: &[String]) -> (r: Vec<Exposure>)
    ensures
        asked(r@) == exposures(text::texts(pairs@)),
{
    let mut out: Vec<Exposure> = Vec::new();
    let ghost all = text::texts(pairs@);
    for i in 0..pairs.len()
        invariant
            all == text::texts(pairs@),
            asked(out@) == exposures(all.take(i as int)),
    {
        let ghost t = all.take(i as int + 1);
        assert(t.drop_last() =~= all.take(i as int));
        assert(t.last() == pairs@[i as int]@);
        if let Some(f) = split_pair(pairs[i].as_str()) {
            let e = exposure_of(&f);
            let ghost held = asked(out@);
            out.push(e);
            assert(asked(out@) =~= held.push(e@));
        }
    }
    assert(all.take(all.len() as int) =~= all);
    out
}

/// What the supervisor answers when the guest does not.
pub const SHUTTING_DOWN: &'static str = "machine is shutting down";

/// The reply to the client: the guest's, or that the machine is going down
/// where the request could not be handed on or nothing came back.
pub fn relay(sent: bool, reply: Option<(u8, Vec<u8>)>) -> (r: (u8, Vec<u8>))
    ensures
        sent && reply is Some ==> r == reply->0,
        !(sent && reply is Some) ==> r.0 == 255 && r.1@ == vstd::utf8::encode_utf8(SHUTTING_DOWN@),
{
    if sent {
        if let Some(answer) = reply {
            return answer;
        }
    }
    let b = SHUTTING_DOWN.as_bytes();
    let mut out: Vec<u8> = Vec::new();
    out.extend_from_slice(b);
    (255, out)
}

/// Where the supervisor is with the requests of its clients.
#[derive(Clone, Copy, PartialEq, Eq, Structural)]
pub enum Serving {
    /// No request is open.
    Idle,
    /// A request is being handed to the guest.
    Handing,
    /// The guest has the request and has not answered.
    Waiting,
}

/// What happened.
pub enum Event {
    /// A connection delivered a request.
    Request(Vec<u8>),
    /// A connection delivered no complete request.
    NoRequest,
    /// The request was handed to the guest, or could not be.
    Handed(bool),
    /// What came back from the guest: its answer, or nothing.
    Reply(Option<(u8, Vec<u8>)>),
}

pub enum EventModel {
    Request(Seq<u8>),
    NoRequest,
    Handed(bool),
    Reply(Option<(u8, Seq<u8>)>),
}

impl View for Event {
    type V = EventModel;

    open spec fn view(&self) -> EventModel {
        match self {
            Event::Request(q) => EventModel::Request(q@),
            Event::NoRequest => EventModel::NoRequest,
            Event::Handed(b) => EventModel::Handed(*b),
            Event::Reply(None) => EventModel::Reply(None),
            Event::Reply(Some(a)) => EventModel::Reply(Some((a.0, a.1@))),
        }
    }
}

/// What the supervisor does next.
pub enum Turn {
    /// Take the next connection.
    Accept,
    /// Hand this request to the guest.
    Forward(Vec<u8>),
    /// Wait for the guest's answer.
    Await,
    /// Write this answer to the connection, and take the next one.
    Answer(u8, Vec<u8>),
}

pub enum TurnModel {
    Accept,
    Forward(Seq<u8>),
    Await,
    Answer(u8, Seq<u8>),
}

impl View for Turn {
    type V = TurnModel;

    open spec fn view(&self) -> TurnModel {
        match self {
            Turn::Accept => TurnModel::Accept,
            Turn::Forward(q) => TurnModel::Forward(q@),
            Turn::Await => TurnModel::Await,
            Turn::Answer(code, out) => TurnModel::Answer(*code, out@),
        }
    }
}

/// The event can happen now. A connection is taken only while no request is open.
pub open spec fn expects(state: Serving, event: EventModel) -> bool {
    match state {
        Serving::Idle => event is Request || event is NoRequest,
        Serving::Handing => event is Handed,
        Serving::Waiting => event is Reply,
    }
}

/// The answer where the guest gives none.
pub open spec fn gone() -> TurnModel {
    TurnModel::Answer(255, vstd::utf8::encode_utf8(SHUTTING_DOWN@))
}

/// What follows on an event.
pub open spec fn served(state: Serving, event: EventModel) -> (Serving, TurnModel) {
    match event {
        EventModel::Request(q) => (Serving::Handing, TurnModel::Forward(q)),
        EventModel::NoRequest => (Serving::Idle, TurnModel::Accept),
        EventModel::Handed(true) => (Serving::Waiting, TurnModel::Await),
        EventModel::Handed(false) => (Serving::Idle, gone()),
        EventModel::Reply(Some((code, out))) => (Serving::Idle, TurnModel::Answer(code, out)),
        EventModel::Reply(None) => (Serving::Idle, gone()),
    }
}

/// One turn of the supervisor.
pub fn serve(state: Serving, event: Event) -> (r: (Serving, Turn))
    requires
        expects(state, event@),
    ensures
        r.0 == served(state, event@).0,
        r.1@ == served(state, event@).1,
{
    match event {
        Event::Request(q) => (Serving::Handing, Turn::Forward(q)),
        Event::NoRequest => (Serving::Idle, Turn::Accept),
        Event::Handed(true) => (Serving::Waiting, Turn::Await),
        Event::Handed(false) => {
            let (code, out) = relay(false, None);
            (Serving::Idle, Turn::Answer(code, out))
        },
        Event::Reply(reply) => {
            let (code, out) = relay(true, reply);
            (Serving::Idle, Turn::Answer(code, out))
        },
    }
}

/// A request is handed on unchanged and answered once: with the guest's
/// answer unchanged, or that the machine is going down. Until then no other
/// request is taken.
pub proof fn requests_are_served_one_by_one(
    request: Seq<u8>,
    handed: bool,
    reply: Option<(u8, Seq<u8>)>,
)
    ensures
        ({
            let first = served(Serving::Idle, EventModel::Request(request));
            let second = served(first.0, EventModel::Handed(handed));
            let third = served(second.0, EventModel::Reply(reply));
            &&& first.1 == TurnModel::Forward(request)
            &&& !handed ==> second == (Serving::Idle, gone())
            &&& handed ==> second.1 == TurnModel::Await
            &&& handed ==> third == match reply {
                Some((code, out)) => (Serving::Idle, TurnModel::Answer(code, out)),
                None => (Serving::Idle, gone()),
            }
            &&& forall|q: Seq<u8>| !#[trigger] expects(first.0, EventModel::Request(q))
            &&& handed ==> forall|q: Seq<u8>|
                !#[trigger] expects(second.0, EventModel::Request(q))
        }),
{
}

/// What to do while waiting for something to come up or go away.
#[derive(PartialEq, Eq, Structural)]
pub enum Wait {
    Done,
    /// Look again after this many milliseconds.
    Again(u64),
    TimedOut,
}

/// What one look while waiting tells.
pub open spec fn waited(elapsed_ms: nat, limit_ms: nat, there: bool) -> Wait {
    if elapsed_ms >= limit_ms {
        Wait::TimedOut
    } else if there {
        Wait::Done
    } else {
        Wait::Again(10)
    }
}

/// One look while waiting: time runs out at the limit, not before.
pub fn wait_step(elapsed_ms: u64, limit_ms: u64, there: bool) -> (r: Wait)
    ensures
        r == waited(elapsed_ms as nat, limit_ms as nat, there),
{
    if elapsed_ms >= limit_ms {
        Wait::TimedOut
    } else if there {
        Wait::Done
    } else {
        Wait::Again(10)
    }
}

/// How long a machine has to come up or to go down, in milliseconds.
pub const MACHINE_LIMIT_MS: u64 = 10000;

/// How long the network proxy has to come up, in milliseconds.
pub const NETWORK_LIMIT_MS: u64 = 5000;

/// The lifecycle of a machine whose supervisor serves it.
pub const LIVE: &'static str = "live";

/// The lifecycle of a machine whose guest has powered off.
pub const SEALED: &'static str = "sealed";

/// What a supervisor needs to bring its machine up: where its files are, how
/// the network proxy is started and told to publish the ports, and the
/// machine's disk and resources.
pub struct Supervisor {
    pub socket: String,
    pub pid_file: String,
    pub console_log: String,
    pub net_socket: String,
    pub net_api: String,
    pub proxy_args: Vec<String>,
    pub exposures: Vec<Exposure>,
    pub overlay: String,
    pub cpus: u8,
    pub ram_mib: u32,
}

impl Supervisor {
    /// The supervisor serves this machine from this runtime directory.
    pub open spec fn serves(
        self,
        m: store::Machine,
        dir: Seq<char>,
        root: Seq<char>,
        handle: Seq<char>,
    ) -> bool {
        &&& self.socket@ == runtime_file(dir, root, handle, ".sock"@)
        &&& self.pid_file@ == runtime_file(dir, root, handle, ".pid"@)
        &&& self.console_log@ == runtime_file(dir, root, handle, ".console.log"@)
        &&& self.net_socket@ == net_file(dir, root, handle, ".net.sock"@)
        &&& self.net_api@ == net_file(dir, root, handle, ".net.api.sock"@)
        &&& text::texts(self.proxy_args@) == proxy_words(self.net_socket@, self.net_api@)
        &&& asked(self.exposures@) == exposures(pairs_of(m.port_map@))
        &&& self.overlay@ == m.overlay_path@
        &&& self.cpus == m.cpus
        &&& self.ram_mib == m.ram_mib
    }

    /// The engine boots this machine, with these pipes to the guest.
    pub open spec fn configures(
        self,
        cfg: vmm::MachineConfig,
        input_fd: i32,
        output_fd: i32,
    ) -> bool {
        &&& cfg.overlay@ == self.overlay@
        &&& cfg.cpus == self.cpus
        &&& cfg.ram_mib == self.ram_mib
        &&& cfg.console_log@ == self.console_log@
        &&& cfg.net_socket@ == self.net_socket@
        &&& cfg.serial_input_fd == input_fd
        &&& cfg.serial_output_fd == output_fd
    }

    /// What the engine boots, once the pipes to the guest are open.
    pub fn machine_config(&self, input_fd: i32, output_fd: i32) -> (r: vmm::MachineConfig)
        ensures
            self.configures(r, input_fd, output_fd),
    {
        vmm::MachineConfig {
            overlay: self.overlay.clone(),
            cpus: self.cpus,
            ram_mib: self.ram_mib,
            console_log: self.console_log.clone(),
            net_socket: self.net_socket.clone(),
            serial_input_fd: input_fd,
            serial_output_fd: output_fd,
        }
    }
}

/// The machine exists and is served, or it is missing.
pub open spec fn supervises(
    machines: Seq<store::Machine>,
    root: Seq<char>,
    handle: Seq<char>,
    dir: Seq<char>,
    r: Result<Supervisor, lifecycle::MissingMachine>,
) -> bool {
    match store::machine_in(machines, root, handle) {
        Some(m) => r is Ok && r->Ok_0.serves(m, dir, root, handle),
        None => r is Err && r->Err_0.name@ == handle,
    }
}

/// What the supervisor of a machine does: everything about the machine comes
/// from its row.
pub fn run(reg: &store::Registry, project_root: &str, handle: &str, runtime_dir: &str) -> (r: Result<
    Supervisor,
    lifecycle::MissingMachine,
>)
    ensures
        supervises(reg.machines@, project_root@, handle@, runtime_dir@, r),
{
    let m = match reg.get_machine(project_root, handle) {
        Some(m) => m,
        None => return Err(lifecycle::MissingMachine { name: handle.to_owned() }),
    };
    let net_socket = net_socket_path(runtime_dir, project_root, handle);
    let net_api = net_api_path(runtime_dir, project_root, handle);
    let proxy_args = net_proxy_args(net_socket.as_str(), net_api.as_str());
    let pairs = port_pairs(m.port_map.as_str());
    Ok(
        Supervisor {
            socket: socket_path(runtime_dir, project_root, handle),
            pid_file: pid_path(runtime_dir, project_root, handle),
            console_log: console_log_path(runtime_dir, project_root, handle),
            net_socket,
            net_api,
            proxy_args,
            exposures: expose_ports(&pairs),
            overlay: m.overlay_path,
            cpus: m.cpus,
            ram_mib: m.ram_mib,
        },
    )
}

/// The machine gets the network that its proxy serves: the proxy listens on
/// the socket that the engine attaches before it starts the machine.
pub proof fn network_is_attached(
    s: Supervisor,
    m: store::Machine,
    dir: Seq<char>,
    root: Seq<char>,
    handle: Seq<char>,
    cfg: vmm::MachineConfig,
)
    requires
        s.serves(m, dir, root, handle),
        cfg.net_socket@ == s.net_socket@,
    ensures
        text::texts(s.proxy_args@)[1] == "unixgram://"@ + net_file(dir, root, handle, ".net.sock"@),
        exists|i: int, j: int|
            0 <= i < j < vmm::boot_calls(cfg).len() && (#[trigger] vmm::boot_calls(cfg)[i]).0
                == (vmm::CallModel::Network { socket: net_file(dir, root, handle, ".net.sock"@) })
                && (#[trigger] vmm::boot_calls(cfg)[j]).0 == vmm::CallModel::Enter,
{
    let calls = vmm::boot_calls(cfg);
    assert(calls[5].0 == (vmm::CallModel::Network { socket: cfg.net_socket@ }));
    assert(calls[11].0 == vmm::CallModel::Enter);
}

/// The message where no one answers for a machine.
pub fn not_running(handle: &str) -> (r: String)
    ensures
        r@ == "machine '"@ + handle@ + "' is not running"@,
{
    text::concat3("machine '", handle, "' is not running")
}

/// The message where a machine did not come up in time.
pub fn did_not_come_up(handle: &str) -> (r: String)
    ensures
        r@ == "machine '"@ + handle@ + "' did not come up"@,
{
    text::concat3("machine '", handle, "' did not come up")
}

/// The message where a machine did not go down in time.
pub fn did_not_shut_down(handle: &str) -> (r: String)
    ensures
        r@ == "machine '"@ + handle@ + "' did not shut down"@,
{
    text::concat3("machine '", handle, "' did not shut down")
}

} // verus!
