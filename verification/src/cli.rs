//! The command line: what the arguments ask for, and what is reported.
use crate::lifecycle;
use crate::seqs;
use crate::shell;
use crate::store;
use crate::sync;
use crate::text;
use vstd::prelude::*;

verus! {

/// What the first argument asks for.
#[derive(PartialEq, Eq, Structural)]
pub enum Verb {
    New,
    Run,
    Save,
    Drop,
    Ls,
    Open,
    Doctor,
    /// The supervisor of a machine.
    Shim,
    Usage,
}

/// The verb that a word names.
pub open spec fn verb_of(word: Option<Seq<char>>) -> Verb {
    match word {
        None => Verb::Usage,
        Some(w) => if w == "new"@ {
            Verb::New
        } else if w == "run"@ {
            Verb::Run
        } else if w == "save"@ {
            Verb::Save
        } else if w == "drop"@ {
            Verb::Drop
        } else if w == "ls"@ {
            Verb::Ls
        } else if w == "open"@ {
            Verb::Open
        } else if w == "doctor"@ {
            Verb::Doctor
        } else if w == "__shim"@ {
            Verb::Shim
        } else {
            Verb::Usage
        },
    }
}

/// The first of the words.
pub open spec fn first_of(words: Seq<Seq<char>>) -> Option<Seq<char>> {
    if words.len() == 0 {
        None
    } else {
        Some(words[0])
    }
}

/// The verb that the arguments start with.
pub fn dispatch(args: &[String]) -> (r: Verb)
    ensures
        r == verb_of(first_of(text::texts(args@))),
{
    if args.len() == 0 {
        return Verb::Usage;
    }
    assert(text::texts(args@)[0] == args@[0]@);
    let w = args[0].as_str();
    if text::same(w, "new") {
        Verb::New
    } else if text::same(w, "run") {
        Verb::Run
    } else if text::same(w, "save") {
        Verb::Save
    } else if text::same(w, "drop") {
        Verb::Drop
    } else if text::same(w, "ls") {
        Verb::Ls
    } else if text::same(w, "open") {
        Verb::Open
    } else if text::same(w, "doctor") {
        Verb::Doctor
    } else if text::same(w, "__shim") {
        Verb::Shim
    } else {
        Verb::Usage
    }
}

/// What is shown where the arguments ask for nothing.
pub const USAGE: &'static str =
    "moo \u{2014} git for the machine\n\nusage:\n  moo new <name> [from <src>] [--detached]   create a machine (restores the\n                                             snapshot for the current commit\n                                             if one was saved)\n  moo run <name> -- <cmd> [args...]          execute inside the machine\n  moo save [<name>]                          snapshot state, tag with the\n                                             current commit\n  moo drop <name> [--force] [--snapshots]    destroy the machine (saved\n                                             snapshots survive by default)\n\n  moo ls                                     list machines and snapshots\n  moo open <name> [guest-port] [/path]       open a forwarded port in the\n                                             browser (port optional when the\n                                             machine forwards exactly one)\n  moo doctor                                 check this host can run machines";

/// The exit code where the usage is shown.
pub const USAGE_CODE: i32 = 2;

/// What `new` is asked for.
pub struct NewArgs {
    pub name: Option<String>,
    pub from: Option<String>,
    pub detached: bool,
}

pub struct NewArgsModel {
    pub name: Option<Seq<char>>,
    pub from: Option<Seq<char>>,
    pub detached: bool,
}

impl View for NewArgs {
    type V = NewArgsModel;

    open spec fn view(&self) -> NewArgsModel {
        NewArgsModel {
            name: text::opt_text(self.name),
            from: text::opt_text(self.from),
            detached: self.detached,
        }
    }
}

pub open spec fn unexpected(word: Seq<char>) -> Seq<char> {
    "unexpected argument '"@ + word + "'"@
}

/// The message where `from` is the last word.
pub const FROM_WHAT: &'static str = "'from' needs a source (ref, commit, snapshot, or machine)";

/// What the words say, given what the words before them said: a source
/// behind `from`, a flag, and one name.
pub open spec fn new_words(words: Seq<Seq<char>>, before: NewArgsModel) -> Result<
    NewArgsModel,
    Seq<char>,
>
    decreases words.len(),
{
    if words.len() == 0 {
        Ok(before)
    } else if words[0] == "from"@ {
        if words.len() == 1 {
            Err(FROM_WHAT@)
        } else {
            new_words(words.skip(2), NewArgsModel { from: Some(words[1]), ..before })
        }
    } else if words[0] == "--detached"@ {
        new_words(words.skip(1), NewArgsModel { detached: true, ..before })
    } else if before.name is None {
        new_words(words.skip(1), NewArgsModel { name: Some(words[0]), ..before })
    } else {
        Err(unexpected(words[0]))
    }
}

/// Nothing has been said yet.
pub open spec fn nothing_said() -> NewArgsModel {
    NewArgsModel { name: None, from: None, detached: false }
}

pub fn parse_new(args: &[String]) -> (r: Result<NewArgs, String>)
    ensures
        match new_words(text::texts(args@), nothing_said()) {
            Ok(m) => r is Ok && r->Ok_0@ == m,
            Err(e) => r is Err && r->Err_0@ == e,
        },
{
    let ghost words = text::texts(args@);
    let mut said = NewArgs { name: None, from: None, detached: false };
    assert(words.skip(0) =~= words);
    let n = args.len();
    let mut i: usize = 0;
    while i < n
        invariant
            n == args@.len(),
            i <= n,
            words == text::texts(args@),
            new_words(words, nothing_said()) == new_words(words.skip(i as int), said@),
        decreases n - i,
    {
        let ghost rest = words.skip(i as int);
        assert(rest[0] == args@[i as int]@);
        let w = args[i].as_str();
        if text::same(w, "from") {
            if i + 1 >= n {
                return Err(FROM_WHAT.to_owned());
            }
            assert(rest[1] == args@[i as int + 1]@);
            assert(rest.skip(2) =~= words.skip(i as int + 2));
            said.from = Some(args[i + 1].clone());
            i = i + 2;
        } else if text::same(w, "--detached") {
            assert(rest.skip(1) =~= words.skip(i as int + 1));
            said.detached = true;
            i = i + 1;
        } else if said.name.is_none() {
            assert(rest.skip(1) =~= words.skip(i as int + 1));
            said.name = Some(args[i].clone());
            i = i + 1;
        } else {
            return Err(text::concat3("unexpected argument '", w, "'"));
        }
    }
    Ok(said)
}

/// The name of a machine that was given none, from the process id.
pub open spec fn made_up_name(pid: u32) -> Seq<char> {
    "m_"@ + text::hex_padded((pid as nat) * 2654435761 % 0xFFFF_FFFF, 8)
}

/// The message where `new` is given neither a name nor `--detached`.
pub const NAME_REQUIRED: &'static str = "machine name required (or --detached)";

/// The name that a machine is given.
pub open spec fn given_name(args: NewArgsModel, pid: u32) -> Option<Seq<char>> {
    match args.name {
        Some(n) => Some(n),
        None => if args.detached {
            Some(made_up_name(pid))
        } else {
            None
        },
    }
}

/// The name of the machine: the one that was given, or one made up for a
/// machine that belongs to no branch.
pub fn machine_name(args: &NewArgs, pid: u32) -> (r: Option<String>)
    ensures
        text::opt_text(r) == given_name(args@, pid),
{
    match &args.name {
        Some(n) => Some(n.clone()),
        None => {
            if !args.detached {
                return None;
            }
            assert(pid as u64 * 2654435761 <= 0xffff_ffff * 2654435761) by (nonlinear_arith)
                requires
                    pid <= 0xffff_ffff,
            ;
            let n: u64 = (pid as u64) * 2654435761 % 0xFFFF_FFFF;
            let mut s = "m_".to_owned();
            s.append(text::format_hex(n, 8).as_str());
            Some(s)
        },
    }
}

/// The first twelve bytes of a commit.
pub open spec fn short(sha: Seq<char>) -> Seq<char> {
    text::byte_prefix(sha, 12)
}

/// The commit of a snapshot, as it is shown.
pub open spec fn shown_commit(sha: Option<Seq<char>>, none: Seq<char>) -> Seq<char> {
    match sha {
        Some(s) => short(s),
        None => none,
    }
}

/// A commit that can be shortened.
pub open spec fn shortens(sha: Option<Seq<char>>) -> bool {
    sha is Some ==> text::cuts_cleanly(sha->0, 12)
}

fn show_commit(sha: &Option<String>, none: &str) -> (r: String)
    requires
        shortens(text::opt_text(*sha)),
    ensures
        r@ == shown_commit(text::opt_text(*sha), none@),
{
    match sha {
        Some(s) => text::cut(s.as_str(), 12),
        None => none.to_owned(),
    }
}

/// Something to show, on the standard output or as a note on the standard error.
pub enum Shown {
    Out(String),
    Note(String),
}

pub enum ShownModel {
    Out(Seq<char>),
    Note(Seq<char>),
}

impl View for Shown {
    type V = ShownModel;

    open spec fn view(&self) -> ShownModel {
        match self {
            Shown::Out(s) => ShownModel::Out(s@),
            Shown::Note(s) => ShownModel::Note(s@),
        }
    }
}

pub open spec fn shown_all(lines: Seq<Shown>) -> Seq<ShownModel> {
    lines.map_values(|l: Shown| l@)
}

/// What became of the machine.
pub open spec fn new_report_text(
    handle: Seq<char>,
    restored: Option<store::Snapshot>,
    created: bool,
) -> Seq<ShownModel> {
    match restored {
        Some(snap) => {
            let line = ShownModel::Out(
                "machine '"@ + handle + "' restored from snapshot "@ + snap.snapshot_id@
                    + " (commit "@ + shown_commit(
                    text::opt_text(snap.head_sha),
                    "(detached)"@,
                ) + ")"@,
            );
            if created {
                seq![line]
            } else {
                seq![
                    line,
                    ShownModel::Note(
                        "note: the previous live state of '"@ + handle
                            + "' was replaced; `moo save` before switching commits to keep it"@,
                    ),
                ]
            }
        },
        None => if created {
            seq![ShownModel::Out("machine '"@ + handle + "' created"@)]
        } else {
            seq![ShownModel::Out("machine '"@ + handle + "' ready"@)]
        },
    }
}

/// What was synced into the machine.
pub open spec fn synced_text(s: sync::SyncOutcome, megabytes: Seq<char>) -> Seq<char> {
    "working tree synced: "@ + text::decimal(s.files as nat) + " files ("@ + megabytes
        + " MB) at "@ + s.workdir@
}

/// What `new` reports. The size of what was synced is given in megabytes.
pub fn new_report(o: &lifecycle::NewOutcome, megabytes: &str) -> (r: Vec<Shown>)
    requires
        o.restored_from is Some ==> shortens(text::opt_text(o.restored_from->0.head_sha)),
    ensures
        shown_all(r@) == match o.synced {
            Some(s) => new_report_text(o.handle@, o.restored_from, o.created).push(
                ShownModel::Out(synced_text(s, megabytes@)),
            ),
            None => new_report_text(o.handle@, o.restored_from, o.created),
        },
{
    let mut lines: Vec<Shown> = Vec::new();
    let handle = o.handle.as_str();
    match &o.restored_from {
        Some(snap) => {
            let mut s = text::concat3("machine '", handle, "' restored from snapshot ");
            s.append(snap.snapshot_id.as_str());
            s.append(" (commit ");
            s.append(show_commit(&snap.head_sha, "(detached)").as_str());
            s.append(")");
            lines.push(Shown::Out(s));
            if !o.created {
                let note = text::concat3(
                    "note: the previous live state of '",
                    handle,
                    "' was replaced; `moo save` before switching commits to keep it",
                );
                lines.push(Shown::Note(note));
            }
        },
        None => {
            if o.created {
                lines.push(Shown::Out(text::concat3("machine '", handle, "' created")));
            } else {
                lines.push(Shown::Out(text::concat3("machine '", handle, "' ready")));
            }
        },
    }
    assert(shown_all(lines@) =~= new_report_text(o.handle@, o.restored_from, o.created));
    if let Some(s) = &o.synced {
        let n = text::format_decimal(s.files as u64);
        let mut line = text::concat3("working tree synced: ", n.as_str(), " files (");
        line.append(megabytes);
        line.append(" MB) at ");
        line.append(s.workdir.as_str());
        let ghost held = shown_all(lines@);
        lines.push(Shown::Out(line));
        assert(shown_all(lines@) =~= held.push(ShownModel::Out(line@)));
    }
    lines
}

/// What `run` notes where it synced the tree.
pub fn run_note(s: &sync::SyncOutcome, megabytes: &str) -> (r: String)
    ensures
        r@ == "moo: synced "@ + text::decimal(s.files as nat) + " files ("@ + megabytes@
            + " MB) to "@ + s.workdir@,
{
    let n = text::format_decimal(s.files as u64);
    let mut line = text::concat3("moo: synced ", n.as_str(), " files (");
    line.append(megabytes);
    line.append(" MB) to ");
    line.append(s.workdir.as_str());
    line
}

/// The message where `run` is not given a name and a command.
pub const RUN_USAGE: &'static str = "usage: moo run <name> -- <cmd> [args...]";

/// The message where nothing follows the dashes.
pub const NO_COMMAND: &'static str = "no command given after --";

/// What `run` is asked for: the name of a machine, and a command line.
pub open spec fn run_words(words: Seq<Seq<char>>) -> Result<(Seq<char>, Seq<char>), Seq<char>> {
    let sep = seqs::index_of(words, "--"@);
    if words.len() == 0 || sep >= words.len() {
        Err(RUN_USAGE@)
    } else if sep + 1 == words.len() {
        Err(NO_COMMAND@)
    } else {
        Ok((words[0], shell::command_of(words.skip(sep + 1))))
    }
}

pub fn parse_run(args: &[String]) -> (r: Result<(String, String), String>)
    ensures
        match run_words(text::texts(args@)) {
            Ok(m) => r is Ok && (r->Ok_0.0@, r->Ok_0.1@) == m,
            Err(e) => r is Err && r->Err_0@ == e,
        },
{
    let ghost words = text::texts(args@);
    let n = args.len();
    if n == 0 {
        return Err(RUN_USAGE.to_owned());
    }
    let mut i: usize = 0;
    while i < n && !text::same(args[i].as_str(), "--")
        invariant
            n == args@.len(),
            i <= n,
            words == text::texts(args@),
            forall|j: int| 0 <= j < i ==> #[trigger] words[j] != "--"@,
        decreases n - i,
    {
        assert(words[i as int] == args@[i as int]@);
        i = i + 1;
    }
    proof {
        if i < n {
            assert(words[i as int] == args@[i as int]@);
        }
        seqs::lemma_index_of(words, "--"@, i as int);
    }
    if i == n {
        return Err(RUN_USAGE.to_owned());
    }
    if i + 1 == n {
        return Err(NO_COMMAND.to_owned());
    }
    let mut parts: Vec<String> = Vec::new();
    let mut k: usize = i + 1;
    let ghost tail = words.skip(i as int + 1);
    assert(tail.take(0) =~= text::texts(parts@));
    while k < n
        invariant
            n == args@.len(),
            i + 1 <= k <= n,
            words == text::texts(args@),
            tail == words.skip(i as int + 1),
            text::texts(parts@) == tail.take(k - i - 1),
        decreases n - k,
    {
        let ghost held = text::texts(parts@);
        parts.push(args[k].clone());
        assert(text::texts(parts@) =~= held.push(args@[k as int]@));
        assert(tail[k - i - 1] == args@[k as int]@);
        assert(tail.take(k - i) =~= held.push(tail[k - i - 1]));
        k = k + 1;
    }
    assert(tail.take(n - i - 1) =~= tail);
    assert(words[0] == args@[0]@);
    Ok((args[0].clone(), shell::command_line(&parts)))
}

/// What `save` reports of a machine.
pub open spec fn save_text(name: Seq<char>, o: lifecycle::SaveOutcome) -> Seq<char> {
    let commit = shown_commit(text::opt_text(o.snapshot.head_sha), "(no commit)"@);
    if o.fresh {
        "saved '"@ + name + "' as "@ + o.snapshot.snapshot_id@ + " (commit "@ + commit + ")"@
    } else {
        "'"@ + name + "' unchanged since "@ + o.snapshot.snapshot_id@ + " (commit "@ + commit
            + ")"@
    }
}

pub fn save_report(name: &str, o: &lifecycle::SaveOutcome) -> (r: String)
    requires
        shortens(text::opt_text(o.snapshot.head_sha)),
    ensures
        r@ == save_text(name@, *o),
{
    let commit = show_commit(&o.snapshot.head_sha, "(no commit)");
    let mut s = if o.fresh {
        text::concat3("saved '", name, "' as ")
    } else {
        text::concat3("'", name, "' unchanged since ")
    };
    s.append(o.snapshot.snapshot_id.as_str());
    s.append(" (commit ");
    s.append(commit.as_str());
    s.append(")");
    s
}

/// What `save` reports where there is nothing to save.
pub const NOTHING_TO_SAVE: &'static str = "no machines to save";

/// What `drop` is asked for.
pub struct DropArgs {
    pub name: String,
    pub force: bool,
    pub snapshots: bool,
}

/// The message where `drop` is not given a name.
pub const DROP_USAGE: &'static str = "usage: moo drop <name> [--force] [--snapshots]";

/// What the words say: flags, and one name.
pub open spec fn drop_words(
    words: Seq<Seq<char>>,
    name: Option<Seq<char>>,
    force: bool,
    snapshots: bool,
) -> Result<(Seq<char>, bool, bool), Seq<char>>
    decreases words.len(),
{
    if words.len() == 0 {
        match name {
            Some(n) => Ok((n, force, snapshots)),
            None => Err(DROP_USAGE@),
        }
    } else if words[0] == "--force"@ {
        drop_words(words.skip(1), name, true, snapshots)
    } else if words[0] == "--snapshots"@ {
        drop_words(words.skip(1), name, force, true)
    } else if name is None {
        drop_words(words.skip(1), Some(words[0]), force, snapshots)
    } else {
        Err(unexpected(words[0]))
    }
}

pub fn parse_drop(args: &[String]) -> (r: Result<DropArgs, String>)
    ensures
        match drop_words(text::texts(args@), None, false, false) {
            Ok(m) => r is Ok && (r->Ok_0.name@, r->Ok_0.force, r->Ok_0.snapshots) == m,
            Err(e) => r is Err && r->Err_0@ == e,
        },
{
    let ghost words = text::texts(args@);
    let mut name: Option<String> = None;
    let mut force = false;
    let mut snapshots = false;
    assert(words.skip(0) =~= words);
    for i in 0..args.len()
        invariant
            words == text::texts(args@),
            drop_words(words, None, false, false) == drop_words(
                words.skip(i as int),
                text::opt_text(name),
                force,
                snapshots,
            ),
    {
        let ghost rest = words.skip(i as int);
        assert(rest[0] == args@[i as int]@);
        assert(rest.skip(1) =~= words.skip(i as int + 1));
        let w = args[i].as_str();
        if text::same(w, "--force") {
            force = true;
        } else if text::same(w, "--snapshots") {
            snapshots = true;
        } else if name.is_none() {
            name = Some(args[i].clone());
        } else {
            return Err(text::concat3("unexpected argument '", w, "'"));
        }
    }
    match name {
        Some(name) => Ok(DropArgs { name, force, snapshots }),
        None => Err(DROP_USAGE.to_owned()),
    }
}

/// What `drop` reports.
pub fn drop_report(name: &str, snapshots: bool) -> (r: String)
    ensures
        r@ == "machine '"@ + name@ + "' dropped"@ + if snapshots {
            " (snapshots too)"@
        } else {
            Seq::<char>::empty()
        },
{
    let mut s = text::concat3("machine '", name, "' dropped");
    if snapshots {
        s.append(" (snapshots too)");
    }
    assert(s@ =~= "machine '"@ + name@ + "' dropped"@ + if snapshots {
        " (snapshots too)"@
    } else {
        Seq::<char>::empty()
    });
    s
}

/// A pair as it is listed: an arrow in place of the first colon.
pub open spec fn arrowed(pair: Seq<char>) -> Seq<char> {
    let i = seqs::index_of(pair, ':');
    if i >= pair.len() {
        pair
    } else {
        pair.take(i) + "->"@ + pair.skip(i + 1)
    }
}

fn arrow(pair: &str) -> (r: String)
    ensures
        r@ == arrowed(pair@),
{
    let cs = text::chars_of(pair);
    let n = cs.len();
    let i = text::position(&cs, ':');
    if i == n {
        return pair.to_owned();
    }
    let a = text::text_of(&cs, 0, i);
    let b = text::text_of(&cs, i + 1, n);
    assert(a@ =~= pair@.take(i as int));
    assert(b@ =~= pair@.skip(i as int + 1));
    text::concat3(a.as_str(), "->", b.as_str())
}

/// The ports of a machine as they are listed.
pub open spec fn ports_text(port_map: Seq<char>) -> Seq<char> {
    if port_map.len() == 0 {
        "(none)"@
    } else {
        seqs::join(seqs::split(port_map, ',').map_values(|p: Seq<char>| arrowed(p)), " "@)
    }
}

fn list_ports(port_map: &str) -> (r: String)
    ensures
        r@ == ports_text(port_map@),
{
    if port_map.is_empty() {
        return "(none)".to_owned();
    }
    let pairs = text::split_on(port_map, ',');
    let ghost shown = seqs::split(port_map@, ',').map_values(|p: Seq<char>| arrowed(p));
    let mut parts: Vec<String> = Vec::new();
    for i in 0..pairs.len()
        invariant
            text::texts(pairs@) == seqs::split(port_map@, ','),
            shown == seqs::split(port_map@, ',').map_values(|p: Seq<char>| arrowed(p)),
            text::texts(parts@) == shown.take(i as int),
    {
        let part = arrow(pairs[i].as_str());
        let ghost held = text::texts(parts@);
        parts.push(part);
        assert(text::texts(parts@) =~= held.push(part@));
        assert(text::texts(pairs@)[i as int] == pairs@[i as int]@);
        assert(shown[i as int] == part@);
        assert(shown.take(i as int + 1) =~= held.push(shown[i as int]));
    }
    assert(shown.take(shown.len() as int) =~= shown);
    text::join_with(&parts, " ")
}

/// Five columns, the first four of a fixed width.
pub open spec fn columns(
    a: Seq<char>,
    b: Seq<char>,
    c: Seq<char>,
    d: Seq<char>,
    e: Seq<char>,
) -> Seq<char> {
    text::padded(a, 24) + " "@ + text::padded(b, 8) + " "@ + text::padded(c, 14) + " "@
        + text::padded(d, 22) + " "@ + e
}

fn line_of(a: &str, b: &str, c: &str, d: &str, e: &str) -> (r: String)
    ensures
        r@ == columns(a@, b@, c@, d@, e@),
{
    let mut s = text::pad(a, 24);
    s.append(" ");
    s.append(text::pad(b, 8).as_str());
    s.append(" ");
    s.append(text::pad(c, 14).as_str());
    s.append(" ");
    s.append(text::pad(d, 22).as_str());
    s.append(" ");
    s.append(e);
    s
}

/// The line of a machine.
pub open spec fn machine_line(row: lifecycle::LsRow) -> Seq<char> {
    columns(
        row.machine.handle@,
        if row.running {
            "running"@
        } else {
            row.machine.lifecycle@
        },
        shown_commit(text::opt_text(row.machine.base_commit), "-"@),
        ports_text(row.machine.port_map@),
        text::decimal(row.snapshots@.len()),
    )
}

/// The line of a snapshot.
pub open spec fn snapshot_line(s: store::Snapshot) -> Seq<char> {
    "  "@ + s.snapshot_id@ + " @ "@ + shown_commit(text::opt_text(s.head_sha), "(no commit)"@)
}

/// The lines of a machine and its snapshots.
pub open spec fn row_lines(row: lifecycle::LsRow) -> Seq<Seq<char>> {
    seq![machine_line(row)] + row.snapshots@.map_values(|s: store::Snapshot| snapshot_line(s))
}

/// The lines of all machines.
pub open spec fn all_rows(rows: Seq<lifecycle::LsRow>) -> Seq<Seq<char>>
    decreases rows.len(),
{
    if rows.len() == 0 {
        Seq::<Seq<char>>::empty()
    } else {
        all_rows(rows.drop_last()) + row_lines(rows.last())
    }
}

/// What `ls` shows.
pub open spec fn listing(rows: Seq<lifecycle::LsRow>) -> Seq<Seq<char>> {
    if rows.len() == 0 {
        seq!["no machines"@]
    } else {
        seq![
            columns(
                "HANDLE"@,
                "STATE"@,
                "BASE COMMIT"@,
                "PORTS (host->guest)"@,
                "snapshots"@,
            ),
        ] + all_rows(rows)
    }
}

/// Every commit in the row can be shortened.
pub open spec fn row_shortens(row: lifecycle::LsRow) -> bool {
    &&& shortens(text::opt_text(row.machine.base_commit))
    &&& forall|i: int|
        0 <= i < row.snapshots@.len() ==> shortens(
            text::opt_text((#[trigger] row.snapshots@[i]).head_sha),
        )
}

fn push_row(lines: &mut Vec<String>, row: &lifecycle::LsRow)
    requires
        row_shortens(*row),
    ensures
        text::texts(final(lines)@) == text::texts(old(lines)@) + row_lines(*row),
{
    let state = if row.running {
        "running"
    } else {
        row.machine.lifecycle.as_str()
    };
    let base = show_commit(&row.machine.base_commit, "-");
    let ports = list_ports(row.machine.port_map.as_str());
    let count = text::format_decimal(row.snapshots.len() as u64);
    let line = line_of(
        row.machine.handle.as_str(),
        state,
        base.as_str(),
        ports.as_str(),
        count.as_str(),
    );
    let ghost before = text::texts(lines@);
    lines.push(line);
    assert(text::texts(lines@) =~= before.push(machine_line(*row)));
    let ghost shown = row_lines(*row);
    assert(before.push(machine_line(*row)) =~= before + shown.take(1));
    for i in 0..row.snapshots.len()
        invariant
            row_shortens(*row),
            before == text::texts(old(lines)@),
            shown == row_lines(*row),
            text::texts(lines@) == before + shown.take(i + 1),
    {
        let s = &row.snapshots[i];
        assert(shortens(text::opt_text(row.snapshots@[i as int].head_sha)));
        let mut l = text::concat3("  ", s.snapshot_id.as_str(), " @ ");
        l.append(show_commit(&s.head_sha, "(no commit)").as_str());
        let ghost held = text::texts(lines@);
        lines.push(l);
        assert(text::texts(lines@) =~= held.push(l@));
        assert(shown[i + 1] == l@);
        assert(before + shown.take(i + 2) =~= held.push(l@));
    }
    assert(shown.take(shown.len() as int) =~= shown);
}

/// What `ls` shows.
pub fn ls_lines(rows: &[lifecycle::LsRow]) -> (r: Vec<String>)
    requires
        forall|i: int| 0 <= i < rows@.len() ==> row_shortens(#[trigger] rows@[i]),
    ensures
        text::texts(r@) == listing(rows@),
{
    let mut lines: Vec<String> = Vec::new();
    if rows.len() == 0 {
        lines.push("no machines".to_owned());
        assert(text::texts(lines@) =~= seq!["no machines"@]);
        return lines;
    }
    lines.push(
        line_of("HANDLE", "STATE", "BASE COMMIT", "PORTS (host->guest)", "snapshots"),
    );
    let ghost head = text::texts(lines@);
    assert(head =~= seq![
        columns("HANDLE"@, "STATE"@, "BASE COMMIT"@, "PORTS (host->guest)"@, "snapshots"@),
    ]);
    assert(head + all_rows(rows@.take(0)) =~= head);
    for i in 0..rows.len()
        invariant
            forall|i: int| 0 <= i < rows@.len() ==> row_shortens(#[trigger] rows@[i]),
            text::texts(lines@) == head + all_rows(rows@.take(i as int)),
    {
        let ghost t = rows@.take(i as int + 1);
        assert(t.drop_last() =~= rows@.take(i as int));
        assert(t.last() == rows@[i as int]);
        push_row(&mut lines, &rows[i]);
        assert(text::texts(lines@) =~= head + all_rows(t));
    }
    assert(rows@.take(rows@.len() as int) =~= rows@);
    lines
}

/// What `open` is asked for.
pub struct OpenArgs {
    pub name: Option<String>,
    pub guest: Option<u16>,
    pub path: Option<String>,
}

pub struct OpenArgsModel {
    pub name: Option<Seq<char>>,
    pub guest: Option<u16>,
    pub path: Option<Seq<char>>,
}

impl View for OpenArgs {
    type V = OpenArgsModel;

    open spec fn view(&self) -> OpenArgsModel {
        OpenArgsModel {
            name: text::opt_text(self.name),
            guest: self.guest,
            path: text::opt_text(self.path),
        }
    }
}

pub open spec fn is_rooted(s: Seq<char>) -> bool {
    s.len() > 0 && s[0] == '/'
}

/// The message where `open` is not given a name.
pub const OPEN_USAGE: &'static str = "usage: moo open <name> [guest-port] [/path]";

/// What the words say: a name first, then a port and a path in any order.
pub open spec fn open_words(words: Seq<Seq<char>>, before: OpenArgsModel) -> Result<
    OpenArgsModel,
    Seq<char>,
>
    decreases words.len(),
{
    if words.len() == 0 {
        if before.name is None {
            Err(OPEN_USAGE@)
        } else {
            Ok(before)
        }
    } else {
        let w = words[0];
        let rest = words.skip(1);
        if before.name is None {
            open_words(rest, OpenArgsModel { name: Some(w), ..before })
        } else if is_rooted(w) && before.path is None {
            open_words(rest, OpenArgsModel { path: Some(w), ..before })
        } else if before.guest is None && !is_rooted(w) {
            match text::unsigned_value(w, 0xffff) {
                Some(p) => open_words(rest, OpenArgsModel { guest: Some(p as u16), ..before }),
                None => Err("'"@ + w + "' is not a guest port number"@),
            }
        } else {
            Err(unexpected(w))
        }
    }
}

fn rooted(s: &str) -> (r: bool)
    ensures
        r == is_rooted(s@),
{
    let cs = text::chars_of(s);
    cs.len() > 0 && cs[0] == '/'
}

pub fn parse_open(args: &[String]) -> (r: Result<OpenArgs, String>)
    ensures
        match open_words(
            text::texts(args@),
            OpenArgsModel { name: None, guest: None, path: None },
        ) {
            Ok(m) => r is Ok && r->Ok_0@ == m,
            Err(e) => r is Err && r->Err_0@ == e,
        },
{
    let ghost words = text::texts(args@);
    let ghost none = OpenArgsModel { name: None, guest: None, path: None };
    let mut said = OpenArgs { name: None, guest: None, path: None };
    assert(words.skip(0) =~= words);
    for i in 0..args.len()
        invariant
            words == text::texts(args@),
            none == (OpenArgsModel { name: None, guest: None, path: None }),
            open_words(words, none) == open_words(words.skip(i as int), said@),
    {
        let ghost rest = words.skip(i as int);
        assert(rest[0] == args@[i as int]@);
        assert(rest.skip(1) =~= words.skip(i as int + 1));
        let w = args[i].as_str();
        if said.name.is_none() {
            said.name = Some(args[i].clone());
        } else if rooted(w) && said.path.is_none() {
            said.path = Some(args[i].clone());
        } else if said.guest.is_none() && !rooted(w) {
            match text::parse_unsigned(w, 0xffff) {
                Some(p) => {
                    said.guest = Some(p as u16);
                },
                None => {
                    return Err(text::concat3("'", w, "' is not a guest port number"));
                },
            }
        } else {
            return Err(text::concat3("unexpected argument '", w, "'"));
        }
    }
    if said.name.is_none() {
        return Err(OPEN_USAGE.to_owned());
    }
    Ok(said)
}

/// The address of a path on a port of the host.
pub open spec fn address_of(host_port: u16, path: Option<Seq<char>>) -> Seq<char> {
    "http://localhost:"@ + text::decimal(host_port as nat) + match path {
        Some(p) => p,
        None => "/"@,
    }
}

/// The address of a forwarded port.
pub fn open_url(host_port: u16, path: &Option<String>) -> (r: String)
    ensures
        r@ == address_of(host_port, text::opt_text(*path)),
{
    let n = text::format_decimal(host_port as u64);
    match path {
        Some(p) => text::concat3("http://localhost:", n.as_str(), p.as_str()),
        None => text::concat3("http://localhost:", n.as_str(), "/"),
    }
}

/// The note about a machine that does not run.
pub fn not_running_note(name: &str) -> (r: String)
    ensures
        r@ == "note: machine '"@ + name@
            + "' is not running \u{2014} nothing answers yet; `moo run "@ + name@
            + " -- true` boots it"@,
{
    let mut s = text::concat3(
        "note: machine '",
        name,
        "' is not running \u{2014} nothing answers yet; `moo run ",
    );
    s.append(name);
    s.append(" -- true` boots it");
    s
}

/// What a check of the host found.
pub struct Check {
    pub name: String,
    pub pass: bool,
    pub hint: String,
}

/// The lines about one check: a hint where it failed.
pub open spec fn check_lines(name: Seq<char>, pass: bool, hint: Seq<char>) -> Seq<Seq<char>> {
    if pass {
        seq!["ok  "@ + name]
    } else {
        seq!["FAIL "@ + name, "     "@ + hint]
    }
}

/// The lines about all checks.
pub open spec fn all_checks(checks: Seq<Check>) -> Seq<Seq<char>>
    decreases checks.len(),
{
    if checks.len() == 0 {
        Seq::<Seq<char>>::empty()
    } else {
        let last = checks.last();
        all_checks(checks.drop_last()) + check_lines(last.name@, last.pass, last.hint@)
    }
}

/// Every check passed.
pub open spec fn all_pass(checks: Seq<Check>) -> bool {
    forall|i: int| 0 <= i < checks.len() ==> (#[trigger] checks[i]).pass
}

/// The exit code of `doctor`.
pub open spec fn doctor_code(checks: Seq<Check>) -> i32 {
    if all_pass(checks) {
        0
    } else {
        1
    }
}

/// What `doctor` shows, and its exit code: zero only where every check passed.
pub fn doctor_report(checks: &[Check]) -> (r: (Vec<String>, i32))
    ensures
        text::texts(r.0@) == all_checks(checks@),
        r.1 == doctor_code(checks@),
{
    let mut lines: Vec<String> = Vec::new();
    let mut ok = true;
    assert(text::texts(lines@) =~= Seq::<Seq<char>>::empty());
    for i in 0..checks.len()
        invariant
            text::texts(lines@) == all_checks(checks@.take(i as int)),
            ok == (forall|j: int| 0 <= j < i ==> (#[trigger] checks@[j]).pass),
    {
        let ghost t = checks@.take(i as int + 1);
        assert(t.drop_last() =~= checks@.take(i as int));
        assert(t.last() == checks@[i as int]);
        let ghost held = text::texts(lines@);
        let c = &checks[i];
        if c.pass {
            let mut l = "ok  ".to_owned();
            l.append(c.name.as_str());
            lines.push(l);
        } else {
            let mut l = "FAIL ".to_owned();
            l.append(c.name.as_str());
            lines.push(l);
            let mut h = "     ".to_owned();
            h.append(c.hint.as_str());
            lines.push(h);
            ok = false;
        }
        assert(text::texts(lines@) =~= held + check_lines(c.name@, c.pass, c.hint@));
    }
    assert(checks@.take(checks@.len() as int) =~= checks@);
    let code: i32 = if ok {
        0
    } else {
        1
    };
    (lines, code)
}

/// What was found out about the host.
pub struct HostFacts {
    pub firmware: bool,
    pub network: bool,
    pub clones: bool,
    pub tools: bool,
    pub signed: bool,
}

fn one_check(name: &str, pass: bool, hint: &str) -> (r: Check)
    ensures
        r.name@ == name@,
        r.pass == pass,
        r.hint@ == hint@,
{
    Check { name: name.to_owned(), pass, hint: hint.to_owned() }
}

/// What a check says.
pub open spec fn check_model(c: Check) -> (Seq<char>, bool, Seq<char>) {
    (c.name@, c.pass, c.hint@)
}

/// The checks of the host, each with what to do where it fails.
pub open spec fn host_check_list(facts: HostFacts) -> Seq<(Seq<char>, bool, Seq<char>)> {
    seq![
        (
            "machine firmware installed"@,
            facts.firmware,
            "machine firmware is missing \u{2014} see the install section of the README"@,
        ),
        (
            "machine network runtime installed"@,
            facts.network,
            "the network runtime is missing \u{2014} re-run scripts/install.sh"@,
        ),
        (
            "storage supports copy-on-write clones"@,
            facts.clones,
            "~/.moo must live on an APFS volume"@,
        ),
        (
            "filesystem tools installed"@,
            facts.tools,
            "install with: brew install e2fsprogs"@,
        ),
        (
            "binary is signed for machine isolation"@,
            facts.signed,
            "re-install moo, or run: codesign --force --sign - --entitlements entitlements.plist $(which moo)"@,
        ),
    ]
}

pub fn host_checks(facts: &HostFacts) -> (r: Vec<Check>)
    ensures
        r@.map_values(|c: Check| check_model(c)) == host_check_list(*facts),
{
    let r = vec![
        one_check(
            "machine firmware installed",
            facts.firmware,
            "machine firmware is missing \u{2014} see the install section of the README",
        ),
        one_check(
            "machine network runtime installed",
            facts.network,
            "the network runtime is missing \u{2014} re-run scripts/install.sh",
        ),
        one_check(
            "storage supports copy-on-write clones",
            facts.clones,
            "~/.moo must live on an APFS volume",
        ),
        one_check(
            "filesystem tools installed",
            facts.tools,
            "install with: brew install e2fsprogs",
        ),
        one_check(
            "binary is signed for machine isolation",
            facts.signed,
            "re-install moo, or run: codesign --force --sign - --entitlements entitlements.plist $(which moo)",
        ),
    ];
    assert(r@.map_values(|c: Check| check_model(c)) =~= host_check_list(*facts));
    r
}

/// What was said of the signature names the entitlement to run machines.
pub open spec fn entitled(stdout: Seq<char>, stderr: Seq<char>) -> bool {
    text::holds(stdout, "hypervisor"@) || text::holds(stderr, "hypervisor"@)
}

/// True if the signature of the binary names the entitlement to run machines.
pub fn names_entitlement(stdout: &[u8], stderr: &[u8]) -> (r: bool)
    ensures
        r == entitled(text::lossy_of(stdout@), text::lossy_of(stderr@)),
{
    text::contains(text::lossy_text(stdout).as_str(), "hypervisor") || text::contains(
        text::lossy_text(stderr).as_str(),
        "hypervisor",
    )
}

/// The message where the supervisor is started with anything but one handle.
pub const BAD_SHIM: &'static str = "internal: bad supervisor invocation";

/// The machine that a supervisor is started for.
pub fn parse_shim(args: &[String]) -> (r: Option<String>)
    ensures
        text::opt_text(r) == if args@.len() == 1 {
            Some(args@[0]@)
        } else {
            None
        },
{
    if args.len() == 1 {
        Some(args[0].clone())
    } else {
        None
    }
}

} // verus!
