//! What the words of a command line ask for, and what is shown.
use crate::cli;
use crate::lifecycle;
use crate::ports;
use crate::seqs;
use crate::shell;
use crate::store;
use crate::sync;
use crate::text;
use vstd::prelude::*;

verus! {

/// Each verb has one word, and any other word asks for the usage.
pub proof fn verbs_have_words(word: Seq<char>)
    ensures
        cli::verb_of(Some(word)) is New <==> word == "new"@,
        cli::verb_of(Some(word)) is Run <==> word == "run"@,
        cli::verb_of(Some(word)) is Save <==> word == "save"@,
        cli::verb_of(Some(word)) is Drop <==> word == "drop"@,
        cli::verb_of(Some(word)) is Ls <==> word == "ls"@,
        cli::verb_of(Some(word)) is Open <==> word == "open"@,
        cli::verb_of(Some(word)) is Doctor <==> word == "doctor"@,
        cli::verb_of(Some(word)) is Shim <==> word == "__shim"@,
        cli::verb_of(None) is Usage,
{
    reveal_strlit("new");
    reveal_strlit("run");
    reveal_strlit("save");
    reveal_strlit("drop");
    reveal_strlit("ls");
    reveal_strlit("open");
    reveal_strlit("doctor");
    reveal_strlit("__shim");
    assert("doctor"@.len() == 6 && "__shim"@.len() == 6);
    assert("new"@.len() == 3 && "run"@.len() == 3 && "ls"@.len() == 2);
    assert("save"@.len() == 4 && "drop"@.len() == 4 && "open"@.len() == 4);
    assert("new"@[0] != "run"@[0]);
    assert("save"@[0] != "drop"@[0]);
    assert("save"@[0] != "open"@[0]);
    assert("drop"@[0] != "open"@[0]);
    assert("doctor"@[0] != "__shim"@[0]);
}

/// What more words add where the words before them could be read.
proof fn lemma_new_words_append(
    words: Seq<Seq<char>>,
    more: Seq<Seq<char>>,
    before: cli::NewArgsModel,
)
    requires
        cli::new_words(words, before) is Ok,
    ensures
        cli::new_words(words + more, before) == cli::new_words(
            more,
            cli::new_words(words, before)->Ok_0,
        ),
    decreases words.len(),
{
    let all = words + more;
    if words.len() == 0 {
        assert(all =~= more);
    } else {
        assert(all[0] == words[0]);
        if words[0] == "from"@ {
            assert(words.len() > 1);
            assert(all[1] == words[1]);
            assert(all.skip(2) =~= words.skip(2) + more);
            lemma_new_words_append(
                words.skip(2),
                more,
                cli::NewArgsModel { from: Some(words[1]), ..before },
            );
        } else if words[0] == "--detached"@ {
            assert(all.skip(1) =~= words.skip(1) + more);
            lemma_new_words_append(
                words.skip(1),
                more,
                cli::NewArgsModel { detached: true, ..before },
            );
        } else {
            assert(all.skip(1) =~= words.skip(1) + more);
            lemma_new_words_append(
                words.skip(1),
                more,
                cli::NewArgsModel { name: Some(words[0]), ..before },
            );
        }
    }
}

/// The words of `new` are read one after the other, wherever they stand: the
/// flag detaches, `from` takes the word behind it as the source, the first
/// other word is the name, and a second one is refused. Each leaves what the
/// words before it said as it is.
pub proof fn new_machines_are_read(
    words: Seq<Seq<char>>,
    m: cli::NewArgsModel,
    w: Seq<char>,
    more: Seq<Seq<char>>,
)
    requires
        cli::new_words(words, cli::nothing_said()) == Ok::<cli::NewArgsModel, Seq<char>>(m),
    ensures
        cli::new_words(Seq::<Seq<char>>::empty(), cli::nothing_said()) == Ok::<
            cli::NewArgsModel,
            Seq<char>,
        >(cli::NewArgsModel { name: None, from: None, detached: false }),
        cli::new_words(words.push("--detached"@), cli::nothing_said()) == Ok::<
            cli::NewArgsModel,
            Seq<char>,
        >(cli::NewArgsModel { name: m.name, from: m.from, detached: true }),
        cli::new_words(words.push("from"@).push(w), cli::nothing_said()) == Ok::<
            cli::NewArgsModel,
            Seq<char>,
        >(cli::NewArgsModel { name: m.name, from: Some(w), detached: m.detached }),
        cli::new_words(words.push("from"@), cli::nothing_said()) is Err,
        w != "from"@ && w != "--detached"@ && m.name is None ==> cli::new_words(
            words.push(w),
            cli::nothing_said(),
        ) == Ok::<cli::NewArgsModel, Seq<char>>(
            cli::NewArgsModel { name: Some(w), from: m.from, detached: m.detached },
        ),
        w != "from"@ && w != "--detached"@ && m.name is Some ==> cli::new_words(
            words.push(w) + more,
            cli::nothing_said(),
        ) == Err::<cli::NewArgsModel, Seq<char>>("unexpected argument '"@ + w + "'"@),
{
    reveal_strlit("from");
    reveal_strlit("--detached");
    assert("from"@[0] != "--detached"@[0]);
    reveal_with_fuel(cli::new_words, 3);
    let none = cli::nothing_said();
    let flag = seq!["--detached"@];
    assert(words.push("--detached"@) =~= words + flag);
    lemma_new_words_append(words, flag, none);
    assert(flag.skip(1) =~= Seq::<Seq<char>>::empty());
    let source = seq!["from"@, w];
    assert(words.push("from"@).push(w) =~= words + source);
    lemma_new_words_append(words, source, none);
    assert(source.skip(2) =~= Seq::<Seq<char>>::empty());
    let open = seq!["from"@];
    assert(words.push("from"@) =~= words + open);
    lemma_new_words_append(words, open, none);
    let other = seq![w];
    assert(words.push(w) =~= words + other);
    lemma_new_words_append(words, other, none);
    assert(other.skip(1) =~= Seq::<Seq<char>>::empty());
    let longer = seq![w] + more;
    assert(words.push(w) + more =~= words + longer);
    lemma_new_words_append(words, longer, none);
}

/// What stands behind the dashes is run, whatever stands between the name
/// and the dashes: the guest's shell reads the words that were given.
pub proof fn commands_are_run(
    name: Seq<char>,
    between: Seq<Seq<char>>,
    command: Seq<Seq<char>>,
)
    requires
        name != "--"@,
        !between.contains("--"@),
        command.len() > 0,
    ensures
        ({
            let said = cli::run_words(seq![name] + between + seq!["--"@] + command);
            &&& said is Ok
            &&& said->Ok_0.0 == name
            &&& command.len() == 1 ==> said->Ok_0.1 == command[0]
            &&& command.len() > 1 ==> shell::shell_words(said->Ok_0.1) == Some(command)
        }),
{
    let words = seq![name] + between + seq!["--"@] + command;
    let sep = 1 + between.len() as int;
    assert(words[sep] == "--"@);
    assert forall|j: int| 0 <= j < sep implies words[j] != "--"@ by {
        if j > 0 {
            assert(words[j] == between[j - 1]);
            assert(between.contains(between[j - 1]));
        }
    }
    seqs::lemma_index_of(words, "--"@, sep);
    assert(words.skip(sep + 1) =~= command);
    if command.len() > 1 {
        shell::shell_reads_the_words(command);
    }
}

/// Without dashes, or with nothing behind them, nothing is run.
pub proof fn no_command_is_refused(words: Seq<Seq<char>>)
    ensures
        !words.contains("--"@) ==> cli::run_words(words) is Err,
        words.len() > 0 && words.last() == "--"@ && !words.drop_last().contains("--"@)
            ==> cli::run_words(words) is Err,
{
    seqs::lemma_index_of_bounds(words, "--"@);
    if !words.contains("--"@) {
        seqs::lemma_index_of(words, "--"@, words.len() as int);
    }
    if words.len() > 0 && words.last() == "--"@ && !words.drop_last().contains("--"@) {
        assert forall|j: int| 0 <= j < words.len() - 1 implies words[j] != "--"@ by {
            assert(words.drop_last()[j] == words[j]);
            assert(words.drop_last().contains(words.drop_last()[j]));
        }
        seqs::lemma_index_of(words, "--"@, words.len() - 1);
    }
}

/// A flag of `drop`.
pub open spec fn is_drop_flag(w: Seq<char>) -> bool {
    w == "--force"@ || w == "--snapshots"@
}

/// The flags of `drop` count wherever they stand, and the word that is no
/// flag is the name, where there is exactly one.
pub proof fn drops_are_read(words: Seq<Seq<char>>, at: int)
    requires
        0 <= at < words.len(),
        !is_drop_flag(words[at]),
        forall|i: int| 0 <= i < words.len() && i != at ==> is_drop_flag(#[trigger] words[i]),
    ensures
        cli::drop_words(words, None, false, false) == Ok::<(Seq<char>, bool, bool), Seq<char>>(
            (words[at], words.contains("--force"@), words.contains("--snapshots"@)),
        ),
{
    lemma_drop_words(words, None, false, false, at);
}

proof fn lemma_drop_words(
    words: Seq<Seq<char>>,
    name: Option<Seq<char>>,
    force: bool,
    snapshots: bool,
    at: int,
)
    requires
        name is None ==> 0 <= at < words.len() && !is_drop_flag(words[at]),
        name is Some ==> at == -1,
        forall|i: int| 0 <= i < words.len() && i != at ==> is_drop_flag(#[trigger] words[i]),
    ensures
        cli::drop_words(words, name, force, snapshots) == Ok::<
            (Seq<char>, bool, bool),
            Seq<char>,
        >(
            (
                if name is None {
                    words[at]
                } else {
                    name->0
                },
                force || words.contains("--force"@),
                snapshots || words.contains("--snapshots"@),
            ),
        ),
    decreases words.len(),
{
    reveal_strlit("--force");
    reveal_strlit("--snapshots");
    assert("--force"@[2] != "--snapshots"@[2]);
    if words.len() > 0 {
        let rest = words.skip(1);
        let w = words[0];
        assert forall|x: Seq<char>| #[trigger] words.contains(x) <==> w == x || rest.contains(
            x,
        ) by {
            if words.contains(x) && w != x {
                let i = choose|i: int| 0 <= i < words.len() && words[i] == x;
                assert(rest[i - 1] == x);
            }
            if rest.contains(x) {
                let i = choose|i: int| 0 <= i < rest.len() && rest[i] == x;
                assert(words[i + 1] == x);
            }
        }
        let there: int = if name is None && at > 0 {
            at - 1
        } else {
            -1
        };
        assert forall|i: int| 0 <= i < rest.len() && i != there implies is_drop_flag(
            #[trigger] rest[i],
        ) by {
            assert(rest[i] == words[i + 1]);
        }
        if w == "--force"@ {
            lemma_drop_words(rest, name, true, snapshots, there);
        } else if w == "--snapshots"@ {
            lemma_drop_words(rest, name, force, true, there);
        } else {
            assert(at == 0);
            lemma_drop_words(rest, Some(w), force, snapshots, there);
        }
    }
}

/// Without a name nothing is dropped, and a second name is refused.
pub proof fn drops_need_one_name(words: Seq<Seq<char>>, i: int, j: int)
    ensures
        (forall|k: int| 0 <= k < words.len() ==> is_drop_flag(#[trigger] words[k]))
            ==> cli::drop_words(words, None, false, false) is Err,
        0 <= i < j < words.len() && !is_drop_flag(words[i]) && !is_drop_flag(words[j])
            ==> cli::drop_words(words, None, false, false) is Err,
{
    lemma_no_drop_name(words, false, false);
    lemma_second_drop_name(words, None, false, false, i, j);
}

proof fn lemma_no_drop_name(words: Seq<Seq<char>>, force: bool, snapshots: bool)
    ensures
        (forall|k: int| 0 <= k < words.len() ==> is_drop_flag(#[trigger] words[k]))
            ==> cli::drop_words(words, None, force, snapshots) is Err,
    decreases words.len(),
{
    if words.len() > 0 && forall|k: int|
        0 <= k < words.len() ==> is_drop_flag(#[trigger] words[k]) {
        let rest = words.skip(1);
        assert(is_drop_flag(words[0]));
        assert forall|k: int| 0 <= k < rest.len() implies is_drop_flag(#[trigger] rest[k]) by {
            assert(rest[k] == words[k + 1]);
        }
        lemma_no_drop_name(rest, true, snapshots);
        lemma_no_drop_name(rest, force, true);
    }
}

proof fn lemma_second_drop_name(
    words: Seq<Seq<char>>,
    name: Option<Seq<char>>,
    force: bool,
    snapshots: bool,
    i: int,
    j: int,
)
    ensures
        name is None && 0 <= i < j < words.len() && !is_drop_flag(words[i]) && !is_drop_flag(
            words[j],
        ) ==> cli::drop_words(words, name, force, snapshots) is Err,
        name is Some && 0 <= j < words.len() && !is_drop_flag(words[j]) ==> cli::drop_words(
            words,
            name,
            force,
            snapshots,
        ) is Err,
    decreases words.len(),
{
    if words.len() > 0 {
        let rest = words.skip(1);
        let w = words[0];
        if w == "--force"@ {
            lemma_second_drop_name(rest, name, true, snapshots, i - 1, j - 1);
        } else if w == "--snapshots"@ {
            lemma_second_drop_name(rest, name, force, true, i - 1, j - 1);
        } else if name is None {
            lemma_second_drop_name(rest, Some(w), force, snapshots, i - 1, j - 1);
        }
    }
}

/// The words of `open` are read one after the other: the first is the name,
/// and behind it a word that starts at the root is the path, once. Without a
/// name nothing is opened.
pub proof fn open_is_read(
    rest: Seq<Seq<char>>,
    before: cli::OpenArgsModel,
    name: Seq<char>,
    path: Seq<char>,
)
    requires
        path.len() > 0,
        path[0] == '/',
    ensures
        before.name is None ==> cli::open_words(Seq::<Seq<char>>::empty(), before) is Err,
        before.name is Some ==> cli::open_words(Seq::<Seq<char>>::empty(), before) == Ok::<
            cli::OpenArgsModel,
            Seq<char>,
        >(before),
        before.name is None ==> cli::open_words(seq![name] + rest, before) == cli::open_words(
            rest,
            cli::OpenArgsModel { name: Some(name), guest: before.guest, path: before.path },
        ),
        before.name is Some && before.path is None ==> cli::open_words(seq![path] + rest, before)
            == cli::open_words(
            rest,
            cli::OpenArgsModel { name: before.name, guest: before.guest, path: Some(path) },
        ),
        before.name is Some && before.path is Some ==> cli::open_words(seq![path] + rest, before)
            == Err::<cli::OpenArgsModel, Seq<char>>("unexpected argument '"@ + path + "'"@),
{
    assert((seq![name] + rest).skip(1) =~= rest);
    assert((seq![path] + rest).skip(1) =~= rest);
}

/// A number behind the name is the port, and a second one is refused.
pub proof fn open_ports_are_read(
    rest: Seq<Seq<char>>,
    before: cli::OpenArgsModel,
    port: u16,
)
    requires
        before.name is Some,
    ensures
        before.guest is None ==> cli::open_words(seq![text::decimal(port as nat)] + rest, before)
            == cli::open_words(
            rest,
            cli::OpenArgsModel { name: before.name, guest: Some(port), path: before.path },
        ),
        before.guest is Some ==> cli::open_words(
            seq![text::decimal(port as nat)] + rest,
            before,
        ) is Err,
{
    let p = text::decimal(port as nat);
    text::decimal_round_trip(port as nat);
    assert(text::is_digit(p[0]));
    assert(text::unsigned_value(p, 0xffff) == Some(port as nat));
    assert((seq![p] + rest).skip(1) =~= rest);
}

/// Names that are made up for two processes are different.
pub proof fn made_up_names_are_different(a: u32, b: u32)
    requires
        a != b,
        a < 0xffff_ffff,
        b < 0xffff_ffff,
    ensures
        cli::made_up_name(a) != cli::made_up_name(b),
{
    reveal_strlit("m_");
    let m: nat = 0xffff_ffff;
    let k: nat = 2654435761;
    let x = (a as nat) * k % m;
    let y = (b as nat) * k % m;
    let s = text::hex_padded(x, 8);
    let t = text::hex_padded(y, 8);
    if cli::made_up_name(a) == cli::made_up_name(b) {
        assert(s =~= cli::made_up_name(a).skip(2));
        assert(t =~= cli::made_up_name(b).skip(2));
        reveal_with_fuel(hex_reach, 9);
        lemma_hex_told_apart(x, y, 8);
        lemma_multiples_differ(a as int, b as int);
    }
}

/// The number of texts of so many hexadecimal digits.
spec fn hex_reach(width: nat) -> nat
    decreases width,
{
    if width == 0 {
        1
    } else {
        16 * hex_reach((width - 1) as nat)
    }
}

proof fn lemma_hex_told_apart(x: nat, y: nat, width: nat)
    requires
        x < hex_reach(width),
        y < hex_reach(width),
        text::hex_padded(x, width) == text::hex_padded(y, width),
    ensures
        x == y,
    decreases width,
{
    if width > 0 {
        let s = text::hex_padded(x, width);
        let t = text::hex_padded(y, width);
        assert(s.last() == text::hex_digit(x % 16));
        assert(t.last() == text::hex_digit(y % 16));
        assert(s.drop_last() =~= text::hex_padded(x / 16, (width - 1) as nat));
        assert(t.drop_last() =~= text::hex_padded(y / 16, (width - 1) as nat));
        lemma_hex_told_apart(x / 16, y / 16, (width - 1) as nat);
    }
}

proof fn lemma_multiples_differ(a: int, b: int)
    requires
        0 <= a < 0xffff_ffff,
        0 <= b < 0xffff_ffff,
        a * 2654435761 % 0xffff_ffff == b * 2654435761 % 0xffff_ffff,
    ensures
        a == b,
{
    let d = a - b;
    let q = a * 2654435761 / 0xffff_ffff - b * 2654435761 / 0xffff_ffff;
    assert(d * 2654435761 == q * 0xffff_ffff);
    let z = q * 3302462161 - d * 2041033856;
    assert(d == z * 0xffff_ffff);
}

/// A commit is shown by its first twelve characters, and whole where it has
/// no more.
pub proof fn commits_are_shortened(sha: Seq<char>)
    requires
        vstd::utf8::is_ascii_chars(sha),
    ensures
        sha.len() >= 12 ==> cli::short(sha) == sha.take(12),
        sha.len() < 12 ==> cli::short(sha) == sha,
        cli::shortens(Some(sha)),
{
    text::ascii_prefix(sha, 12);
    vstd::utf8::is_ascii_chars_encode_utf8(sha);
}

/// What `save` reports tells a new snapshot from one that was there, and
/// names it with its commit.
pub proof fn saves_are_reported(name: Seq<char>, o: lifecycle::SaveOutcome)
    ensures
        o.fresh ==> ("saved '"@ + name + "' as "@ + o.snapshot.snapshot_id@).is_prefix_of(
            cli::save_text(name, o),
        ),
        !o.fresh ==> ("'"@ + name + "' unchanged since "@ + o.snapshot.snapshot_id@).is_prefix_of(
            cli::save_text(name, o),
        ),
        o.snapshot.head_sha is Some ==> (cli::short(o.snapshot.head_sha->0@) + ")"@).is_suffix_of(
            cli::save_text(name, o),
        ),
        o.snapshot.head_sha is None ==> ("(no commit)"@ + ")"@).is_suffix_of(
            cli::save_text(name, o),
        ),
{
    let t = cli::save_text(name, o);
    let fresh = "saved '"@ + name + "' as "@ + o.snapshot.snapshot_id@;
    let old = "'"@ + name + "' unchanged since "@ + o.snapshot.snapshot_id@;
    if o.fresh {
        assert(fresh =~= t.take(fresh.len() as int));
    } else {
        assert(old =~= t.take(old.len() as int));
    }
    if o.snapshot.head_sha is Some {
        let end = cli::short(o.snapshot.head_sha->0@) + ")"@;
        assert(end =~= t.subrange(t.len() - end.len(), t.len() as int));
    } else {
        let end = "(no commit)"@ + ")"@;
        assert(end =~= t.subrange(t.len() - end.len(), t.len() as int));
    }
}

/// What `new` reports says what became of the machine: it names the snapshot
/// that it was restored from, and notes where that replaced a live state.
pub proof fn new_machines_are_reported(
    handle: Seq<char>,
    restored: Option<store::Snapshot>,
    created: bool,
)
    ensures
        ({
            let lines = cli::new_report_text(handle, restored, created);
            &&& lines.len() == if restored is Some && !created {
                2int
            } else {
                1int
            }
            &&& lines[0] is Out
            &&& lines.len() == 2 ==> lines[1] is Note
            &&& restored is Some ==> ("machine '"@ + handle + "' restored from snapshot "@
                + restored->0.snapshot_id@).is_prefix_of(lines[0]->Out_0)
            &&& restored is None && created ==> lines[0] == cli::ShownModel::Out(
                "machine '"@ + handle + "' created"@,
            )
            &&& restored is None && !created ==> lines[0] == cli::ShownModel::Out(
                "machine '"@ + handle + "' ready"@,
            )
        }),
{
    let lines = cli::new_report_text(handle, restored, created);
    if restored is Some {
        let head = "machine '"@ + handle + "' restored from snapshot "@ + restored->0.snapshot_id@;
        let line = lines[0]->Out_0;
        assert(head =~= line.take(head.len() as int));
    }
}

/// Every machine has its line, and every one of its snapshots has one.
pub proof fn every_machine_is_shown(rows: Seq<lifecycle::LsRow>, i: int)
    requires
        0 <= i < rows.len(),
    ensures
        cli::listing(rows).contains(cli::machine_line(rows[i])),
        forall|j: int|
            0 <= j < rows[i].snapshots@.len() ==> cli::listing(rows).contains(
                cli::snapshot_line(#[trigger] rows[i].snapshots@[j]),
            ),
        cli::listing(rows).len() >= 1 + rows.len(),
{
    lemma_rows_are_shown(rows, i);
    let all = cli::all_rows(rows);
    let shown = cli::listing(rows);
    assert(shown.skip(1) =~= all);
    assert forall|x: Seq<char>| all.contains(x) implies #[trigger] shown.contains(x) by {
        let k = choose|k: int| 0 <= k < all.len() && all[k] == x;
        assert(shown[k + 1] == x);
    }
}

proof fn lemma_rows_are_shown(rows: Seq<lifecycle::LsRow>, i: int)
    requires
        0 <= i < rows.len(),
    ensures
        cli::all_rows(rows).contains(cli::machine_line(rows[i])),
        forall|j: int|
            0 <= j < rows[i].snapshots@.len() ==> cli::all_rows(rows).contains(
                cli::snapshot_line(#[trigger] rows[i].snapshots@[j]),
            ),
        cli::all_rows(rows).len() >= rows.len(),
    decreases rows.len(),
{
    let before = cli::all_rows(rows.drop_last());
    let last = cli::row_lines(rows.last());
    let all = cli::all_rows(rows);
    if i == rows.len() - 1 {
        if rows.len() > 1 {
            lemma_rows_are_shown(rows.drop_last(), 0);
        }
        assert(all[before.len() as int] == cli::machine_line(rows[i]));
        assert forall|j: int| 0 <= j < rows[i].snapshots@.len() implies all.contains(
            cli::snapshot_line(#[trigger] rows[i].snapshots@[j]),
        ) by {
            assert(last[1 + j] == cli::snapshot_line(rows[i].snapshots@[j]));
            assert(all[before.len() + 1 + j] == last[1 + j]);
        }
    } else {
        lemma_rows_are_shown(rows.drop_last(), i);
        assert(rows.drop_last()[i] == rows[i]);
        assert forall|x: Seq<char>| before.contains(x) implies #[trigger] all.contains(x) by {
            let k = choose|k: int| 0 <= k < before.len() && before[k] == x;
            assert(all[k] == x);
        }
    }
}

/// The line of a machine says its handle, whether it runs and otherwise the
/// state that the registry has, the commit it started from, its ports and
/// the number of its snapshots.
pub proof fn machines_are_described(row: lifecycle::LsRow)
    ensures
        cli::machine_line(row) == text::padded(row.machine.handle@, 24) + " "@ + text::padded(
            if row.running {
                "running"@
            } else {
                row.machine.lifecycle@
            },
            8,
        ) + " "@ + text::padded(
            if row.machine.base_commit is Some {
                cli::short(row.machine.base_commit->0@)
            } else {
                "-"@
            },
            14,
        ) + " "@ + text::padded(cli::ports_text(row.machine.port_map@), 22) + " "@ + text::decimal(
            row.snapshots@.len(),
        ),
        row.machine.handle@.is_prefix_of(cli::machine_line(row)),
{
    let line = cli::machine_line(row);
    let h = row.machine.handle@;
    assert(h =~= line.take(h.len() as int));
}

/// A text that is padded keeps its characters, has blanks behind them, and
/// is at least as wide as asked.
pub proof fn padding_keeps_the_text(s: Seq<char>, width: nat, i: int)
    ensures
        text::padded(s, width).len() >= width,
        text::padded(s, width).len() == s.len() || text::padded(s, width).len() == width,
        s.is_prefix_of(text::padded(s, width)),
        s.len() <= i < text::padded(s, width).len() ==> text::padded(s, width)[i] == ' ',
{
    let t = text::padded(s, width);
    assert(s =~= t.take(s.len() as int));
}

/// The ports of a machine are shown in their order, each host port with an
/// arrow to its guest port.
pub proof fn ports_are_shown(map: Seq<(u16, u16)>)
    requires
        map.len() > 0,
    ensures
        cli::ports_text(Seq::<char>::empty()) == "(none)"@,
        cli::ports_text(ports::port_map_text(map)) == seqs::join(
            map.map_values(
                |pair: (u16, u16)|
                    text::decimal(pair.0 as nat) + "->"@ + text::decimal(pair.1 as nat),
            ),
            " "@,
        ),
{
    reveal_strlit(",");
    let parts = map.map_values(|pair: (u16, u16)| ports::pair_text(pair));
    assert(","@ =~= seq![',']);
    assert forall|i: int| 0 <= i < parts.len() implies !(#[trigger] parts[i]).contains(',')
        && parts[i].len() > 0 by {
        ports::lemma_pair_read(map[i]);
    }
    seqs::split_of_join(parts, ',');
    let line = ports::port_map_text(map);
    if line.len() == 0 {
        assert(seqs::split(line, ',') =~= seq![Seq::<char>::empty()]);
        assert(parts[0].len() > 0);
    }
    let shown = parts.map_values(|p: Seq<char>| cli::arrowed(p));
    let wanted = map.map_values(
        |pair: (u16, u16)| text::decimal(pair.0 as nat) + "->"@ + text::decimal(pair.1 as nat),
    );
    assert forall|i: int| 0 <= i < parts.len() implies shown[i] == wanted[i] by {
        lemma_arrow(map[i]);
    }
    assert(shown =~= wanted);
}

proof fn lemma_arrow(pair: (u16, u16))
    ensures
        cli::arrowed(ports::pair_text(pair)) == text::decimal(pair.0 as nat) + "->"@
            + text::decimal(pair.1 as nat),
{
    reveal_strlit(":");
    let h = text::decimal(pair.0 as nat);
    let g = text::decimal(pair.1 as nat);
    text::decimal_round_trip(pair.0 as nat);
    let s = ports::pair_text(pair);
    assert(s[h.len() as int] == ':');
    assert forall|j: int| 0 <= j < h.len() implies s[j] != ':' by {
        assert(s[j] == h[j]);
        assert(text::is_digit(h[j]));
    }
    seqs::lemma_index_of(s, ':', h.len() as int);
    assert(s.take(h.len() as int) =~= h);
    assert(s.skip(h.len() as int + 1) =~= g);
}

/// The host passes exactly where everything that was looked for was found,
/// and each finding is the answer of its own check.
pub proof fn hosts_are_checked(checks: Seq<cli::Check>, facts: cli::HostFacts)
    requires
        checks.map_values(|c: cli::Check| cli::check_model(c)) == cli::host_check_list(facts),
    ensures
        cli::all_pass(checks) <==> facts.firmware && facts.network && facts.clones && facts.tools
            && facts.signed,
        checks.len() == 5,
        exists|i: int|
            0 <= i < 5 && (#[trigger] checks[i]).name@ == "machine firmware installed"@
                && checks[i].pass == facts.firmware,
        exists|i: int|
            0 <= i < 5 && (#[trigger] checks[i]).name@ == "machine network runtime installed"@
                && checks[i].pass == facts.network,
        exists|i: int|
            0 <= i < 5 && (#[trigger] checks[i]).name@ == "storage supports copy-on-write clones"@
                && checks[i].pass == facts.clones,
        exists|i: int|
            0 <= i < 5 && (#[trigger] checks[i]).name@ == "filesystem tools installed"@
                && checks[i].pass == facts.tools,
        exists|i: int|
            0 <= i < 5 && (#[trigger] checks[i]).name@ == "binary is signed for machine isolation"@
                && checks[i].pass == facts.signed,
{
    let said = checks.map_values(|c: cli::Check| cli::check_model(c));
    assert(said.len() == checks.len());
    assert(cli::host_check_list(facts).len() == 5);
    assert(said[0] == cli::check_model(checks[0]));
    assert(said[1] == cli::check_model(checks[1]));
    assert(said[2] == cli::check_model(checks[2]));
    assert(said[3] == cli::check_model(checks[3]));
    assert(said[4] == cli::check_model(checks[4]));
}

/// A check that failed is shown as failed, with its hint on the next line,
/// and one that passed is shown as passed.
pub proof fn checks_are_shown(checks: Seq<cli::Check>, i: int)
    requires
        0 <= i < checks.len(),
    ensures
        checks[i].pass ==> cli::all_checks(checks).contains("ok  "@ + checks[i].name@),
        !checks[i].pass ==> exists|k: int|
            0 <= k < cli::all_checks(checks).len() - 1 && #[trigger] cli::all_checks(checks)[k]
                == "FAIL "@ + checks[i].name@ && cli::all_checks(checks)[k + 1] == "     "@
                + checks[i].hint@,
    decreases checks.len(),
{
    let before = cli::all_checks(checks.drop_last());
    let all = cli::all_checks(checks);
    let n = before.len() as int;
    if i == checks.len() - 1 {
        if checks[i].pass {
            assert(all[n] == "ok  "@ + checks[i].name@);
        } else {
            assert(all[n] == "FAIL "@ + checks[i].name@);
            assert(all[n + 1] == "     "@ + checks[i].hint@);
        }
    } else {
        checks_are_shown(checks.drop_last(), i);
        assert(checks.drop_last()[i] == checks[i]);
        if checks[i].pass {
            let k = choose|k: int| 0 <= k < n && before[k] == "ok  "@ + checks[i].name@;
            assert(all[k] == before[k]);
        } else {
            let k = choose|k: int|
                0 <= k < n - 1 && #[trigger] before[k] == "FAIL "@ + checks[i].name@ && before[k
                    + 1] == "     "@ + checks[i].hint@;
            assert(all[k] == before[k]);
            assert(all[k + 1] == before[k + 1]);
        }
    }
}

/// A word is left as it is only where no character of it means anything to a
/// shell; otherwise it stands between single quotes.
pub proof fn special_characters_are_quoted(s: Seq<char>, i: int)
    requires
        0 <= i < s.len(),
        s[i] as u32 <= 0x2a && s[i] != '%' || ';' == s[i] || '<' == s[i] || '>' == s[i] || '?'
            == s[i] || '[' == s[i] || ']' == s[i] || '\\' == s[i] || '^' == s[i] || '`' == s[i]
            || '{' == s[i] || '|' == s[i] || '}' == s[i] || '~' == s[i] || s[i] as u32 >= 0x7f,
    ensures
        shell::quoted(s).len() >= 2 + s.len(),
        shell::quoted(s)[0] == '\'',
        shell::quoted(s).last() == '\'',
{
    reveal_strlit("'");
    assert(!shell::is_plain(s[i]));
    lemma_replaced_is_longer(s);
}

proof fn lemma_replaced_is_longer(s: Seq<char>)
    ensures
        text::replaced(s, '\'', "'\\''"@).len() >= s.len(),
    decreases s.len(),
{
    reveal_strlit("'\\''");
    if s.len() > 0 {
        lemma_replaced_is_longer(s.drop_last());
    }
}

/// A word of nothing is written as two quotes, so that it stays a word.
pub proof fn empty_words_are_quoted()
    ensures
        shell::quoted(Seq::<char>::empty()) == seq!['\'', '\''],
{
    reveal_strlit("'");
    assert(shell::quoted(Seq::<char>::empty()) =~= seq!['\'', '\'']);
}

/// Trimming takes the white space at both ends and nothing else.
pub proof fn only_white_space_is_trimmed(a: Seq<char>, s: Seq<char>, b: Seq<char>)
    requires
        s.len() > 0,
        !text::is_space(s[0]),
        !text::is_space(s.last()),
        forall|i: int| 0 <= i < a.len() ==> text::is_space(#[trigger] a[i]),
        forall|i: int| 0 <= i < b.len() ==> text::is_space(#[trigger] b[i]),
    ensures
        text::trimmed(a + s + b) == s,
{
    lemma_trimmed_behind(a, s + b);
    assert(a + (s + b) =~= a + s + b);
    lemma_trimmed_before(s, b);
}

proof fn lemma_trimmed_behind(a: Seq<char>, t: Seq<char>)
    requires
        t.len() > 0,
        !text::is_space(t[0]),
        forall|i: int| 0 <= i < a.len() ==> text::is_space(#[trigger] a[i]),
    ensures
        text::trimmed_start(a + t) == t,
    decreases a.len(),
{
    let all = a + t;
    if a.len() == 0 {
        assert(all =~= t);
    } else {
        assert(all[0] == a[0]);
        assert(all.skip(1) =~= a.skip(1) + t);
        lemma_trimmed_behind(a.skip(1), t);
    }
}

proof fn lemma_trimmed_before(s: Seq<char>, b: Seq<char>)
    requires
        s.len() > 0,
        !text::is_space(s.last()),
        forall|i: int| 0 <= i < b.len() ==> text::is_space(#[trigger] b[i]),
    ensures
        text::trimmed_end(s + b) == s,
    decreases b.len(),
{
    let all = s + b;
    if b.len() == 0 {
        assert(all =~= s);
    } else {
        assert(all.last() == b[b.len() - 1]);
        assert(all.drop_last() =~= s + b.drop_last());
        lemma_trimmed_before(s, b.drop_last());
    }
}

/// Among the ASCII characters, white space is the blank and the controls
/// from the tab to the carriage return.
pub proof fn white_space_in_ascii(c: char)
    requires
        (c as u32) < 0x80,
    ensures
        text::is_space(c) <==> c == ' ' || c == '\t' || c == '\n' || c as u32 == 0xb || c as u32
            == 0xc || c == '\r',
{
}

/// Lines that were written one behind the other, each with its line feed,
/// are read back, and so is a last one that has none.
pub proof fn lines_are_read_back(lines: Seq<Seq<char>>, last: Seq<char>)
    requires
        forall|i: int|
            0 <= i < lines.len() ==> !(#[trigger] lines[i]).contains('\n') && (lines[i].len() > 0
                ==> lines[i].last() != '\r'),
        !last.contains('\n'),
    ensures
        text::lines_of(seqs::join(lines.push(last), seq!['\n'])) == if last.len() == 0 {
            lines
        } else {
            lines.push(last)
        },
{
    let all = lines.push(last);
    assert forall|i: int| 0 <= i < all.len() implies !(#[trigger] all[i]).contains('\n') by {
        if i < lines.len() {
            assert(all[i] == lines[i]);
        }
    }
    seqs::split_of_join(all, '\n');
    assert(all.drop_last() =~= lines);
    let whole = lines.map_values(|p: Seq<char>| text::without_return(p));
    assert forall|i: int| 0 <= i < lines.len() implies whole[i] == lines[i] by {
        assert(!lines[i].contains('\n'));
    }
    assert(whole =~= lines);
}

/// Texts are ordered by the first character in which they differ.
pub proof fn first_difference_decides(a: Seq<char>, b: Seq<char>, k: int)
    requires
        0 <= k < a.len(),
        k < b.len(),
        a.take(k) == b.take(k),
        a[k] != b[k],
    ensures
        text::precedes(a, b) <==> a[k] < b[k],
    decreases k,
{
    if k > 0 {
        assert(a.take(k)[0] == a[0]);
        assert(b.take(k)[0] == b[0]);
        assert(a.skip(1).take(k - 1) =~= a.take(k).skip(1));
        assert(b.skip(1).take(k - 1) =~= b.take(k).skip(1));
        first_difference_decides(a.skip(1), b.skip(1), k - 1);
    }
}

/// A text comes before every longer one that it starts.
pub proof fn prefixes_come_first(a: Seq<char>, more: Seq<char>)
    requires
        more.len() > 0,
    ensures
        text::precedes(a, a + more),
        !text::precedes(a + more, a),
    decreases a.len(),
{
    let b = a + more;
    if a.len() > 0 {
        assert(b[0] == a[0]);
        assert(b.skip(1) =~= a.skip(1) + more);
        prefixes_come_first(a.skip(1), more);
    }
}

/// What was synced is reported with its number of files, its size and the
/// place where it is.
pub proof fn syncs_are_reported(s: sync::SyncOutcome, megabytes: Seq<char>)
    ensures
        cli::synced_text(s, megabytes) == "working tree synced: "@ + text::decimal(s.files as nat)
            + " files ("@ + megabytes + " MB) at "@ + s.workdir@,
        s.workdir@.is_suffix_of(cli::synced_text(s, megabytes)),
{
    let t = cli::synced_text(s, megabytes);
    assert(s.workdir@ =~= t.subrange(t.len() - s.workdir@.len(), t.len() as int));
}

/// A machine has the name that it is given. One is made up only for a machine
/// that is detached; any other needs a name.
pub proof fn machines_are_named(args: cli::NewArgsModel, pid: u32)
    ensures
        args.name is Some ==> cli::given_name(args, pid) == args.name,
        args.name is None && args.detached ==> cli::given_name(args, pid) is Some
            && "m_"@.is_prefix_of(cli::given_name(args, pid)->0),
        args.name is None && !args.detached ==> cli::given_name(args, pid) is None,
{
    let t = cli::made_up_name(pid);
    assert("m_"@ =~= t.take("m_"@.len() as int));
}

/// A port is opened on the host itself, at the path that was asked for and at
/// the root otherwise.
pub proof fn addresses_are_local(port: u16, path: Seq<char>)
    ensures
        cli::address_of(port, Some(path)) == "http://localhost:"@ + text::decimal(port as nat)
            + path,
        cli::address_of(port, None) == "http://localhost:"@ + text::decimal(port as nat) + "/"@,
{
}

/// The doctor succeeds exactly where no check failed.
pub proof fn doctors_find_failures(checks: Seq<cli::Check>, i: int)
    ensures
        (forall|k: int| 0 <= k < checks.len() ==> (#[trigger] checks[k]).pass)
            ==> cli::doctor_code(checks) == 0,
        0 <= i < checks.len() && !checks[i].pass ==> cli::doctor_code(checks) != 0,
{
}

/// Numbers are written with ten digits, the most significant first, and
/// without leading zeros.
pub proof fn numbers_are_written(n: nat, d: nat)
    requires
        d < 10,
    ensures
        text::decimal(d) == seq!["0123456789"@[d as int]],
        n > 0 ==> text::decimal(10 * n + d) == text::decimal(n).push("0123456789"@[d as int]),
        text::decimal_signed(n as int) == text::decimal(n),
        n > 0 ==> text::decimal_signed(-(n as int)) == seq!['-'] + text::decimal(n),
{
    reveal_strlit("0123456789");
    let m = 10 * n + d;
    assert(m / 10 == n && m % 10 == d);
}

/// Bytes are written with sixteen digits, in lower case, the more significant
/// half first.
pub proof fn bytes_are_written_in_hexadecimal(bytes: Seq<u8>, b: u8)
    ensures
        text::hex_of(Seq::<u8>::empty()).len() == 0,
        text::hex_of(bytes.push(b)) == text::hex_of(bytes) + seq![
            "0123456789abcdef"@[(b / 16) as int],
            "0123456789abcdef"@[(b % 16) as int],
        ],
{
    reveal_strlit("0123456789abcdef");
    reveal_with_fuel(text::hex_padded, 3);
    let all = bytes.push(b);
    assert(all.drop_last() =~= bytes);
    assert(all.last() == b);
    assert(text::hex_padded(b as nat, 2) =~= seq![
        "0123456789abcdef"@[(b / 16) as int],
        "0123456789abcdef"@[(b % 16) as int],
    ]);
}

/// A number that is written is read, with a sign or without, up to what is
/// allowed and no further.
pub proof fn numbers_are_read(n: nat, max: nat)
    ensures
        n <= max ==> text::unsigned_value(text::decimal(n), max) == Some(n),
        n <= max ==> text::unsigned_value(seq!['+'] + text::decimal(n), max) == Some(n),
        n > max ==> text::unsigned_value(text::decimal(n), max) is None,
        text::unsigned_value(Seq::<char>::empty(), max) is None,
        text::unsigned_value(seq!['-'] + text::decimal(n), max) is None,
        n <= i32::MAX ==> text::i32_value(text::decimal(n)) == Some(n as int),
        n <= i32::MAX ==> text::i32_value(seq!['-'] + text::decimal(n)) == Some(-(n as int)),
        n > i32::MAX ==> text::i32_value(text::decimal(n)) is None,
{
    text::decimal_round_trip(n);
    let d = text::decimal(n);
    assert(text::is_digit(d[0]));
    assert((seq!['+'] + d).skip(1) =~= d);
    let minus = seq!['-'] + d;
    assert(minus.skip(1) =~= d);
    assert(minus[0] == '-');
    lemma_starts_like_no_number(minus);
}

/// What starts with no digit is no number.
pub proof fn lemma_starts_like_no_number(s: Seq<char>)
    requires
        s.len() > 0,
        !text::is_digit(s[0]),
    ensures
        text::digits_value(s) is None,
    decreases s.len(),
{
    if s.len() > 1 {
        lemma_starts_like_no_number(s.drop_last());
    }
}

/// Every repetition of a prefix is taken away, and what remains does not start
/// with it.
pub proof fn repeated_prefixes_go(s: Seq<char>, p: Seq<char>)
    requires
        p.len() > 0,
    ensures
        text::without_prefixes(p + s, p) == text::without_prefixes(s, p),
        !p.is_prefix_of(text::without_prefixes(s, p)),
    decreases s.len(),
{
    let all = p + s;
    assert(p =~= all.take(p.len() as int));
    assert(all.skip(p.len() as int) =~= s);
    if p.is_prefix_of(s) {
        let t = s.skip(p.len() as int);
        repeated_prefixes_go(t, p);
    }
}

/// Words are parted by white space of any kind: white space adds nothing, and
/// the first character behind it starts a word.
pub proof fn words_are_parted_by_white_space(s: Seq<char>, c: char)
    ensures
        text::is_space(c) ==> text::words_of(s.push(c)) == text::words_of(s),
        !text::is_space(c) && (s.len() == 0 || text::is_space(s.last())) ==> text::words_of(
            s.push(c),
        ) == text::words_of(s).push(seq![c]),
        !text::is_space(c) && s.len() > 0 && !text::is_space(s.last()) ==> text::words_of(
            s.push(c),
        ).len() == text::words_of(s).len() && text::words_of(s.push(c)).last() == text::words_of(
            s,
        ).last().push(c),
{
    let t = s.push(c);
    assert(t.drop_last() =~= s);
    assert(t.last() == c);
    text::lemma_words_open(s);
    if s.len() > 0 {
        assert(t[t.len() - 2] == s.last());
    }
}

/// The entitlement is found wherever it is named, in what was said on either
/// side.
pub proof fn entitlements_are_found(before: Seq<char>, after: Seq<char>, other: Seq<char>)
    ensures
        cli::entitled(before + "hypervisor"@ + after, other),
        cli::entitled(other, before + "hypervisor"@ + after),
        !cli::entitled(Seq::<char>::empty(), Seq::<char>::empty()),
{
    reveal_strlit("hypervisor");
    let s = before + "hypervisor"@ + after;
    let i = before.len() as int;
    assert(s.subrange(i, i + "hypervisor"@.len()) =~= "hypervisor"@);
}

/// Machines are shown in the order of the rows, each with its snapshots right
/// below it, in their order; without machines that is said.
pub proof fn machines_are_shown_in_order(rows: Seq<lifecycle::LsRow>, row: lifecycle::LsRow)
    ensures
        cli::listing(Seq::<lifecycle::LsRow>::empty()) == seq!["no machines"@],
        cli::listing(seq![row]).len() == 2 + row.snapshots@.len(),
        rows.len() > 0 ==> cli::listing(rows.push(row)) == cli::listing(rows) + seq![
            cli::machine_line(row),
        ] + row.snapshots@.map_values(
            |s: store::Snapshot|
                "  "@ + s.snapshot_id@ + " @ "@ + if s.head_sha is Some {
                    cli::short(s.head_sha->0@)
                } else {
                    "(no commit)"@
                },
        ),
{
    let all = rows.push(row);
    assert(all.drop_last() =~= rows);
    assert(all.last() == row);
    let lines = row.snapshots@.map_values(
        |s: store::Snapshot|
            "  "@ + s.snapshot_id@ + " @ "@ + if s.head_sha is Some {
                cli::short(s.head_sha->0@)
            } else {
                "(no commit)"@
            },
    );
    assert(row.snapshots@.map_values(|s: store::Snapshot| cli::snapshot_line(s)) =~= lines);
    if rows.len() > 0 {
        assert(cli::listing(all) =~= cli::listing(rows) + seq![cli::machine_line(row)] + lines);
    }
    let one = seq![row];
    assert(one.drop_last() =~= Seq::<lifecycle::LsRow>::empty());
    assert(cli::all_rows(one.drop_last()).len() == 0);
    assert(cli::all_rows(one).len() == 1 + row.snapshots@.len());
}

/// Checks are shown one after the other, in their order.
pub proof fn checks_are_shown_in_order(checks: Seq<cli::Check>, c: cli::Check)
    ensures
        cli::all_checks(Seq::<cli::Check>::empty()).len() == 0,
        c.pass ==> cli::all_checks(checks.push(c)) == cli::all_checks(checks).push(
            "ok  "@ + c.name@,
        ),
        !c.pass ==> cli::all_checks(checks.push(c)) == cli::all_checks(checks).push(
            "FAIL "@ + c.name@,
        ).push("     "@ + c.hint@),
{
    let all = checks.push(c);
    assert(all.drop_last() =~= checks);
    assert(all.last() == c);
    if c.pass {
        assert(cli::all_checks(all) =~= cli::all_checks(checks).push("ok  "@ + c.name@));
    } else {
        assert(cli::all_checks(all) =~= cli::all_checks(checks).push("FAIL "@ + c.name@).push(
            "     "@ + c.hint@,
        ));
    }
}

} // verus!
