//! How the working tree follows its user into a machine.
use crate::archive;
use crate::bytes;
use crate::dirs;
use crate::guest;
use crate::laws::images;
use crate::names;
use crate::paths;
use crate::proto;
use crate::seqs;
use crate::store;
use crate::sync;
use crate::text;
use vstd::prelude::*;

verus! {

/// Every file that git lists is listed, in order, under its own name; only
/// what text a name stands for is left to the decoding.
pub proof fn every_file_is_listed(names: Seq<Seq<char>>)
    requires
        sync::are_files(names),
    ensures
        sync::listed(sync::terminated(names)) == names.map_values(
            |n: Seq<char>| text::lossy_of(vstd::utf8::encode_utf8(n)),
        ),
{
    sync::lemma_terminated_kept(names);
    let parts = sync::encoded(names);
    assert(sync::listed(sync::terminated(names)) =~= names.map_values(
        |n: Seq<char>| text::lossy_of(vstd::utf8::encode_utf8(n)),
    ));
}

/// What `width` bytes can count.
pub open spec fn reach(width: nat) -> nat
    decreases width,
{
    if width == 0 {
        1
    } else {
        256 * reach((width - 1) as nat)
    }
}

/// Numbers are told apart by their bytes, the least significant first.
pub proof fn numbers_are_told_apart(n: nat, m: nat, width: nat)
    requires
        n < reach(width),
        m < reach(width),
        bytes::little_endian(n, width) == bytes::little_endian(m, width),
    ensures
        n == m,
    decreases width,
{
    if width > 0 {
        let a = bytes::little_endian(n, width);
        let b = bytes::little_endian(m, width);
        assert(a[0] == (n % 256) as u8);
        assert(b[0] == (m % 256) as u8);
        assert(a.skip(1) =~= bytes::little_endian(n / 256, (width - 1) as nat));
        assert(b.skip(1) =~= bytes::little_endian(m / 256, (width - 1) as nat));
        numbers_are_told_apart(n / 256, m / 256, (width - 1) as nat);
    }
}

/// A number takes as many bytes as it is given, its last byte first.
pub proof fn numbers_take_their_width(n: nat, width: nat)
    ensures
        bytes::little_endian(n, width).len() == width,
        width > 0 ==> bytes::little_endian(n, width)[0] == n % 256,
    decreases width,
{
    if width > 0 {
        numbers_take_their_width(n / 256, (width - 1) as nat);
    }
}

/// Every file could be examined, and no path holds a NUL.
pub open spec fn examined(files: Seq<sync::FileStamp>) -> bool {
    forall|i: int|
        0 <= i < files.len() ==> (#[trigger] files[i]).size_and_mtime is Some
            && !files[i].path@.contains('\0')
}

proof fn lemma_fingerprint_first(files: Seq<sync::FileStamp>)
    requires
        files.len() > 0,
    ensures
        sync::fingerprint_input(files) == sync::stamp_input(files[0]) + sync::fingerprint_input(
            files.skip(1),
        ),
    decreases files.len(),
{
    let none = Seq::<u8>::empty();
    if files.len() == 1 {
        assert(files.drop_last().len() == 0);
        assert(files.skip(1).len() == 0);
        assert(sync::fingerprint_input(files.drop_last()) =~= none);
        assert(sync::fingerprint_input(files.skip(1)) =~= none);
        assert(files.last() == files[0]);
        assert(sync::fingerprint_input(files) =~= sync::stamp_input(files[0])
            + sync::fingerprint_input(files.skip(1)));
    } else {
        let t = files.drop_last();
        lemma_fingerprint_first(t);
        assert(files.skip(1).drop_last() =~= t.skip(1));
        assert(files.skip(1).last() == files.last());
        assert(sync::fingerprint_input(files) =~= sync::stamp_input(files[0])
            + sync::fingerprint_input(files.skip(1)));
    }
}

proof fn lemma_stamp_parts(f: sync::FileStamp, rest: Seq<u8>)
    requires
        f.size_and_mtime is Some,
        !f.path@.contains('\0'),
    ensures
        ({
            let all = sync::stamp_input(f) + rest;
            let n = vstd::utf8::encode_utf8(f.path@).len() as int;
            let (size, mtime) = f.size_and_mtime->0;
            &&& all.len() >= n + 25
            &&& seqs::index_of(all, 0u8) == n
            &&& all.take(n) == vstd::utf8::encode_utf8(f.path@)
            &&& all.subrange(n + 1, n + 9) == bytes::little_endian(size as nat, 8)
            &&& all.subrange(n + 9, n + 25) == bytes::little_endian(mtime as nat, 16)
            &&& all.skip(n + 25) == rest
        }),
{
    let all = sync::stamp_input(f) + rest;
    let x = vstd::utf8::encode_utf8(f.path@);
    let n = x.len() as int;
    let (size, mtime) = f.size_and_mtime->0;
    let s = bytes::little_endian(size as nat, 8);
    let t = bytes::little_endian(mtime as nat, 16);
    numbers_take_their_width(size as nat, 8);
    numbers_take_their_width(mtime as nat, 16);
    proto::lemma_wire_nonzero(f.path@);
    assert(all == x + seq![0u8] + s + t + rest);
    assert(all[n] == 0u8);
    assert forall|j: int| 0 <= j < n implies all[j] != 0u8 by {
        assert(all[j] == x[j]);
        assert(x.contains(x[j]));
    }
    seqs::lemma_index_of(all, 0u8, n);
    assert(all.take(n) =~= x);
    assert(all.subrange(n + 1, n + 9) =~= s);
    assert(all.subrange(n + 9, n + 25) =~= t);
    assert(all.skip(n + 25) =~= rest);
}

proof fn lemma_first_stamp(f: sync::FileStamp, rest: Seq<u8>, g: sync::FileStamp, other: Seq<u8>)
    requires
        f.size_and_mtime is Some,
        g.size_and_mtime is Some,
        !f.path@.contains('\0'),
        !g.path@.contains('\0'),
        sync::stamp_input(f) + rest == sync::stamp_input(g) + other,
    ensures
        f.path@ == g.path@,
        f.size_and_mtime == g.size_and_mtime,
        rest == other,
{
    lemma_stamp_parts(f, rest);
    lemma_stamp_parts(g, other);
    vstd::utf8::encode_utf8_decode_utf8(f.path@);
    vstd::utf8::encode_utf8_decode_utf8(g.path@);
    lemma_reaches();
    let (fsize, ftime) = f.size_and_mtime->0;
    let (gsize, gtime) = g.size_and_mtime->0;
    numbers_are_told_apart(fsize as nat, gsize as nat, 8);
    numbers_are_told_apart(ftime as nat, gtime as nat, 16);
}

/// Trees are told apart by what the fingerprint is made of: the same paths,
/// sizes and modification times, in the same order, and nothing less.
pub proof fn trees_are_told_apart(a: Seq<sync::FileStamp>, b: Seq<sync::FileStamp>)
    requires
        examined(a),
        examined(b),
        sync::fingerprint_input(a) == sync::fingerprint_input(b),
    ensures
        a.len() == b.len(),
        forall|i: int|
            0 <= i < a.len() ==> (#[trigger] a[i]).path@ == b[i].path@ && a[i].size_and_mtime
                == b[i].size_and_mtime,
    decreases a.len(),
{
    if a.len() == 0 {
        if b.len() > 0 {
            lemma_fingerprint_first(b);
            let first = sync::stamp_input(b[0]);
            assert(first.len() > 0) by {
                assert(examined(b));
                assert(b[0].size_and_mtime is Some);
            }
            assert(sync::fingerprint_input(b).len() >= first.len());
        }
    } else if b.len() == 0 {
        lemma_fingerprint_first(a);
        let first = sync::stamp_input(a[0]);
        assert(a[0].size_and_mtime is Some);
        assert(first.len() > 0);
        assert(sync::fingerprint_input(a).len() >= first.len());
    } else {
        lemma_fingerprint_first(a);
        lemma_fingerprint_first(b);
        assert(a[0].size_and_mtime is Some && b[0].size_and_mtime is Some);
        lemma_first_stamp(
            a[0],
            sync::fingerprint_input(a.skip(1)),
            b[0],
            sync::fingerprint_input(b.skip(1)),
        );
        let ta = a.skip(1);
        let tb = b.skip(1);
        assert forall|i: int| 0 <= i < ta.len() implies (#[trigger] ta[i]).size_and_mtime is Some
            && !ta[i].path@.contains('\0') by {
            assert(a[i + 1] == ta[i]);
        }
        assert forall|i: int| 0 <= i < tb.len() implies (#[trigger] tb[i]).size_and_mtime is Some
            && !tb[i].path@.contains('\0') by {
            assert(b[i + 1] == tb[i]);
        }
        trees_are_told_apart(ta, tb);
        assert forall|i: int| 0 <= i < a.len() implies (#[trigger] a[i]).path@ == b[i].path@
            && a[i].size_and_mtime == b[i].size_and_mtime by {
            if i > 0 {
                assert(ta[i - 1] == a[i]);
                assert(tb[i - 1] == b[i]);
            }
        }
    }
}

proof fn lemma_reaches()
    ensures
        reach(8) > u64::MAX,
        reach(16) > u128::MAX,
{
    reveal_with_fuel(reach, 17);
}

/// A path from the root with these names is taken apart into them.
pub proof fn lemma_absolute_names(names: Seq<Seq<u8>>)
    requires
        names.len() > 0,
        images::are_names(names),
    ensures
        paths::route_of(seq![47u8] + seqs::join(names, seq![47u8])) == (paths::RouteModel {
            absolute: true,
            names,
        }),
{
    let none = Seq::<u8>::empty();
    let path = seq![47u8] + seqs::join(names, seq![47u8]);
    let parts = seq![none] + names;
    lemma_join_behind(names);
    assert forall|i: int| 0 <= i < parts.len() implies !(#[trigger] parts[i]).contains(47u8) by {
        if i > 0 {
            assert(parts[i] == names[i - 1]);
        }
    }
    seqs::split_of_join(parts, 47u8);
    assert(seqs::split(path, paths::SLASH) == parts);
    assert(parts.skip(1) =~= names);
    let keep = |p: Seq<u8>| paths::is_name(p);
    assert forall|i: int| 0 <= i < names.len() implies keep(#[trigger] names[i]) by {
        assert(names[i].len() > 0);
    }
    seqs::lemma_select_all(names, keep);
    assert(parts[0] == none);
}

proof fn lemma_join_behind(names: Seq<Seq<u8>>)
    requires
        names.len() > 0,
    ensures
        seqs::join(seq![Seq::<u8>::empty()] + names, seq![47u8]) == seq![47u8] + seqs::join(
            names,
            seq![47u8],
        ),
    decreases names.len(),
{
    let none = Seq::<u8>::empty();
    let parts = seq![none] + names;
    let slash = seq![47u8];
    if names.len() == 1 {
        assert(parts.drop_last() =~= seq![none]);
        assert(seqs::join(seq![none], slash) == none);
        assert(seqs::join(names, slash) == names[0]);
        assert(parts.last() == names[0]);
        assert(seqs::join(parts, slash) =~= slash + seqs::join(names, slash));
    } else {
        let t = names.drop_last();
        lemma_join_behind(t);
        assert(parts.drop_last() =~= seq![none] + t);
        assert(seqs::join(parts, slash) =~= slash + seqs::join(names, slash));
    }
}

/// A tree belongs into the machines of its own repository, and into no other:
/// not into those of another path, nor into one that was made outside of any
/// repository, nor from outside of any.
pub proof fn trees_belong_to_their_repository(
    machine: Seq<char>,
    caller: Seq<char>,
    a: Seq<Seq<u8>>,
    b: Seq<Seq<u8>>,
)
    requires
        a.len() > 0,
        b.len() > 0,
        images::are_names(a),
        images::are_names(b),
        vstd::utf8::encode_utf8(machine) == seq![47u8] + seqs::join(a, seq![47u8]),
        vstd::utf8::encode_utf8(caller) == seq![47u8] + seqs::join(b, seq![47u8]),
    ensures
        sync::belongs(machine, Some(caller)) <==> a == b,
        !sync::belongs(machine, None),
        !sync::belongs(Seq::<char>::empty(), Some(caller)),
{
    lemma_absolute_names(a);
    lemma_absolute_names(b);
    if machine.len() == 0 {
        assert(vstd::utf8::encode_utf8(machine).len() == 0);
    }
}

/// A tree is pushed where it belongs into the machine and was not the last
/// one pushed, and the fingerprint to remember is its own.
pub proof fn changed_trees_are_pushed(
    machine: store::Machine,
    repository: Option<Seq<char>>,
    files: Seq<sync::FileStamp>,
    remembered: Option<Seq<char>>,
)
    ensures
        ({
            let print = crate::digest::hex_digest(sync::fingerprint_input(files));
            let pushed = sync::to_push(machine, repository, files, remembered);
            &&& pushed is Some ==> pushed->0 == print
            &&& pushed is Some <==> sync::belongs(machine.project_root@, repository) && remembered
                != Some(print)
            &&& remembered is None && sync::belongs(machine.project_root@, repository)
                ==> pushed is Some
        }),
{
}

/// A sync installs the files of the archive, each under its path, and no
/// directory.
pub proof fn files_are_installed(entries: Seq<(Seq<char>, u64, bool)>, name: Seq<char>)
    ensures
        guest::installed_names(entries).contains(name) <==> exists|i: int|
            {
                &&& 0 <= i < entries.len()
                &&& !(#[trigger] entries[i]).2
                &&& text::without_trailing(entries[i].0, '/') == name
            },
    decreases entries.len(),
{
    if entries.len() > 0 {
        let t = entries.drop_last();
        files_are_installed(t, name);
        let n = entries.len() - 1;
        let last = entries[n];
        if exists|i: int|
            {
                &&& 0 <= i < entries.len()
                &&& !(#[trigger] entries[i]).2
                &&& text::without_trailing(entries[i].0, '/') == name
            } {
            let i = choose|i: int|
                {
                    &&& 0 <= i < entries.len()
                    &&& !(#[trigger] entries[i]).2
                    &&& text::without_trailing(entries[i].0, '/') == name
                };
            if i < n {
                assert(t[i] == entries[i]);
            }
        }
        if guest::installed_names(t).contains(name) {
            let i = choose|i: int|
                {
                    &&& 0 <= i < t.len()
                    &&& !(#[trigger] t[i]).2
                    &&& text::without_trailing(t[i].0, '/') == name
                };
            assert(entries[i] == t[i]);
        }
        if !last.2 && text::without_trailing(last.0, '/') == name {
            assert(!entries[n].2);
        }
    }
}

/// What ends a text is taken off only where it is that character.
pub proof fn only_trailing_characters_go(s: Seq<char>, c: char)
    ensures
        s.len() == 0 || s.last() != c ==> text::without_trailing(s, c) == s,
        text::without_trailing(s.push(c), c) == text::without_trailing(s, c),
        s.len() == 0 || s[0] != c ==> text::without_leading(s, c) == s,
        text::without_leading(seq![c] + s, c) == text::without_leading(s, c),
{
    assert(s.push(c).drop_last() =~= s);
    assert((seq![c] + s).skip(1) =~= s);
}

/// What a sync reports to have installed is what the entries hold together.
pub proof fn sizes_add_up(entries: Seq<(Seq<char>, u64, bool)>, entry: (Seq<char>, u64, bool))
    ensures
        guest::total_size(Seq::<(Seq<char>, u64, bool)>::empty()) == 0,
        guest::total_size(entries.push(entry)) == guest::total_size(entries) + entry.1,
{
    assert(entries.push(entry).drop_last() =~= entries);
}

/// Deletions follow from one sync to the next: a file that the first
/// installed and the second does not is removed, and nothing is removed that
/// the first did not install or that the second does.
pub proof fn deletions_follow(
    first: guest::TreePlan,
    second: guest::TreePlan,
    target: Seq<char>,
    manifest: Option<Seq<char>>,
    a: Seq<(Seq<char>, u64, bool)>,
    b: Seq<(Seq<char>, u64, bool)>,
    name: Seq<char>,
)
    requires
        first.follows(target, manifest, a),
        second.follows(target, Some(guest::manifest_text(first.installed)), b),
        guest::lines_hold(first.installed.ordered()),
    ensures
        text::texts(second.stale@).contains(name) <==> {
            &&& exists|i: int|
                {
                    &&& 0 <= i < a.len()
                    &&& !(#[trigger] a[i]).2
                    &&& text::without_trailing(a[i].0, '/') == name
                }
            &&& !exists|i: int|
                {
                    &&& 0 <= i < b.len()
                    &&& !(#[trigger] b[i]).2
                    &&& text::without_trailing(b[i].0, '/') == name
                }
        },
        text::texts(second.stale@).contains(name) ==> exists|k: int|
            0 <= k < second.steps@.len() && #[trigger] second.steps@[k]@
                == guest::TreeStepModel::Remove(paths::joined(target, name)),
        forall|k: int|
            0 <= k < second.steps@.len() && #[trigger] second.steps@[k]@ is Remove ==> exists|n: int|
                0 <= n < second.stale@.len() && second.steps@[k]@ == guest::TreeStepModel::Remove(
                    paths::joined(target, #[trigger] second.stale@[n]@),
                ),
        second.bytes == guest::total_size(b),
{
    guest::manifest_round_trip(first.installed);
    files_are_installed(a, name);
    files_are_installed(b, name);
    let stale = text::texts(second.stale@);
    let removals = text::texts(second.removals@);
    let steps = guest::tree_steps(second.steps@);
    assert(stale.to_set().contains(name) <==> stale.contains(name));
    assert(steps.len() == second.steps@.len());
    assert(removals.len() == stale.len());
    if stale.contains(name) {
        let k = choose|k: int| 0 <= k < stale.len() && stale[k] == name;
        assert(removals[k] == paths::joined(target, name));
        assert(steps[k] == guest::TreeStepModel::Remove(removals[k]));
        assert(second.steps@[k]@ == steps[k]);
    }
    assert forall|k: int|
        0 <= k < second.steps@.len() && #[trigger] second.steps@[k]@ is Remove implies exists|n: int|
        0 <= n < second.stale@.len() && second.steps@[k]@ == guest::TreeStepModel::Remove(
            paths::joined(target, #[trigger] second.stale@[n]@),
        ) by {
        assert(second.steps@[k]@ == steps[k]);
        assert(k < removals.len());
        assert(steps[k] == guest::TreeStepModel::Remove(removals[k]));
        assert(stale[k] == second.stale@[k]@);
        assert(removals[k] == paths::joined(target, stale[k]));
    }
}

/// After a file was removed, its directory is tried first, then each one
/// above it, up to the one just below the target.
pub proof fn emptied_directories_are_climbed(dir: Seq<Seq<u8>>, target: Seq<Seq<u8>>, i: int)
    ensures
        ({
            let tried = guest::climb(dir, target);
            &&& target.is_prefix_of(dir) && dir.len() > target.len() ==> tried.len() == dir.len()
                - target.len() && tried[0] == dir && tried.last().len() == target.len() + 1
            &&& !target.is_prefix_of(dir) ==> tried.len() == 0
            &&& dir.len() <= target.len() ==> tried.len() == 0
            &&& 0 <= i < tried.len() - 1 ==> tried[i + 1] == tried[i].drop_last()
        }),
{
    let tried = guest::climb(dir, target);
    if target.is_prefix_of(dir) && dir.len() > target.len() {
        assert(tried[0] =~= dir);
    }
    if 0 <= i < tried.len() - 1 {
        assert(tried[i + 1] =~= tried[i].drop_last());
    }
}

/// The directories that are tried are those of the removed files.
pub proof fn directories_of_removed_files_are_tried(removed: Seq<Seq<char>>, names: Seq<Seq<u8>>)
    ensures
        guest::parents(removed).contains(names) <==> exists|i: int|
            {
                let route = paths::route_of(vstd::utf8::encode_utf8(#[trigger] removed[i]));
                &&& 0 <= i < removed.len()
                &&& route.absolute
                &&& route.names.len() > 0
                &&& route.names.drop_last() == names
            },
{
    if guest::parents(removed).contains(names) {
        let i = choose|i: int|
            0 <= i < removed.len() && paths::route_of(
                proto::wire(#[trigger] removed[i]),
            ).parent() == Some(paths::RouteModel { absolute: true, names });
        let route = paths::route_of(vstd::utf8::encode_utf8(removed[i]));
        assert(route.names.drop_last() == names);
    }
    if exists|i: int|
        {
            let route = paths::route_of(vstd::utf8::encode_utf8(#[trigger] removed[i]));
            &&& 0 <= i < removed.len()
            &&& route.absolute
            &&& route.names.len() > 0
            &&& route.names.drop_last() == names
        } {
        let i = choose|i: int|
            {
                let route = paths::route_of(vstd::utf8::encode_utf8(#[trigger] removed[i]));
                &&& 0 <= i < removed.len()
                &&& route.absolute
                &&& route.names.len() > 0
                &&& route.names.drop_last() == names
            };
        assert(paths::route_of(proto::wire(removed[i])).parent() == Some(
            paths::RouteModel { absolute: true, names },
        ));
    }
}

/// The agent does what it is told: it settles and powers off on exactly the
/// two reserved commands, and hands everything that does not start like a
/// tree to the shell.
pub proof fn requests_mean_what_they_say(cmd: Seq<u8>)
    ensures
        guest::meaning(cmd) is Quiesce <==> cmd == vstd::utf8::encode_utf8("__quiesce__"@),
        guest::meaning(cmd) is PowerOff <==> cmd == vstd::utf8::encode_utf8("__poweroff__"@),
        guest::meaning(cmd) is SyncTree || guest::meaning(cmd) is Malformed
            <==> vstd::utf8::encode_utf8("__synctree__\0"@).is_prefix_of(cmd),
        guest::meaning(cmd) is Shell ==> guest::meaning(cmd) == guest::RequestModel::Shell(
            text::lossy_of(cmd),
        ),
{
    reveal_strlit("__quiesce__");
    reveal_strlit("__poweroff__");
    reveal_strlit("__synctree__\0");
    let q = "__quiesce__"@;
    let p = "__poweroff__"@;
    let t = "__synctree__\0"@;
    assert(vstd::utf8::is_ascii_chars(q));
    assert(vstd::utf8::is_ascii_chars(p));
    assert(vstd::utf8::is_ascii_chars(t));
    vstd::utf8::is_ascii_chars_encode_utf8(q);
    vstd::utf8::is_ascii_chars_encode_utf8(p);
    vstd::utf8::is_ascii_chars_encode_utf8(t);
    let wq = vstd::utf8::encode_utf8(q);
    let wp = vstd::utf8::encode_utf8(p);
    let wt = vstd::utf8::encode_utf8(t);
    assert(wq.len() == 11 && wp.len() == 12 && wt.len() == 13);
}

/// The agent answers on the first port that has its name.
pub proof fn the_agents_port_is_found(entries: Seq<guest::PortEntry>)
    ensures
        match guest::serial_device(entries) {
            Some(d) => exists|i: int|
                {
                    &&& 0 <= i < entries.len()
                    &&& text::trimmed((#[trigger] entries[i]).name@) == "moo-exec"@
                    &&& d == "/dev/"@ + entries[i].device@
                    &&& forall|j: int|
                        0 <= j < i ==> text::trimmed((#[trigger] entries[j]).name@) != "moo-exec"@
                },
            None => forall|j: int|
                0 <= j < entries.len() ==> text::trimmed((#[trigger] entries[j]).name@)
                    != "moo-exec"@,
        },
    decreases entries.len(),
{
    if entries.len() > 0 {
        let t = entries.skip(1);
        the_agents_port_is_found(t);
        assert forall|j: int| 1 <= j < entries.len() implies #[trigger] entries[j] == t[j - 1] by {}
        if text::trimmed(entries[0].name@) != "moo-exec"@ {
            match guest::serial_device(t) {
                Some(d) => {
                    let i = choose|i: int|
                        {
                            &&& 0 <= i < t.len()
                            &&& text::trimmed((#[trigger] t[i]).name@) == "moo-exec"@
                            &&& d == "/dev/"@ + t[i].device@
                            &&& forall|j: int|
                                0 <= j < i ==> text::trimmed((#[trigger] t[j]).name@)
                                    != "moo-exec"@
                        };
                    assert(entries[i + 1] == t[i]);
                },
                None => {},
            }
        }
    }
}

/// A command that ends by itself is reported with its own exit code, and one
/// that does not as a failure.
pub proof fn exit_codes_are_reported(code: Option<i32>)
    ensures
        code is Some && 0 <= code->0 <= 255 ==> guest::wire_code(code) == code->0,
        code is None ==> guest::wire_code(code) == 255,
        guest::wire_code(code) == 0 <==> code == Some(0i32),
{
}

/// Only a sparse file of 2^63 bytes or more stops an archive from being
/// followed: a block with the GNU mark, of the sparse kind, whose map goes on.
pub proof fn only_huge_sparse_files_overflow(tar: Seq<u8>, at: int, pax: Option<Seq<u8>>)
    requires
        archive::walk_from(tar, at, pax) is Overflows,
    ensures
        exists|k: int|
            {
                let b = #[trigger] tar.subrange(k, k + 512);
                &&& at <= k
                &&& 0 <= k <= tar.len() - 512
                &&& b[156] == 83
                &&& b.subrange(257, 265) == seq![
                    117u8,
                    115u8,
                    116u8,
                    97u8,
                    114u8,
                    32u8,
                    32u8,
                    0u8,
                ]
                &&& b[482] == 1
                &&& exists|p: Option<Seq<u8>>|
                    #[trigger] archive::entry_size(
                        b,
                        archive::header_size_of(b)->0 as nat,
                        p,
                    ) >= 0x8000_0000_0000_0000
            },
    decreases tar.len() - at,
{
    let b = tar.subrange(at, at + 512);
    let own = archive::header_size_of(b)->0;
    let size = archive::entry_size(b, own as nat, pax);
    if archive::has_map(b) && size >= archive::SIZE_LIMIT {
        assert(tar.subrange(at, at + 512)[156] == 83);
    } else {
        let data = if archive::has_map(b) {
            archive::map_end(tar, at + 512)
        } else {
            at + 512
        };
        archive::lemma_map_end(tar, at + 512);
        let next = data + archive::rounded(size);
        let carried = if archive::is_marked(b) && b[156] == archive::RECORDS {
            Some(tar.subrange(data, data + size))
        } else if archive::is_marked(b) && (b[156] == archive::LONG_NAME || b[156]
            == archive::LONG_LINK) {
            pax
        } else {
            None
        };
        only_huge_sparse_files_overflow(tar, next, carried);
        let k = choose|k: int|
            {
                let c = #[trigger] tar.subrange(k, k + 512);
                &&& next <= k
                &&& 0 <= k <= tar.len() - 512
                &&& c[156] == 83
                &&& c.subrange(257, 265) == seq![
                    117u8,
                    115u8,
                    116u8,
                    97u8,
                    114u8,
                    32u8,
                    32u8,
                    0u8,
                ]
                &&& c[482] == 1
                &&& exists|p: Option<Seq<u8>>|
                    #[trigger] archive::entry_size(
                        c,
                        archive::header_size_of(c)->0 as nat,
                        p,
                    ) >= 0x8000_0000_0000_0000
            };
        assert(tar.subrange(k, k + 512)[156] == 83);
    }
}

/// An archive that was decoded whole and listed whole is read.
pub proof fn sound_archives_are_read(walk: archive::Walk, message: Seq<char>)
    requires
        !(walk is Overflows),
    ensures
        archive::complaint(walk, None, None) is None,
        archive::complaint(walk, None, Some(message)) == Some(message),
        walk is Ends ==> archive::complaint(walk, Some(message), None) is None,
        walk is RunsOut ==> archive::complaint(walk, Some(message), None) == Some(message),
{
}

/// A name below a directory is written behind the directory with one slash
/// between them, and an absolute name stands for itself.
pub proof fn names_are_put_below(base: Seq<char>, name: Seq<char>)
    requires
        base.len() > 0,
        name.len() > 0,
    ensures
        name[0] == '/' ==> paths::joined(base, name) == name,
        name[0] != '/' ==> base.is_prefix_of(paths::joined(base, name)) && name.is_suffix_of(
            paths::joined(base, name),
        ),
        name[0] != '/' && base.last() == '/' ==> paths::joined(base, name).len() == base.len()
            + name.len(),
        name[0] != '/' && base.last() != '/' ==> paths::joined(base, name).len() == base.len() + 1
            + name.len() && paths::joined(base, name)[base.len() as int] == '/',
{
    reveal_strlit("/");
    let t = paths::joined(base, name);
    if name[0] != '/' {
        assert(base =~= t.take(base.len() as int));
        assert(name =~= t.subrange(t.len() - name.len(), t.len() as int));
    }
}

/// A path that is written out is taken apart into the same names.
pub proof fn paths_are_taken_apart(route: paths::RouteModel)
    requires
        route.names.len() > 0,
        images::are_names(route.names),
    ensures
        paths::route_of(route.written()) == route,
{
    lemma_absolute_names(route.names);
    images::lemma_names_are_read(route.names);
}

/// Paths that differ only in repeated slashes, in dots between their names
/// or in a slash at their end lead to the same place.
pub proof fn empty_names_and_dots_say_nothing(before: Seq<Seq<u8>>, after: Seq<Seq<u8>>)
    requires
        before.len() > 0,
        forall|i: int| 0 <= i < before.len() ==> !(#[trigger] before[i]).contains(47u8),
        forall|i: int| 0 <= i < after.len() ==> !(#[trigger] after[i]).contains(47u8),
    ensures
        ({
            let path = seqs::join(before + after, seq![47u8]);
            let slashed = seqs::join(before.push(Seq::<u8>::empty()) + after, seq![47u8]);
            let dotted = seqs::join(before.push(seq![46u8]) + after, seq![47u8]);
            &&& paths::names_of(slashed) == paths::names_of(path)
            &&& paths::names_of(dotted) == paths::names_of(path)
        }),
{
    lemma_skipped_name(before, Seq::<u8>::empty(), after);
    lemma_skipped_name(before, seq![46u8], after);
}

proof fn lemma_skipped_name(before: Seq<Seq<u8>>, piece: Seq<u8>, after: Seq<Seq<u8>>)
    requires
        before.len() > 0,
        !paths::is_name(piece),
        !piece.contains(47u8),
        forall|i: int| 0 <= i < before.len() ==> !(#[trigger] before[i]).contains(47u8),
        forall|i: int| 0 <= i < after.len() ==> !(#[trigger] after[i]).contains(47u8),
    ensures
        paths::names_of(seqs::join(before.push(piece) + after, seq![47u8])) == paths::names_of(
            seqs::join(before + after, seq![47u8]),
        ),
{
    let keep = |p: Seq<u8>| paths::is_name(p);
    let all = before + after;
    let more = before.push(piece) + after;
    assert forall|i: int| 0 <= i < all.len() implies !(#[trigger] all[i]).contains(47u8) by {
        if i < before.len() {
            assert(all[i] == before[i]);
        } else {
            assert(all[i] == after[i - before.len()]);
        }
    }
    assert forall|i: int| 0 <= i < more.len() implies !(#[trigger] more[i]).contains(47u8) by {
        if i < before.len() {
            assert(more[i] == before[i]);
        } else if i > before.len() {
            assert(more[i] == after[i - before.len() - 1]);
        }
    }
    seqs::split_of_join(all, 47u8);
    seqs::split_of_join(more, 47u8);
    let head = before.skip(1);
    assert(all.skip(1) =~= head + after);
    assert(more.skip(1) =~= head.push(piece) + after);
    lemma_select_append(head, after, keep);
    lemma_select_append(head.push(piece), after, keep);
    assert(head.push(piece).drop_last() =~= head);
}

proof fn lemma_select_append<T>(a: Seq<T>, b: Seq<T>, keep: spec_fn(T) -> bool)
    ensures
        seqs::select(a + b, keep) == seqs::select(a, keep) + seqs::select(b, keep),
    decreases b.len(),
{
    if b.len() == 0 {
        assert(a + b =~= a);
        assert(seqs::select(a, keep) + seqs::select(b, keep) =~= seqs::select(a, keep));
    } else {
        assert((a + b).drop_last() =~= a + b.drop_last());
        lemma_select_append(a, b.drop_last(), keep);
        assert(seqs::select(a + b, keep) =~= seqs::select(a, keep) + seqs::select(b, keep));
    }
}

/// The data of an entry takes whole blocks of 512 bytes, as many as it needs
/// and no more.
pub proof fn entries_take_whole_blocks(n: nat)
    ensures
        archive::rounded(n) % 512 == 0,
        n <= archive::rounded(n) < n + 512,
{
}

/// The size of an entry is what the first `size` record before it says, and
/// otherwise what its header says. Headers that announce long names or
/// records have the size that they say themselves.
pub proof fn recorded_sizes_count(
    records: Seq<(Seq<u8>, Seq<u8>)>,
    k: int,
    size: nat,
    b: Seq<u8>,
    own: nat,
    pax: Seq<u8>,
)
    requires
        0 <= k < records.len(),
        forall|j: int|
            0 <= j < k ==> (#[trigger] records[j]).0 != vstd::utf8::encode_utf8("size"@),
        records[k] == (
            vstd::utf8::encode_utf8("size"@),
            vstd::utf8::encode_utf8(text::decimal(size)),
        ),
        size <= u64::MAX,
        archive::pax_records_of(pax) == records,
    ensures
        archive::recorded_size(records) == Some(size),
        b[156] != 76 && b[156] != 75 && b[156] != 120 && b[156] != 103 ==> archive::entry_size(
            b,
            own,
            Some(pax),
        ) == size,
        b[156] == 76 || b[156] == 75 || b[156] == 120 || b[156] == 103 ==> archive::entry_size(
            b,
            own,
            Some(pax),
        ) == own,
        archive::entry_size(b, own, None) == own,
{
    lemma_recorded_size(records, k, size);
}

proof fn lemma_recorded_size(records: Seq<(Seq<u8>, Seq<u8>)>, k: int, size: nat)
    requires
        0 <= k < records.len(),
        forall|j: int|
            0 <= j < k ==> (#[trigger] records[j]).0 != vstd::utf8::encode_utf8("size"@),
        records[k] == (
            vstd::utf8::encode_utf8("size"@),
            vstd::utf8::encode_utf8(text::decimal(size)),
        ),
        size <= u64::MAX,
    ensures
        archive::recorded_size(records) == Some(size),
    decreases k,
{
    if k == 0 {
        let d = text::decimal(size);
        text::decimal_round_trip(size);
        vstd::utf8::encode_utf8_valid_utf8(d);
        vstd::utf8::encode_utf8_decode_utf8(d);
        assert(text::is_digit(d[0]));
    } else {
        assert(records[0].0 != vstd::utf8::encode_utf8("size"@));
        let rest = records.skip(1);
        assert forall|j: int| 0 <= j < k - 1 implies (#[trigger] rest[j]).0
            != vstd::utf8::encode_utf8("size"@) by {
            assert(rest[j] == records[j + 1]);
        }
        lemma_recorded_size(rest, k - 1, size);
    }
}

/// A directory comes before everything below it, so that in the opposite
/// order every directory is met after what it holds.
pub proof fn directories_come_before_what_they_hold(dir: Seq<Seq<u8>>, more: Seq<Seq<u8>>)
    requires
        more.len() > 0,
    ensures
        dirs::path_precedes(dir, dir + more),
        !dirs::path_precedes(dir + more, dir),
    decreases dir.len(),
{
    let below = dir + more;
    if dir.len() > 0 {
        assert(below[0] == dir[0]);
        assert(below.skip(1) =~= dir.skip(1) + more);
        directories_come_before_what_they_hold(dir.skip(1), more);
    }
}

/// Of two paths that part, the one comes first whose next name does: two dots
/// before any other name, and otherwise by the first byte that differs.
pub proof fn parted_paths_are_ordered(
    dir: Seq<Seq<u8>>,
    a: Seq<u8>,
    b: Seq<u8>,
    x: Seq<Seq<u8>>,
    y: Seq<Seq<u8>>,
    k: int,
)
    requires
        a != b,
    ensures
        a == seq![46u8, 46u8] ==> dirs::path_precedes(dir.push(a) + x, dir.push(b) + y),
        a != seq![46u8, 46u8] && b != seq![46u8, 46u8] && 0 <= k < a.len() && k < b.len()
            && a.take(k) == b.take(k) && a[k] < b[k] ==> dirs::path_precedes(
            dir.push(a) + x,
            dir.push(b) + y,
        ),
    decreases dir.len(),
{
    let p = dir.push(a) + x;
    let q = dir.push(b) + y;
    if dir.len() > 0 {
        assert(p[0] == dir[0]);
        assert(q[0] == dir[0]);
        assert(p.skip(1) =~= dir.skip(1).push(a) + x);
        assert(q.skip(1) =~= dir.skip(1).push(b) + y);
        parted_paths_are_ordered(dir.skip(1), a, b, x, y, k);
    } else {
        assert(p[0] == a);
        assert(q[0] == b);
        if 0 <= k < a.len() && k < b.len() && a.take(k) == b.take(k) && a[k] < b[k] {
            lemma_first_byte_decides(a, b, k);
        }
    }
}

proof fn lemma_first_byte_decides(a: Seq<u8>, b: Seq<u8>, k: int)
    requires
        0 <= k < a.len(),
        k < b.len(),
        a.take(k) == b.take(k),
        a[k] < b[k],
    ensures
        dirs::bytes_precede(a, b),
    decreases k,
{
    if k > 0 {
        assert(a.take(k)[0] == a[0]);
        assert(b.take(k)[0] == b[0]);
        assert(a.skip(1).take(k - 1) =~= a.take(k).skip(1));
        assert(b.skip(1).take(k - 1) =~= b.take(k).skip(1));
        lemma_first_byte_decides(a.skip(1), b.skip(1), k - 1);
    }
}

/// A compressed tree is sent as it is, up to 512 MiB; a larger one is refused
/// with its size, and so is one that could not be compressed.
pub proof fn payloads_are_bounded(compressed: Option<Vec<u8>>)
    ensures
        compressed is None ==> sync::payload_of(compressed) == Err::<Vec<u8>, sync::PackError>(
            sync::PackError::Compression,
        ),
        compressed is Some && compressed->0@.len() <= 512 * 1024 * 1024 ==> sync::payload_of(
            compressed,
        ) == Ok::<Vec<u8>, sync::PackError>(compressed->0),
        compressed is Some && compressed->0@.len() > 512 * 1024 * 1024 ==> sync::payload_of(
            compressed,
        ) is Err,
{
}

/// A tree is synced exactly where the guest said so with exit code zero, and
/// what is reported then is what was sent.
pub proof fn syncs_succeed_on_zero(
    handle: Seq<char>,
    code: u8,
    reply: Seq<u8>,
    files: usize,
    bytes: usize,
    workdir: Seq<char>,
    r: Result<sync::SyncOutcome, String>,
)
    requires
        sync::sync_outcome(handle, code, reply, files, bytes, workdir, r),
    ensures
        r is Ok <==> code == 0,
        r is Ok ==> r->Ok_0.files == files && r->Ok_0.bytes == bytes && r->Ok_0.workdir@ == workdir,
        r is Err ==> ("machine '"@ + handle + "' could not install the working tree: "@
            + text::trimmed(text::lossy_of(reply))).is_prefix_of(r->Err_0@),
{
    if code != 0 {
        let head = "machine '"@ + handle + "' could not install the working tree: "@
            + text::trimmed(text::lossy_of(reply));
        let t = r->Err_0@;
        assert(head =~= t.take(head.len() as int));
    }
}

/// A shell command is answered with its exit code and all that it wrote:
/// first to its standard output, then to its standard error.
pub proof fn commands_are_answered(code: i32, stdout: Seq<u8>, stderr: Seq<u8>)
    ensures
        0 <= code <= 255 ==> guest::ran(Some(code), stdout, stderr).0 == code,
        code < 0 || code > 255 ==> guest::ran(Some(code), stdout, stderr).0 == 255,
        guest::ran(None, stdout, stderr).0 == 255,
        guest::ran(Some(code), stdout, stderr).1 == stdout + stderr,
        guest::ran(None, stdout, stderr).1 == stdout + stderr,
{
}

/// The agent listens where its word says, and on the socket without a word.
pub proof fn agents_listen_where_told(word: Seq<char>)
    ensures
        guest::mode_of(None) == Some(guest::Mode::Vsock),
        guest::mode_of(Some(word)) == Some(guest::Mode::Vsock) <==> word == "--vsock"@,
        guest::mode_of(Some(word)) == Some(guest::Mode::Serial) <==> word == "--serial"@,
{
    reveal_strlit("--vsock");
    reveal_strlit("--serial");
    assert("--vsock"@.len() != "--serial"@.len());
}

/// Every name that git lists is listed, in order, whatever bytes it has.
pub proof fn every_name_is_listed(names: Seq<Seq<u8>>)
    requires
        forall|i: int|
            0 <= i < names.len() ==> (#[trigger] names[i]).len() > 0 && !names[i].contains(0u8),
    ensures
        sync::listed(seqs::join(names.push(Seq::<u8>::empty()), seq![0u8])) == names.map_values(
            |n: Seq<u8>| text::lossy_of(n),
        ),
{
    let none = Seq::<u8>::empty();
    let all = names.push(none);
    let keep = |p: Seq<u8>| p.len() > 0;
    assert forall|i: int| 0 <= i < all.len() implies !(#[trigger] all[i]).contains(0u8) by {
        if i < names.len() {
            assert(all[i] == names[i]);
        }
    }
    seqs::split_of_join(all, 0u8);
    assert(all.drop_last() =~= names);
    seqs::lemma_select_all(names, keep);
    assert(seqs::select(all, keep) == names);
}

/// A tree that is installed where nothing was recorded deletes nothing.
pub proof fn first_syncs_delete_nothing(
    plan: guest::TreePlan,
    target: Seq<char>,
    entries: Seq<(Seq<char>, u64, bool)>,
)
    requires
        plan.follows(target, None, entries),
    ensures
        plan.stale@.len() == 0,
        plan.removals@.len() == 0,
        forall|k: int| 0 <= k < plan.steps@.len() ==> !(#[trigger] plan.steps@[k]@ is Remove),
{
    let stale = text::texts(plan.stale@);
    assert(stale.len() == plan.stale@.len());
    if stale.len() > 0 {
        assert(stale.contains(stale[0]));
        assert(stale.to_set().contains(stale[0]));
        assert(false);
    }
    let removals = text::texts(plan.removals@);
    assert(removals.len() == plan.removals@.len());
    assert(removals.len() == stale.len());
    let steps = guest::tree_steps(plan.steps@);
    assert(steps.len() == plan.steps@.len());
    assert forall|k: int| 0 <= k < plan.steps@.len() implies !(
    #[trigger] plan.steps@[k]@ is Remove) by {
        assert(steps[k] == plan.steps@[k]@);
    }
}

/// A tree goes only to a place that is named from the root.
pub proof fn targets_start_at_the_root(target: Seq<char>)
    ensures
        guest::is_absolute(seq!['/'] + target),
        target.len() > 0 && target[0] != '/' ==> !guest::is_absolute(target),
        !guest::is_absolute(Seq::<char>::empty()),
{
}

/// Every directory below the target that a removed file was in is tried, with
/// the directories above it up to the target, and a directory after all that
/// come behind it in the order of paths, so after what it holds.
pub proof fn emptied_directories_are_tried(
    chains: Seq<guest::Climb>,
    target: Seq<char>,
    removed: Seq<Seq<char>>,
    i: int,
    k: int,
    l: int,
)
    requires
        guest::prunes(chains, target, removed),
    ensures
        ({
            let root = paths::route_of(vstd::utf8::encode_utf8(target)).names;
            let file = paths::route_of(vstd::utf8::encode_utf8(removed[i]));
            let dir = file.names.drop_last();
            0 <= i < removed.len() && file.absolute && file.names.len() > 0 && root.is_prefix_of(
                dir,
            ) && root.len() < dir.len() ==> exists|c: int|
                {
                    &&& 0 <= c < chains.len()
                    &&& (#[trigger] chains[c]).dirs@.len() == dir.len() - root.len()
                    &&& chains[c].dirs@[0]@.names == dir
                }
        }),
        0 <= k < l < chains.len() && chains[k].dirs@.len() > 0 && chains[l].dirs@.len() > 0
            ==> dirs::path_precedes(chains[l].dirs@[0]@.names, chains[k].dirs@[0]@.names),
{
    let root = paths::route_of(vstd::utf8::encode_utf8(target)).names;
    let order = choose|order: Seq<Seq<Seq<u8>>>|
        guest::in_order(order, removed) && guest::climbs(chains, order, root);
    let n = order.len() as int;
    assert forall|c: int| 0 <= c < chains.len() && (#[trigger] chains[c]).dirs@.len() > 0 implies {
        &&& chains[c].dirs@[0]@.names == order[n - 1 - c]
        &&& chains[c].dirs@.len() == order[n - 1 - c].len() - root.len()
    } by {
        let d = order[n - 1 - c];
        let all = dirs::all_names(chains[c].dirs@);
        assert(all.len() == chains[c].dirs@.len());
        assert(all == guest::climb(d, root));
        assert(all[0] == d.take(d.len() as int));
        assert(d.take(d.len() as int) =~= d);
    }
    let file = paths::route_of(vstd::utf8::encode_utf8(removed[i]));
    let dir = file.names.drop_last();
    if 0 <= i < removed.len() && file.absolute && file.names.len() > 0 && root.is_prefix_of(dir)
        && root.len() < dir.len() {
        directories_of_removed_files_are_tried(removed, dir);
        assert(order.to_set().contains(dir));
        let at = choose|at: int| 0 <= at < n && order[at] == dir;
        let c = n - 1 - at;
        assert(order[n - 1 - c] == dir);
        let all = dirs::all_names(chains[c].dirs@);
        assert(all == guest::climb(dir, root));
        assert(chains[c].dirs@.len() == all.len());
    }
    if 0 <= k < l < chains.len() && chains[k].dirs@.len() > 0 && chains[l].dirs@.len() > 0 {
        let rel = dirs::path_order();
        assert(rel(order[n - 1 - l], order[n - 1 - k]));
    }
}

/// Every file counts in the fingerprint, also one that could not be examined.
pub proof fn every_file_is_fingerprinted(files: Seq<sync::FileStamp>, f: sync::FileStamp)
    ensures
        sync::fingerprint_input(files.push(f)) != sync::fingerprint_input(files),
        (sync::fingerprint_input(files) + vstd::utf8::encode_utf8(f.path@)).is_prefix_of(
            sync::fingerprint_input(files.push(f)),
        ),
{
    let all = files.push(f);
    assert(all.drop_last() =~= files);
    assert(all.last() == f);
    let x = sync::fingerprint_input(all);
    let y = sync::fingerprint_input(files);
    let name = vstd::utf8::encode_utf8(f.path@);
    assert(x.len() > y.len());
    assert(y + name =~= x.take((y + name).len() as int));
}

/// A slash at the end of a path says nothing of the repository.
pub proof fn trailing_slashes_do_not_matter(
    machine: Seq<char>,
    caller: Seq<char>,
    names: Seq<Seq<u8>>,
)
    requires
        names.len() > 0,
        images::are_names(names),
        vstd::utf8::encode_utf8(machine) == seq![47u8] + seqs::join(names, seq![47u8]),
        vstd::utf8::encode_utf8(caller) == seq![47u8] + seqs::join(names, seq![47u8]) + seq![47u8],
    ensures
        sync::belongs(machine, Some(caller)),
        sync::belongs(caller, Some(machine)),
{
    let none = Seq::<u8>::empty();
    let empty = Seq::<Seq<u8>>::empty();
    let slash = seq![47u8];
    let line = seqs::join(names, slash);
    lemma_absolute_names(names);
    let before = seq![none] + names;
    lemma_join_behind(names);
    assert forall|i: int| 0 <= i < before.len() implies !(#[trigger] before[i]).contains(47u8) by {
        if i > 0 {
            assert(before[i] == names[i - 1]);
        }
    }
    empty_names_and_dots_say_nothing(before, empty);
    assert(before + empty =~= before);
    let longer = before.push(none);
    assert(longer + empty =~= longer);
    assert(longer.drop_last() =~= before);
    assert(seqs::join(longer, slash) =~= slash + line + slash);
    vstd::utf8::encode_utf8_decode_utf8(machine);
    vstd::utf8::encode_utf8_decode_utf8(caller);
    if machine.len() == 0 {
        assert(machine =~= Seq::<char>::empty());
        lemma_nothing_is_nothing();
    }
    if caller.len() == 0 {
        assert(caller =~= Seq::<char>::empty());
        lemma_nothing_is_nothing();
    }
}

proof fn lemma_nothing_is_nothing()
    ensures
        vstd::utf8::encode_utf8(Seq::<char>::empty()).len() == 0,
{
    let s = Seq::<char>::empty();
    assert(vstd::utf8::is_ascii_chars(s));
    vstd::utf8::is_ascii_chars_encode_utf8(s);
}

/// A file may be executed where its owner, its group or everyone may.
pub proof fn execute_bits_are_seen(mode: u32)
    ensures
        guest::executable(mode) <==> mode & 0x40 != 0 || mode & 0x8 != 0 || mode & 0x1 != 0,
{
    assert(mode & 0x49 != 0 <==> mode & 0x40 != 0 || mode & 0x8 != 0 || mode & 0x1 != 0)
        by (bit_vector);
}

/// The state of the host's machines is in `.moo` below the home directory.
pub proof fn state_is_below_the_home(home: Seq<char>)
    requires
        home.len() > 0,
        home.last() != '/',
    ensures
        paths::moo_home_of(home) == home + "/"@ + ".moo"@,
{
    reveal_strlit(".moo");
}

/// An archive is followed from header to header: it runs out where a header or
/// its data is cut short, ends at a block of zeros or one that is no header,
/// and otherwise goes on behind the data, rounded up to whole blocks. Records
/// count for the entry behind them, also across a long name.
pub proof fn archives_are_followed(tar: Seq<u8>, at: int, pax: Option<Seq<u8>>)
    requires
        0 <= at,
    ensures
        at + 512 > tar.len() ==> archive::walk_from(tar, at, pax) is RunsOut,
        at + 512 <= tar.len() ==> {
            let b = tar.subrange(at, at + 512);
            let mark = b.subrange(257, 265);
            let marked = mark == seq![117u8, 115u8, 116u8, 97u8, 114u8, 32u8, 32u8, 0u8] || mark
                == seq![117u8, 115u8, 116u8, 97u8, 114u8, 0u8, 48u8, 48u8];
            let own = archive::header_size_of(b);
            let size = archive::entry_size(b, own->0 as nat, pax);
            let next = at + 512 + (size + 511) / 512 * 512;
            &&& own is None ==> archive::walk_from(tar, at, pax) is Ends
            &&& (forall|i: int| 0 <= i < 512 ==> #[trigger] b[i] == 0) ==> archive::walk_from(
                tar,
                at,
                pax,
            ) is Ends
            &&& own is Some && (exists|i: int| 0 <= i < 512 && #[trigger] b[i] != 0) && b[156]
                != 83 ==> archive::walk_from(tar, at, pax) == if next > tar.len() {
                archive::Walk::RunsOut
            } else if marked && b[156] == 120 {
                archive::walk_from(tar, next, Some(tar.subrange(at + 512, at + 512 + size)))
            } else if marked && (b[156] == 76 || b[156] == 75) {
                archive::walk_from(tar, next, pax)
            } else {
                archive::walk_from(tar, next, None)
            }
        },
{
    if at + 512 <= tar.len() {
        let b = tar.subrange(at, at + 512);
        let own = archive::header_size_of(b);
        let size = archive::entry_size(b, own->0 as nat, pax);
        assert(archive::rounded(size) == (size + 511) / 512 * 512);
    }
}

/// A path leads through another where both start at the same place and the
/// names of the other come first in it.
pub proof fn paths_lead_through_their_beginnings(
    base: paths::RouteModel,
    more: Seq<Seq<u8>>,
    other: paths::RouteModel,
)
    ensures
        (paths::RouteModel { absolute: base.absolute, names: base.names + more }).below(base),
        other.below(base) ==> other.absolute == base.absolute && exists|rest: Seq<Seq<u8>>|
            other.names == #[trigger] (base.names + rest),
{
    let names = base.names + more;
    assert(base.names =~= names.take(base.names.len() as int));
    if other.below(base) {
        let rest = other.names.skip(base.names.len() as int);
        assert(other.names =~= base.names + rest);
    }
}

} // verus!
