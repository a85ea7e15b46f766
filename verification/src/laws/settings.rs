//! What the configuration of a project says, and which ports it gets.
use crate::bytes;
use crate::config;
use crate::digest;
use crate::laws::trees;
use crate::laws::words;
use crate::ports;
use crate::proto;
use crate::seqs;
use crate::text;
use vstd::prelude::*;

verus! {

/// A size is read in its unit: a GiB is 1024 MiB, and a bare number counts
/// MiB.
pub proof fn sizes_are_read(n: nat)
    requires
        n <= u32::MAX,
    ensures
        config::memory_mib(text::decimal(n) + "GiB"@) == Some(n * 1024),
        config::memory_mib(text::decimal(n) + "MiB"@) == Some(n),
        config::memory_mib(text::decimal(n)) == Some(n),
{
    reveal_strlit("GiB");
    reveal_strlit("MiB");
    text::decimal_round_trip(n);
    let d = text::decimal(n);
    lemma_digits_are_trimmed(d);
    let g = d + "GiB"@;
    let m = d + "MiB"@;
    assert(!text::is_space('B'));
    assert(g[0] == d[0] && m[0] == d[0]);
    assert(text::is_digit(d[0]));
    assert(g.last() == 'B' && m.last() == 'B');
    assert(text::trimmed(g) == g);
    assert(text::trimmed(m) == m);
    assert("GiB"@ =~= g.subrange(g.len() - 3, g.len() as int));
    assert(g.take(g.len() - 3) =~= d);
    assert("MiB"@ =~= m.subrange(m.len() - 3, m.len() as int));
    assert(m.take(m.len() - 3) =~= d);
    assert(m[m.len() - 3] == 'M');
    assert("GiB"@[0] == 'G');
    if "GiB"@.is_suffix_of(m) {
        assert("GiB"@ == m.subrange(m.len() - 3, m.len() as int));
        assert(m.subrange(m.len() - 3, m.len() as int)[0] == 'M');
    }
    assert(text::is_digit(d[d.len() - 1]));
    if "GiB"@.is_suffix_of(d) {
        assert("GiB"@ == d.subrange(d.len() - 3, d.len() as int));
        assert("GiB"@[2] == d[d.len() - 1]);
    }
    if "MiB"@.is_suffix_of(d) {
        assert("MiB"@ == d.subrange(d.len() - 3, d.len() as int));
        assert("MiB"@[2] == d[d.len() - 1]);
    }
}

proof fn lemma_digits_are_trimmed(d: Seq<char>)
    requires
        d.len() > 0,
        forall|i: int| 0 <= i < d.len() ==> text::is_digit(#[trigger] d[i]),
    ensures
        text::trimmed(d) == d,
{
    assert(text::is_digit(d[0]));
    assert(text::is_digit(d[d.len() - 1]));
}

/// A project gets what it configures, and otherwise two processors, 4096 MiB
/// and the directory `/srv/app`.
pub proof fn projects_get_what_they_configure(m: config::MooToml, n: nat)
    requires
        n <= u32::MAX,
    ensures
        m.resources.cpus is Some ==> m.cpus_value() == m.resources.cpus->0,
        m.resources.cpus is None ==> m.cpus_value() == 2,
        m.resources.memory is None ==> m.ram_value() == 4096,
        m.resources.memory is Some && m.resources.memory->0@ == text::decimal(n) + "GiB"@
            ==> m.ram_value() == n * 1024,
        m.resources.memory is Some && m.resources.memory->0@ == text::decimal(n) + "MiB"@
            ==> m.ram_value() == n,
        m.resources.memory is Some && m.resources.memory->0@ == text::decimal(n) ==> m.ram_value()
            == n,
        m.project.workdir is Some ==> m.workdir_text() == m.project.workdir->0@,
        m.project.workdir is None ==> m.workdir_text() == "/srv/app"@,
{
    sizes_are_read(n);
}

/// Whatever the configuration leaves as it is, another number of processors
/// makes another recipe.
pub proof fn processors_are_in_the_recipe(
    a: config::MooToml,
    b: config::MooToml,
    contents: Seq<Option<Vec<u8>>>,
)
    requires
        a.project.base == b.project.base,
        a.recipe == b.recipe,
        a.resources.memory == b.resources.memory,
        a.resources.cpus is Some,
        b.resources.cpus is Some,
        a.resources.cpus != b.resources.cpus,
    ensures
        a.recipe_input(contents) != b.recipe_input(contents),
{
    let x = a.recipe_input(contents);
    let y = b.recipe_input(contents);
    trees::numbers_take_their_width(a.ram_value(), 4);
    assert(x.len() == y.len());
    assert(x[x.len() - 5] == a.resources.cpus->0);
    assert(y[x.len() - 5] == b.resources.cpus->0);
}

/// Another amount of memory makes another recipe.
pub proof fn memory_is_in_the_recipe(
    a: config::MooToml,
    b: config::MooToml,
    contents: Seq<Option<Vec<u8>>>,
    i: nat,
    j: nat,
)
    requires
        a.project.base == b.project.base,
        a.recipe == b.recipe,
        a.resources.cpus == b.resources.cpus,
        a.resources.memory is Some,
        b.resources.memory is Some,
        a.resources.memory->0@ == text::decimal(i) + "MiB"@,
        b.resources.memory->0@ == text::decimal(j) + "MiB"@,
        i <= u32::MAX,
        j <= u32::MAX,
        i != j,
    ensures
        a.recipe_input(contents) != b.recipe_input(contents),
{
    sizes_are_read(i);
    sizes_are_read(j);
    let x = a.recipe_input(contents);
    let y = b.recipe_input(contents);
    trees::numbers_take_their_width(i, 4);
    trees::numbers_take_their_width(j, 4);
    let p = bytes::little_endian(i, 4);
    let q = bytes::little_endian(j, 4);
    if x == y {
        assert(p =~= x.skip(x.len() - 4));
        assert(q =~= y.skip(y.len() - 4));
        reveal_with_fuel(trees::reach, 5);
        trees::numbers_are_told_apart(i, j, 4);
    }
}

/// Another base image makes another recipe, and so does naming none where
/// one is named that is not the default.
pub proof fn the_base_is_in_the_recipe(
    a: config::MooToml,
    b: config::MooToml,
    contents: Seq<Option<Vec<u8>>>,
)
    requires
        a.project.base is Some,
        a.recipe == b.recipe,
        a.resources == b.resources,
        b.project.base is Some ==> a.project.base->0@ != b.project.base->0@,
        b.project.base is None ==> a.project.base->0@ != "default"@,
    ensures
        a.recipe_input(contents) != b.recipe_input(contents),
{
    let x = a.recipe_input(contents);
    let y = b.recipe_input(contents);
    let s = a.project.base->0@;
    let t = if b.project.base is Some {
        b.project.base->0@
    } else {
        "default"@
    };
    let names = text::texts(a.recipe.lockfiles@);
    let rest = config::lockfile_input(names, contents) + seq![a.cpus_value()]
        + bytes::little_endian(a.ram_value(), 4);
    let p = proto::wire(s);
    let q = proto::wire(t);
    assert(x =~= seq![x[0]] + p + rest);
    assert(y =~= seq![y[0]] + q + rest);
    if x == y {
        assert(p.len() == q.len());
        assert(p =~= x.subrange(1, 1 + p.len() as int));
        assert(q =~= y.subrange(1, 1 + q.len() as int));
        vstd::utf8::encode_utf8_decode_utf8(s);
        vstd::utf8::encode_utf8_decode_utf8(t);
    }
}

/// Every lockfile is in the recipe, with its content: where one of them
/// changes and the others stay, the recipe changes.
pub proof fn lockfiles_are_in_the_recipe(
    m: config::MooToml,
    before: Seq<Option<Vec<u8>>>,
    after: Seq<Option<Vec<u8>>>,
    i: int,
)
    requires
        before.len() == m.recipe.lockfiles@.len(),
        after.len() == before.len(),
        0 <= i < before.len(),
        forall|j: int| 0 <= j < before.len() && j != i ==> before[j] == after[j],
        before[i] is Some,
        after[i] is Some,
        before[i]->0@ != after[i]->0@,
    ensures
        m.recipe_input(before) != m.recipe_input(after),
{
    let names = text::texts(m.recipe.lockfiles@);
    lemma_lockfiles_differ(names, before, after, i);
    let x = m.recipe_input(before);
    let y = m.recipe_input(after);
    let p = config::lockfile_input(names, before);
    let q = config::lockfile_input(names, after);
    let head = seq![x[0]] + proto::wire(m.recipe_base());
    let tail = seq![m.cpus_value()] + bytes::little_endian(m.ram_value(), 4);
    assert(x =~= head + p + tail);
    assert(y =~= head + q + tail);
    if x == y {
        assert(p.len() == q.len());
        assert(p =~= x.subrange(head.len() as int, (head.len() + p.len()) as int));
        assert(q =~= y.subrange(head.len() as int, (head.len() + q.len()) as int));
    }
}

proof fn lemma_lockfiles_differ(
    names: Seq<Seq<char>>,
    before: Seq<Option<Vec<u8>>>,
    after: Seq<Option<Vec<u8>>>,
    i: int,
)
    requires
        before.len() == names.len(),
        after.len() == before.len(),
        0 <= i < before.len(),
        forall|j: int| 0 <= j < before.len() && j != i ==> before[j] == after[j],
        before[i] is Some,
        after[i] is Some,
        before[i]->0@ != after[i]->0@,
    ensures
        config::lockfile_input(names, before) != config::lockfile_input(names, after),
    decreases names.len(),
{
    let n = names.len() - 1;
    let p = config::lockfile_input(names.drop_last(), before.drop_last());
    let q = config::lockfile_input(names.drop_last(), after.drop_last());
    let u = config::lockfile_part(names.last(), before.last());
    let v = config::lockfile_part(names.last(), after.last());
    assert(config::lockfile_input(names, before) == p + u);
    assert(config::lockfile_input(names, after) == q + v);
    if i == n {
        assert(before.drop_last() =~= after.drop_last());
        let w = proto::wire(names.last());
        let x = before.last()->0@;
        let y = after.last()->0@;
        assert(u == w + x);
        assert(v == w + y);
        lemma_parts(p, u);
        lemma_parts(q, v);
        lemma_parts(w, x);
        lemma_parts(w, y);
    } else {
        let a = before.drop_last();
        let b = after.drop_last();
        assert forall|j: int| 0 <= j < a.len() && j != i implies a[j] == b[j] by {
            assert(a[j] == before[j]);
            assert(b[j] == after[j]);
        }
        lemma_lockfiles_differ(names.drop_last(), a, b, i);
        assert(before.last() == before[n]);
        assert(after.last() == after[n]);
        lemma_parts(p, u);
        lemma_parts(q, v);
        if p + u == q + v {
            assert(p.len() == q.len());
        }
    }
}

/// What a text of two parts is made of can be told from it and the length of
/// the first.
proof fn lemma_parts<T>(a: Seq<T>, b: Seq<T>)
    ensures
        (a + b).take(a.len() as int) == a,
        (a + b).skip(a.len() as int) == b,
{
    assert((a + b).take(a.len() as int) =~= a);
    assert((a + b).skip(a.len() as int) =~= b);
}

/// A lockfile that cannot be read enters the recipe by its name alone, as an
/// empty one does.
pub proof fn unreadable_lockfiles_count_as_empty(name: Seq<char>, empty: Vec<u8>)
    requires
        empty@.len() == 0,
    ensures
        config::lockfile_part(name, None) == proto::wire(name),
        config::lockfile_part(name, Some(empty)) == proto::wire(name),
{
    assert(proto::wire(name) + empty@ =~= proto::wire(name));
}

/// The host port of a guest port is the one that the map gives it first, and
/// there is one exactly where the map names the guest port.
pub proof fn forwarded_ports_are_found(map: Seq<(u16, u16)>, guest: u16, i: int)
    requires
        0 <= i < map.len(),
        map[i].1 == guest,
        forall|j: int| 0 <= j < i ==> (#[trigger] map[j]).1 != guest,
    ensures
        ports::host_for(map, guest) == Some(map[i].0),
    decreases i,
{
    if i > 0 {
        assert(map[0].1 != guest);
        let rest = map.skip(1);
        assert forall|j: int| 0 <= j < i - 1 implies (#[trigger] rest[j]).1 != guest by {
            assert(rest[j] == map[j + 1]);
        }
        forwarded_ports_are_found(rest, guest, i - 1);
    }
}

/// A guest port that the map does not name has no host port.
pub proof fn other_ports_are_not_found(map: Seq<(u16, u16)>, guest: u16)
    requires
        forall|j: int| 0 <= j < map.len() ==> (#[trigger] map[j]).1 != guest,
    ensures
        ports::host_for(map, guest) is None,
    decreases map.len(),
{
    if map.len() > 0 {
        assert(map[0].1 != guest);
        let rest = map.skip(1);
        assert forall|j: int| 0 <= j < rest.len() implies (#[trigger] rest[j]).1 != guest by {
            assert(rest[j] == map[j + 1]);
        }
        other_ports_are_not_found(rest, guest);
    }
}

/// A machine has its own port: the port of a guest port is the one that the
/// machine's name and the guest port determine, unless another of the
/// machine's ports has that one or the host uses it.
pub proof fn ports_stay_where_they_can<F: Fn(u16) -> bool>(
    free: F,
    place: spec_fn(u16) -> nat,
    guests: Seq<u16>,
    map: Seq<(u16, u16)>,
    i: int,
)
    requires
        ports::allocates(free, place, guests, map),
        0 <= i < map.len(),
        place(map[i].1) < 10000,
    ensures
        20000 <= map[i].0 < 30000,
        call_ensures(free, (map[i].0,), true),
        map[i].0 == 20000 + place(map[i].1) || call_ensures(
            free,
            ((20000 + place(map[i].1)) as u16,),
            false,
        ) || exists|j: int| 0 <= j < i && (#[trigger] map[j]).0 == 20000 + place(map[i].1),
    decreases guests.len(),
{
    if guests.len() > 0 {
        let guest = guests.last();
        let before = guests.drop_last();
        let shorter = map.drop_last();
        if map.len() > 0 && map.last().1 == guest && ports::placed(
            free,
            ports::host_ports(shorter),
            place(guest),
            map.last().0,
        ) && ports::allocates(free, place, before, shorter) {
            if i < shorter.len() {
                ports_stay_where_they_can(free, place, before, shorter, i);
                assert(shorter[i] == map[i]);
                if exists|j: int|
                    0 <= j < i && (#[trigger] shorter[j]).0 == 20000 + place(map[i].1) {
                    let j = choose|j: int|
                        0 <= j < i && (#[trigger] shorter[j]).0 == 20000 + place(map[i].1);
                    assert(map[j].0 == 20000 + place(map[i].1));
                }
            } else {
                let port = map.last().0;
                let s = place(guest);
                let taken = ports::host_ports(shorter);
                let k = choose|k: nat| ports::placed_at(free, taken, s, port, k);
                if k > 0 {
                    assert(ports::refused(free, taken, ports::candidate(s, 0)));
                    assert(ports::candidate(s, 0) == 20000 + s);
                    if taken.contains((20000 + s) as u16) {
                        let j = choose|j: int| 0 <= j < taken.len() && taken[j] == (20000 + s) as u16;
                        assert(map[j].0 == 20000 + s);
                    }
                }
            }
        } else {
            ports_stay_where_they_can(free, place, before, map, i);
        }
    }
}

/// A guest port that is the only one gets the port at its place, where the
/// host has that free.
pub proof fn single_ports_are_placed<F: Fn(u16) -> bool>(
    free: F,
    open: spec_fn(u16) -> bool,
    place: spec_fn(u16) -> nat,
    guest: u16,
    map: Seq<(u16, u16)>,
)
    requires
        ports::answers(free, open),
        ports::allocates(free, place, seq![guest], map),
        place(guest) < 10000,
        open((20000 + place(guest)) as u16),
    ensures
        map == seq![((20000 + place(guest)) as u16, guest)],
{
    reveal_with_fuel(ports::allocates, 2);
    let guests = seq![guest];
    let s = place(guest);
    assert(guests.drop_last() =~= Seq::<u16>::empty());
    let none = Seq::<u16>::empty();
    assert(ports::candidate(s, 0) == 20000 + s);
    if map.len() > 0 && map.last().1 == guest && ports::placed(
        free,
        ports::host_ports(map.drop_last()),
        s,
        map.last().0,
    ) && ports::allocates(free, place, guests.drop_last(), map.drop_last()) {
        assert(ports::host_ports(map.drop_last()) =~= none);
        let port = map.last().0;
        let k = choose|k: nat| ports::placed_at(free, none, s, port, k);
        if k > 0 {
            assert(ports::refused(free, none, ports::candidate(s, 0)));
        }
        assert(map =~= seq![((20000 + s) as u16, guest)]);
    } else {
        assert(ports::host_ports(map) =~= none);
        assert(ports::refused(free, none, ports::candidate(s, 0)));
    }
}

/// Every guest port is served where the host has all its ports free: the map
/// names the guest ports, all of them and in order.
pub proof fn all_ports_are_served<F: Fn(u16) -> bool>(
    free: F,
    place: spec_fn(u16) -> nat,
    guests: Seq<u16>,
    map: Seq<(u16, u16)>,
)
    requires
        ports::allocates(free, place, guests, map),
        forall|p: u16, b: bool| #[trigger] call_ensures(free, (p,), b) ==> b,
        guests.len() <= 10000,
    ensures
        map.len() == guests.len(),
        forall|i: int| 0 <= i < map.len() ==> (#[trigger] map[i]).1 == guests[i],
    decreases guests.len(),
{
    if guests.len() > 0 {
        let guest = guests.last();
        let before = guests.drop_last();
        let shorter = map.drop_last();
        if map.len() > 0 && map.last().1 == guest && ports::placed(
            free,
            ports::host_ports(shorter),
            place(guest),
            map.last().0,
        ) && ports::allocates(free, place, before, shorter) {
            all_ports_are_served(free, place, before, shorter);
            assert forall|i: int| 0 <= i < map.len() implies (#[trigger] map[i]).1
                == guests[i] by {
                if i < shorter.len() {
                    assert(shorter[i] == map[i]);
                }
            }
        } else {
            all_ports_are_served(free, place, before, map);
            let taken = ports::host_ports(map);
            assert forall|p: u16| 20000 <= p < 30000 implies #[trigger] taken.contains(p) by {
                let s = place(guest);
                let j = ((p - 20000 - s) % 10000) as nat;
                assert((s + j) % 10000 == p - 20000) by (nonlinear_arith)
                    requires
                        j == (p - 20000 - s) % 10000,
                        20000 <= p < 30000,
                ;
                assert(ports::candidate(s, j) == p);
                assert(ports::refused(free, taken, ports::candidate(s, j)));
            }
            lemma_range_is_long(taken, 20000, 30000);
        }
    }
}

/// A sequence that holds every number of a range is at least as long.
proof fn lemma_range_is_long(s: Seq<u16>, lo: int, hi: int)
    requires
        0 <= lo <= hi <= 0xffff,
        forall|p: u16| lo <= p < hi ==> #[trigger] s.contains(p),
    ensures
        s.len() >= hi - lo,
    decreases s.len(),
{
    if hi > lo {
        let last = (hi - 1) as u16;
        assert(s.contains(last));
        let k = choose|k: int| 0 <= k < s.len() && s[k] == last;
        let t = s.remove(k);
        assert forall|p: u16| lo <= p < hi - 1 implies #[trigger] t.contains(p) by {
            assert(s.contains(p));
            let j = choose|j: int| 0 <= j < s.len() && s[j] == p;
            if j < k {
                assert(t[j] == p);
            } else {
                assert(t[j - 1] == p);
            }
        }
        lemma_range_is_long(t, lo, hi - 1);
    }
}

/// Where the search for a port starts depends on the machine's name and on
/// the guest port: what is hashed is the name and the two bytes of the port,
/// the least significant first, and no two guest ports of a machine hash the
/// same.
pub proof fn places_depend_on_name_and_port(handle: Seq<char>, a: u16, b: u16)
    ensures
        ports::seed_input(handle, a) == proto::wire(handle) + seq![
            (a % 0x100) as u8,
            (a / 0x100) as u8,
        ],
        a != b ==> ports::seed_input(handle, a) != ports::seed_input(handle, b),
        ports::places(handle)(a) == digest::seed_in(
            digest::blake3_of(ports::seed_input(handle, a)),
        ) % 10000,
{
    reveal_with_fuel(bytes::little_endian, 3);
    let w = proto::wire(handle);
    let x = ports::seed_input(handle, a);
    let y = ports::seed_input(handle, b);
    assert(bytes::little_endian(a as nat, 2) =~= seq![(a % 0x100) as u8, (a / 0x100) as u8]);
    assert(bytes::little_endian(b as nat, 2) =~= seq![(b % 0x100) as u8, (b / 0x100) as u8]);
    if x == y {
        assert(x[w.len() as int] == (a % 0x100) as u8);
        assert(y[w.len() as int] == (b % 0x100) as u8);
        assert(x[w.len() as int + 1] == (a / 0x100) as u8);
        assert(y[w.len() as int + 1] == (b / 0x100) as u8);
    }
}

/// Machines with different names hash different inputs for the same port.
pub proof fn machines_have_places_of_their_own(a: Seq<char>, b: Seq<char>, guest: u16)
    requires
        a != b,
    ensures
        ports::seed_input(a, guest) != ports::seed_input(b, guest),
{
    let p = proto::wire(a);
    let q = proto::wire(b);
    let x = ports::seed_input(a, guest);
    let y = ports::seed_input(b, guest);
    trees::numbers_take_their_width(guest as nat, 2);
    assert(x.len() == p.len() + 2);
    assert(y.len() == q.len() + 2);
    if x == y {
        assert(p.len() == q.len());
        assert(p =~= x.take(p.len() as int));
        assert(q =~= y.take(q.len() as int));
        vstd::utf8::encode_utf8_decode_utf8(a);
        vstd::utf8::encode_utf8_decode_utf8(b);
    }
}

/// A port that is named is opened where it is forwarded; without a name the
/// only one is, and it is an error where there is none or more than one.
pub proof fn ports_are_resolved(map: Seq<(u16, u16)>, guest: u16, i: int)
    ensures
        0 <= i < map.len() && map[i].1 == guest && (forall|j: int|
            0 <= j < i ==> (#[trigger] map[j]).1 != guest) ==> ports::resolved(map, Some(guest))
            == Ok::<u16, ports::PortError>(map[i].0),
        (forall|j: int| 0 <= j < map.len() ==> (#[trigger] map[j]).1 != guest)
            ==> ports::resolved(map, Some(guest)) == Err::<u16, ports::PortError>(
            ports::PortError::NotForwarded(guest),
        ),
        map.len() == 1 ==> ports::resolved(map, None) == Ok::<u16, ports::PortError>(map[0].0),
        map.len() == 0 ==> ports::resolved(map, None) == Err::<u16, ports::PortError>(
            ports::PortError::NoPorts,
        ),
        map.len() > 1 ==> ports::resolved(map, None) is Err,
{
    if 0 <= i < map.len() && map[i].1 == guest && forall|j: int|
        0 <= j < i ==> (#[trigger] map[j]).1 != guest {
        forwarded_ports_are_found(map, guest, i);
    }
    if forall|j: int| 0 <= j < map.len() ==> (#[trigger] map[j]).1 != guest {
        other_ports_are_not_found(map, guest);
    }
}

/// A recipe starts with the version of the agent's protocol, so that a new
/// version makes new images.
pub proof fn the_protocol_is_in_the_recipe(m: config::MooToml, contents: Seq<Option<Vec<u8>>>)
    ensures
        m.recipe_input(contents).len() > 0,
        m.recipe_input(contents)[0] == 4,
{
}

/// The pairs of a port map are read one by one: a pair that is no two port
/// numbers is passed over, and every other counts.
pub proof fn pairs_are_read_one_by_one(pairs: Seq<Seq<char>>, pair: Seq<char>, host: u16, guest: u16)
    ensures
        !pair.contains(':') ==> ports::forwards_of(pairs.push(pair)) == ports::forwards_of(pairs),
        pair == text::decimal(host as nat) + ":"@ + text::decimal(guest as nat)
            ==> ports::forwards_of(pairs.push(pair)) == ports::forwards_of(pairs).push(
            (host, guest),
        ),
{
    let all = pairs.push(pair);
    assert(all.drop_last() =~= pairs);
    assert(all.last() == pair);
    seqs::lemma_index_of_bounds(pair, ':');
    ports::lemma_pair_read((host, guest));
}

/// Blanks around the number and the unit of a size say nothing.
pub proof fn blanks_in_sizes_say_nothing(a: Seq<char>, n: nat, b: Seq<char>, c: Seq<char>)
    requires
        n <= u32::MAX,
        forall|i: int| 0 <= i < a.len() ==> text::is_space(#[trigger] a[i]),
        forall|i: int| 0 <= i < b.len() ==> text::is_space(#[trigger] b[i]),
        forall|i: int| 0 <= i < c.len() ==> text::is_space(#[trigger] c[i]),
    ensures
        config::memory_mib(a + (text::decimal(n) + b + "GiB"@) + c) == Some(n * 1024),
        config::memory_mib(a + (text::decimal(n) + b + "MiB"@) + c) == Some(n),
        config::memory_mib(a + text::decimal(n) + c) == Some(n),
{
    reveal_strlit("GiB");
    reveal_strlit("MiB");
    text::decimal_round_trip(n);
    let d = text::decimal(n);
    let none = Seq::<char>::empty();
    assert(text::is_digit(d[0]));
    assert(text::is_digit(d[d.len() - 1]));
    assert(!text::is_space('B'));
    let g = d + b + "GiB"@;
    let m = d + b + "MiB"@;
    assert(g[0] == d[0] && m[0] == d[0]);
    assert(g.last() == 'B' && m.last() == 'B');
    words::only_white_space_is_trimmed(a, g, c);
    words::only_white_space_is_trimmed(a, m, c);
    words::only_white_space_is_trimmed(a, d, c);
    words::only_white_space_is_trimmed(none, d, b);
    assert(none + d + b =~= d + b);
    assert("GiB"@ =~= g.subrange(g.len() - 3, g.len() as int));
    assert(g.take(g.len() - 3) =~= d + b);
    assert("MiB"@ =~= m.subrange(m.len() - 3, m.len() as int));
    assert(m.take(m.len() - 3) =~= d + b);
    if "GiB"@.is_suffix_of(m) {
        assert("GiB"@ == m.subrange(m.len() - 3, m.len() as int));
        assert(m.subrange(m.len() - 3, m.len() as int)[0] == 'M');
    }
    sizes_are_read(n);
    lemma_digits_are_trimmed(d);
}

/// What starts with anything but a number, a plus sign or a blank is no size,
/// and leaves the default.
pub proof fn other_texts_are_no_sizes(s: Seq<char>, m: config::MooToml)
    requires
        s.len() > 0,
        !text::is_digit(s[0]),
        s[0] != '+',
        !text::is_space(s[0]),
    ensures
        config::memory_mib(s) is None,
        m.resources.memory is Some && m.resources.memory->0@ == s ==> m.ram_value() == 4096,
{
    reveal_strlit("GiB");
    reveal_strlit("MiB");
    let t = text::trimmed(s);
    assert(text::trimmed_start(s) == s);
    lemma_start_stays(s);
    lemma_no_number(t);
    let u = t.take(t.len() - 3);
    if t.len() > 3 {
        assert(u[0] == s[0]);
        assert(text::trimmed_start(u) == u);
        lemma_start_stays(u);
        lemma_no_number(text::trimmed(u));
    } else if t.len() == 3 {
        assert(u =~= Seq::<char>::empty());
        assert(text::trimmed(u) =~= u);
    }
}

proof fn lemma_start_stays(s: Seq<char>)
    requires
        s.len() > 0,
        !text::is_space(s[0]),
    ensures
        text::trimmed_end(s).len() > 0,
        text::trimmed_end(s)[0] == s[0],
    decreases s.len(),
{
    if text::is_space(s.last()) {
        assert(s.len() > 1);
        lemma_start_stays(s.drop_last());
    }
}

proof fn lemma_no_number(s: Seq<char>)
    requires
        s.len() > 0,
        !text::is_digit(s[0]),
        s[0] != '+',
    ensures
        text::unsigned_value(s, u32::MAX as nat) is None,
{
    words::lemma_starts_like_no_number(s);
}

} // verus!
