//! Host ports for the guest ports of a machine.
use crate::bytes;
use crate::digest;
use crate::proto;
use crate::seqs;
use crate::shim;
use crate::text;
use vstd::prelude::*;

verus! {

/// The first host port that is handed out.
pub const RANGE_START: u32 = 20000;

/// How many host ports are handed out.
pub const RANGE_LEN: u32 = 10000;

/// What the place of a guest port is derived from.
pub open spec fn seed_input(handle: Seq<char>, guest: u16) -> Seq<u8> {
    proto::wire(handle) + bytes::little_endian(guest as nat, 2)
}

/// The place in the range at which the search for a host port starts.
pub open spec fn first_place(handle: Seq<char>, guest: u16) -> nat {
    digest::seed_in(digest::blake3_of(seed_input(handle, guest))) % (RANGE_LEN as nat)
}

/// The `k`-th port that is tried, from place `start` on and round the range.
pub open spec fn candidate(start: nat, k: nat) -> int {
    RANGE_START + (start + k) % (RANGE_LEN as nat)
}

/// The port is given to the machine already, or it is in use on the host.
pub open spec fn refused<F: Fn(u16) -> bool>(free: F, taken: Seq<u16>, port: int) -> bool {
    taken.contains(port as u16) || call_ensures(free, (port as u16,), false)
}

/// The port is the `k`-th that is tried, and the first that is free.
pub open spec fn placed_at<F: Fn(u16) -> bool>(
    free: F,
    taken: Seq<u16>,
    start: nat,
    port: u16,
    k: nat,
) -> bool {
    &&& k < RANGE_LEN
    &&& port == candidate(start, k)
    &&& !taken.contains(port)
    &&& call_ensures(free, (port,), true)
    &&& forall|j: nat| j < k ==> #[trigger] refused(free, taken, candidate(start, j))
}

/// The port is the first free one from place `start` on.
pub open spec fn placed<F: Fn(u16) -> bool>(free: F, taken: Seq<u16>, start: nat, port: u16) -> bool {
    exists|k: nat| placed_at(free, taken, start, port, k)
}

/// No port of the range is free.
pub open spec fn exhausted<F: Fn(u16) -> bool>(free: F, taken: Seq<u16>, start: nat) -> bool {
    forall|j: nat| j < RANGE_LEN ==> #[trigger] refused(free, taken, candidate(start, j))
}

/// The host ports of a map.
pub open spec fn host_ports(map: Seq<(u16, u16)>) -> Seq<u16> {
    map.map_values(|pair: (u16, u16)| pair.0)
}

/// The map gives each guest port, in order, the first free host port from
/// the place on that the handle and the guest port determine. A guest port
/// for which none is free is left out.
pub open spec fn allocates<F: Fn(u16) -> bool>(
    free: F,
    place: spec_fn(u16) -> nat,
    guests: Seq<u16>,
    map: Seq<(u16, u16)>,
) -> bool
    decreases guests.len(),
{
    if guests.len() == 0 {
        map.len() == 0
    } else {
        let guest = guests.last();
        let before = guests.drop_last();
        ||| map.len() > 0 && map.last().1 == guest && placed(
            free,
            host_ports(map.drop_last()),
            place(guest),
            map.last().0,
        ) && allocates(free, place, before, map.drop_last())
        ||| exhausted(free, host_ports(map), place(guest)) && allocates(free, place, before, map)
    }
}

/// Where the search starts for each guest port of a machine.
pub open spec fn places(handle: Seq<char>) -> spec_fn(u16) -> nat {
    |guest: u16| first_place(handle, guest)
}

fn has_port(ports: &[u16], p: u16) -> (r: bool)
    ensures
        r == ports@.contains(p),
{
    for i in 0..ports.len()
        invariant
            forall|j: int| 0 <= j < i ==> ports@[j] != p,
    {
        if ports[i] == p {
            assert(ports@[i as int] == p);
            return true;
        }
    }
    assert(!ports@.contains(p));
    false
}

/// The first free port from place `start` on.
fn place_port<F: Fn(u16) -> bool>(free: &F, taken: &[u16], start: u32) -> (r: Option<u16>)
    requires
        start < RANGE_LEN,
        forall|p: u16| #[trigger] call_requires(*free, (p,)),
    ensures
        match r {
            Some(p) => placed(*free, taken@, start as nat, p),
            None => exhausted(*free, taken@, start as nat),
        },
{
    let mut k: u32 = 0;
    while k < RANGE_LEN
        invariant
            start < RANGE_LEN,
            k <= RANGE_LEN,
            forall|p: u16| #[trigger] call_requires(*free, (p,)),
            forall|j: nat| j < k ==> #[trigger] refused(*free, taken@, candidate(start as nat, j)),
        decreases RANGE_LEN - k,
    {
        let port = (RANGE_START + (start + k) % RANGE_LEN) as u16;
        assert(port == candidate(start as nat, k as nat));
        if has_port(taken, port) {
            assert(refused(*free, taken@, candidate(start as nat, k as nat)));
        } else if free(port) {
            assert(placed_at(*free, taken@, start as nat, port, k as nat));
            return Some(port);
        } else {
            assert(refused(*free, taken@, candidate(start as nat, k as nat)));
        }
        k = k + 1;
    }
    None
}

/// Deterministic host ports for the guest ports of a machine: the search
/// starts where a hash of the handle and the guest port says, and goes on
/// past ports that are in use.
pub fn allocate_ports<F: Fn(u16) -> bool>(handle: &str, guest_ports: &[u16], free: &F) -> (r: Vec<
    (u16, u16),
>)
    requires
        forall|p: u16| #[trigger] call_requires(*free, (p,)),
    ensures
        allocates(*free, places(handle@), guest_ports@, r@),
{
    let mut taken: Vec<u16> = Vec::new();
    let mut map: Vec<(u16, u16)> = Vec::new();
    assert(host_ports(map@) =~= taken@);
    for i in 0..guest_ports.len()
        invariant
            forall|p: u16| #[trigger] call_requires(*free, (p,)),
            taken@ == host_ports(map@),
            allocates(*free, places(handle@), guest_ports@.take(i as int), map@),
    {
        let guest = guest_ports[i];
        let ghost t = guest_ports@.take(i as int + 1);
        assert(t.drop_last() =~= guest_ports@.take(i as int));
        assert(t.last() == guest);
        let mut input: Vec<u8> = Vec::new();
        input.extend_from_slice(handle.as_bytes());
        bytes::push_little_endian(&mut input, guest as u128, 2);
        assert(input@ =~= seed_input(handle@, guest));
        let start = digest::seed_of(&digest::blake3_digest(&input)) % RANGE_LEN;
        assert(start == places(handle@)(guest));
        if let Some(port) = place_port(free, &taken, start) {
            let ghost before = map@;
            taken.push(port);
            map.push((port, guest));
            assert(map@.drop_last() =~= before);
            assert(host_ports(map@) =~= taken@);
        }
    }
    assert(guest_ports@.take(guest_ports@.len() as int) =~= guest_ports@);
    map
}

/// The host ports of a machine are all different and all within the range.
pub proof fn ports_do_not_collide<F: Fn(u16) -> bool>(
    free: F,
    place: spec_fn(u16) -> nat,
    guests: Seq<u16>,
    map: Seq<(u16, u16)>,
)
    requires
        allocates(free, place, guests, map),
    ensures
        host_ports(map).no_duplicates(),
        forall|i: int|
            0 <= i < map.len() ==> RANGE_START <= (#[trigger] map[i]).0 < RANGE_START + RANGE_LEN
                && guests.contains(map[i].1),
    decreases guests.len(),
{
    if guests.len() > 0 {
        let guest = guests.last();
        let before = guests.drop_last();
        let shorter = map.drop_last();
        if map.len() > 0 && map.last().1 == guest && placed(
            free,
            host_ports(shorter),
            place(guest),
            map.last().0,
        ) && allocates(free, place, before, shorter) {
            ports_do_not_collide(free, place, before, shorter);
            let port = map.last().0;
            let s = place(guest);
            let taken = host_ports(shorter);
            let k = choose|k: nat| placed_at(free, taken, s, port, k);
            assert(host_ports(map) =~= host_ports(shorter).push(map.last().0));
            assert forall|i: int| 0 <= i < map.len() implies RANGE_START <= (
            #[trigger] map[i]).0 < RANGE_START + RANGE_LEN && guests.contains(map[i].1) by {
                if i < shorter.len() {
                    assert(shorter[i] == map[i]);
                    let g = choose|g: int| 0 <= g < before.len() && before[g] == map[i].1;
                    assert(guests[g] == map[i].1);
                } else {
                    assert(guests[guests.len() - 1] == map[i].1);
                }
            }
            assert forall|i: int, j: int|
                0 <= i < j < host_ports(map).len() implies host_ports(map)[i] != host_ports(
                map,
            )[j] by {
                if j == shorter.len() {
                    assert(host_ports(shorter)[i] == host_ports(map)[i]);
                    assert(host_ports(shorter).contains(host_ports(map)[i]));
                } else {
                    assert(host_ports(shorter)[i] == host_ports(map)[i]);
                    assert(host_ports(shorter)[j] == host_ports(map)[j]);
                }
            }
        } else {
            ports_do_not_collide(free, place, before, map);
            assert forall|i: int| 0 <= i < map.len() implies guests.contains(
                (#[trigger] map[i]).1,
            ) by {
                let g = choose|g: int| 0 <= g < before.len() && before[g] == map[i].1;
                assert(guests[g] == map[i].1);
            }
        }
    }
}

/// The answers of `free` are those of `open`.
pub open spec fn answers<F: Fn(u16) -> bool>(free: F, open: spec_fn(u16) -> bool) -> bool {
    forall|p: u16, b: bool| #[trigger] call_ensures(free, (p,), b) ==> b == open(p)
}

/// Ports are stable: with the same ports in use on the host, a machine gets
/// the same host ports for its guest ports every time.
pub proof fn ports_are_stable<F: Fn(u16) -> bool, G: Fn(u16) -> bool>(
    free: F,
    later: G,
    open: spec_fn(u16) -> bool,
    place: spec_fn(u16) -> nat,
    guests: Seq<u16>,
    a: Seq<(u16, u16)>,
    b: Seq<(u16, u16)>,
)
    requires
        answers(free, open),
        answers(later, open),
        allocates(free, place, guests, a),
        allocates(later, place, guests, b),
    ensures
        a == b,
    decreases guests.len(),
{
    if guests.len() == 0 {
        assert(a =~= b);
    } else {
        let guest = guests.last();
        let before = guests.drop_last();
        let a1 = a.drop_last();
        let b1 = b.drop_last();
        let a_placed = a.len() > 0 && a.last().1 == guest && placed(
            free,
            host_ports(a1),
            place(guest),
            a.last().0,
        ) && allocates(free, place, before, a1);
        let b_placed = b.len() > 0 && b.last().1 == guest && placed(
            later,
            host_ports(b1),
            place(guest),
            b.last().0,
        ) && allocates(later, place, before, b1);
        if a_placed && b_placed {
            ports_are_stable(free, later, open, place, before, a1, b1);
            let s = place(guest);
            let x = a.last().0;
            let i = choose|k: nat| placed_at(free, host_ports(a1), s, x, k);
            let y = b.last().0;
            let j = choose|k: nat| placed_at(later, host_ports(b1), s, y, k);
            if i < j {
                assert(refused(later, host_ports(b1), candidate(s, i)));
            } else if j < i {
                assert(refused(free, host_ports(a1), candidate(s, j)));
            }
            assert(a =~= a1.push(a.last()));
            assert(b =~= b1.push(b.last()));
        } else if a_placed {
            ports_are_stable(free, later, open, place, before, a1, b);
            let s = place(guest);
            let x = a.last().0;
            let i = choose|k: nat| placed_at(free, host_ports(a1), s, x, k);
            assert(refused(later, host_ports(b), candidate(s, i)));
        } else if b_placed {
            ports_are_stable(free, later, open, place, before, a, b1);
            let s = place(guest);
            let y = b.last().0;
            let j = choose|k: nat| placed_at(later, host_ports(b1), s, y, k);
            assert(refused(free, host_ports(a), candidate(s, j)));
        } else {
            ports_are_stable(free, later, open, place, before, a, b);
        }
    }
}

/// One "host:guest" pair.
pub open spec fn pair_text(pair: (u16, u16)) -> Seq<char> {
    text::decimal(pair.0 as nat) + ":"@ + text::decimal(pair.1 as nat)
}

/// The pairs of a map, separated by commas.
pub open spec fn port_map_text(map: Seq<(u16, u16)>) -> Seq<char> {
    seqs::join(map.map_values(|pair: (u16, u16)| pair_text(pair)), ","@)
}

pub fn format_port_map(map: &[(u16, u16)]) -> (r: String)
    ensures
        r@ == port_map_text(map@),
{
    let mut parts: Vec<String> = Vec::new();
    let ghost shown = map@.map_values(|pair: (u16, u16)| pair_text(pair));
    for i in 0..map.len()
        invariant
            shown == map@.map_values(|pair: (u16, u16)| pair_text(pair)),
            text::texts(parts@) == shown.take(i as int),
    {
        let h = text::format_decimal(map[i].0 as u64);
        let g = text::format_decimal(map[i].1 as u64);
        let part = text::concat3(h.as_str(), ":", g.as_str());
        let ghost held = text::texts(parts@);
        parts.push(part);
        assert(text::texts(parts@) =~= held.push(part@));
        assert(shown.take(i as int + 1) =~= held.push(shown[i as int]));
    }
    assert(shown.take(shown.len() as int) =~= shown);
    text::join_with(&parts, ",")
}

/// The ports that a "host:guest" pair connects.
pub open spec fn forward_of(pair: Seq<char>) -> Option<(u16, u16)> {
    match shim::pair_parts(pair) {
        Some((host, guest)) => match (
            text::unsigned_value(host, 0xffff),
            text::unsigned_value(guest, 0xffff),
        ) {
            (Some(h), Some(g)) => Some((h as u16, g as u16)),
            _ => None,
        },
        None => None,
    }
}

/// The forwards that the pairs write.
pub open spec fn forwards_of(pairs: Seq<Seq<char>>) -> Seq<(u16, u16)>
    decreases pairs.len(),
{
    if pairs.len() == 0 {
        Seq::<(u16, u16)>::empty()
    } else {
        match forward_of(pairs.last()) {
            Some(f) => forwards_of(pairs.drop_last()).push(f),
            None => forwards_of(pairs.drop_last()),
        }
    }
}

/// The forwards of a machine, host port first.
pub open spec fn forwards(port_map: Seq<char>) -> Seq<(u16, u16)> {
    forwards_of(shim::pairs_of(port_map))
}

pub fn read_port_map(port_map: &str) -> (r: Vec<(u16, u16)>)
    ensures
        r@ == forwards(port_map@),
{
    let pairs = shim::port_pairs(port_map);
    let ghost all = shim::pairs_of(port_map@);
    let mut out: Vec<(u16, u16)> = Vec::new();
    for i in 0..pairs.len()
        invariant
            text::texts(pairs@) == all,
            out@ == forwards_of(all.take(i as int)),
    {
        let ghost t = all.take(i as int + 1);
        assert(t.drop_last() =~= all.take(i as int));
        assert(t.last() == pairs@[i as int]@);
        if let Some(f) = shim::split_pair(pairs[i].as_str()) {
            let host = text::parse_unsigned(f.host.as_str(), 0xffff);
            let guest = text::parse_unsigned(f.guest.as_str(), 0xffff);
            if let Some(h) = host {
                if let Some(g) = guest {
                    out.push((h as u16, g as u16));
                }
            }
        }
    }
    assert(all.take(all.len() as int) =~= all);
    out
}

/// What was recorded of a machine's ports is what is read from the record.
pub proof fn port_map_round_trip(map: Seq<(u16, u16)>)
    ensures
        forwards(port_map_text(map)) == map,
{
    reveal_strlit(",");
    reveal_strlit(":");
    let parts = map.map_values(|pair: (u16, u16)| pair_text(pair));
    assert(","@ =~= seq![',']);
    assert forall|i: int| 0 <= i < parts.len() implies !(#[trigger] parts[i]).contains(',')
        && parts[i].len() > 0 && forward_of(parts[i]) == Some(map[i]) by {
        lemma_pair_read(map[i]);
    }
    if map.len() == 0 {
        let none = Seq::<char>::empty();
        assert(port_map_text(map) =~= none);
        let pieces = seqs::split(none, ',');
        assert(pieces.drop_last() =~= Seq::<Seq<char>>::empty());
        assert(seqs::select(pieces.drop_last(), |p: Seq<char>| p.len() > 0) =~= Seq::<
            Seq<char>,
        >::empty());
        assert(shim::pairs_of(none) =~= Seq::<Seq<char>>::empty());
        assert(forwards(port_map_text(map)) =~= map);
    } else {
        seqs::split_of_join(parts, ',');
        lemma_all_kept(parts);
        lemma_forwards_read(parts, map);
    }
}

/// A pair that is written is read back, and holds no comma.
pub proof fn lemma_pair_read(pair: (u16, u16))
    ensures
        forward_of(pair_text(pair)) == Some(pair),
        !pair_text(pair).contains(','),
        pair_text(pair).len() > 0,
{
    reveal_strlit(":");
    let h = text::decimal(pair.0 as nat);
    let g = text::decimal(pair.1 as nat);
    text::decimal_round_trip(pair.0 as nat);
    text::decimal_round_trip(pair.1 as nat);
    let s = pair_text(pair);
    assert(s == h + ":"@ + g);
    assert(s[h.len() as int] == ':');
    assert forall|j: int| 0 <= j < h.len() implies s[j] != ':' by {
        assert(s[j] == h[j]);
        assert(text::is_digit(h[j]));
    }
    seqs::lemma_index_of(s, ':', h.len() as int);
    assert(s.take(h.len() as int) =~= h);
    assert(s.skip(h.len() as int + 1) =~= g);
    assert(text::is_digit(h[0]));
    assert(text::is_digit(g[0]));
    assert forall|j: int| 0 <= j < s.len() implies s[j] != ',' by {
        if j < h.len() {
            assert(s[j] == h[j]);
            assert(text::is_digit(h[j]));
        } else if j > h.len() {
            assert(s[j] == g[j - h.len() - 1]);
            assert(text::is_digit(g[j - h.len() - 1]));
        }
    }
}

/// Parts that are not empty are all kept.
pub proof fn lemma_all_kept(parts: Seq<Seq<char>>)
    requires
        forall|i: int| 0 <= i < parts.len() ==> (#[trigger] parts[i]).len() > 0,
    ensures
        seqs::select(parts, |p: Seq<char>| p.len() > 0) == parts,
    decreases parts.len(),
{
    if parts.len() > 0 {
        let t = parts.drop_last();
        assert forall|i: int| 0 <= i < t.len() implies (#[trigger] t[i]).len() > 0 by {
            assert(t[i] == parts[i]);
        }
        lemma_all_kept(t);
        assert(parts[parts.len() - 1].len() > 0);
        assert(t.push(parts.last()) =~= parts);
    } else {
        assert(seqs::select(parts, |p: Seq<char>| p.len() > 0) =~= parts);
    }
}

proof fn lemma_forwards_read(parts: Seq<Seq<char>>, map: Seq<(u16, u16)>)
    requires
        parts.len() == map.len(),
        forall|i: int| 0 <= i < parts.len() ==> forward_of(#[trigger] parts[i]) == Some(map[i]),
    ensures
        forwards_of(parts) == map,
    decreases parts.len(),
{
    if parts.len() > 0 {
        let t = parts.drop_last();
        assert forall|i: int| 0 <= i < t.len() implies forward_of(#[trigger] t[i]) == Some(
            map.drop_last()[i],
        ) by {
            assert(t[i] == parts[i]);
        }
        lemma_forwards_read(t, map.drop_last());
        assert(forward_of(parts[parts.len() - 1]) == Some(map[map.len() - 1]));
        assert(map.drop_last().push(map.last()) =~= map);
    } else {
        assert(forwards_of(parts) =~= map);
    }
}

/// Why no host port was found.
#[derive(Debug, PartialEq, Eq, Structural)]
pub enum PortError {
    /// The machine forwards no port.
    NoPorts,
    /// The machine forwards this many ports, and none was named.
    Several(usize),
    /// The machine does not forward this guest port.
    NotForwarded(u16),
}

/// The host port of the first forward to the guest port.
pub open spec fn host_for(map: Seq<(u16, u16)>, guest: u16) -> Option<u16>
    decreases map.len(),
{
    if map.len() == 0 {
        None
    } else if map[0].1 == guest {
        Some(map[0].0)
    } else {
        host_for(map.skip(1), guest)
    }
}

/// The host port on which a guest port answers, given what is forwarded.
pub open spec fn resolved(map: Seq<(u16, u16)>, guest: Option<u16>) -> Result<u16, PortError> {
    match guest {
        Some(g) => match host_for(map, g) {
            Some(h) => Ok(h),
            None => Err(PortError::NotForwarded(g)),
        },
        None => if map.len() == 0 {
            Err(PortError::NoPorts)
        } else if map.len() == 1 {
            Ok(map[0].0)
        } else {
            Err(PortError::Several(map.len() as usize))
        },
    }
}

/// The host port on which a guest port answers. The guest port may be left
/// open where the machine forwards exactly one.
pub fn resolve_host_port(port_map: &str, guest: Option<u16>) -> (r: Result<u16, PortError>)
    ensures
        r == resolved(forwards(port_map@), guest),
{
    let map = read_port_map(port_map);
    let n = map.len();
    match guest {
        None => {
            if n == 0 {
                Err(PortError::NoPorts)
            } else if n == 1 {
                Ok(map[0].0)
            } else {
                Err(PortError::Several(n))
            }
        },
        Some(g) => {
            let mut i: usize = 0;
            assert(map@.skip(0) =~= map@);
            while i < n
                invariant
                    guest == Some(g),
                    map@ == forwards(port_map@),
                    n == map@.len(),
                    i <= n,
                    host_for(map@, g) == host_for(map@.skip(i as int), g),
                decreases n - i,
            {
                let ghost t = map@.skip(i as int);
                assert(t[0] == map@[i as int]);
                assert(t.skip(1) =~= map@.skip(i as int + 1));
                if map[i].1 == g {
                    return Ok(map[i].0);
                }
                i = i + 1;
            }
            Err(PortError::NotForwarded(g))
        },
    }
}

impl PortError {
    pub open spec fn text(self, machine: Seq<char>) -> Seq<char> {
        match self {
            PortError::NoPorts => "machine '"@ + machine + "' forwards no ports"@,
            PortError::Several(n) => "machine '"@ + machine + "' forwards "@ + text::decimal(
                n as nat,
            ) + " ports, name the guest port to open"@,
            PortError::NotForwarded(g) => "machine '"@ + machine
                + "' does not forward guest port "@ + text::decimal(g as nat),
        }
    }

    /// The message about a machine.
    pub fn message(&self, machine: &str) -> (r: String)
        ensures
            r@ == self.text(machine@),
    {
        match self {
            PortError::NoPorts => text::concat3("machine '", machine, "' forwards no ports"),
            PortError::Several(n) => {
                let mut s = text::concat3("machine '", machine, "' forwards ");
                s.append(text::format_decimal(*n as u64).as_str());
                s.append(" ports, name the guest port to open");
                s
            },
            PortError::NotForwarded(g) => {
                let mut s = text::concat3("machine '", machine, "' does not forward guest port ");
                s.append(text::format_decimal(*g as u64).as_str());
                s
            },
        }
    }
}

} // verus!
