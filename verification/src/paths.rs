//! Paths as the host and the guest name them, and where moo keeps its state.
use crate::bytes;
use crate::seqs;
use crate::text;
use vstd::prelude::*;

verus! {

/// `name` under `base`: an absolute name stands for itself, and one slash
/// separates the two otherwise.
pub open spec fn joined(base: Seq<char>, name: Seq<char>) -> Seq<char> {
    if name.len() > 0 && name[0] == '/' {
        name
    } else if base.len() == 0 || base.last() == '/' {
        base + name
    } else {
        base + "/"@ + name
    }
}

pub fn join(base: &str, name: &str) -> (r: String)
    ensures
        r@ == joined(base@, name@),
{
    let b = text::chars_of(base);
    let n = text::chars_of(name);
    if n.len() > 0 && n[0] == '/' {
        return name.to_owned();
    }
    let mut out = base.to_owned();
    if b.len() > 0 && b[b.len() - 1] != '/' {
        out.append("/");
    }
    out.append(name);
    out
}

/// Root of all moo state on this host, in the home directory.
pub open spec fn moo_home_of(home: Seq<char>) -> Seq<char> {
    joined(home, ".moo"@)
}

pub fn moo_home(home: &str) -> (r: String)
    ensures
        r@ == moo_home_of(home@),
{
    join(home, ".moo")
}

/// Where the live overlays are.
pub fn machines_dir(home: &str) -> (r: String)
    ensures
        r@ == joined(moo_home_of(home@), "machines"@),
{
    join(moo_home(home).as_str(), "machines")
}

/// Where the saved snapshots are.
pub fn snapshots_dir(home: &str) -> (r: String)
    ensures
        r@ == joined(moo_home_of(home@), "snapshots"@),
{
    join(moo_home(home).as_str(), "snapshots")
}

/// Where the golden images are.
pub fn images_dir(home: &str) -> (r: String)
    ensures
        r@ == joined(moo_home_of(home@), "images"@),
{
    join(moo_home(home).as_str(), "images")
}

/// Where sockets, process ids and logs of running machines are.
pub fn runtime_dir(home: &str) -> (r: String)
    ensures
        r@ == joined(moo_home_of(home@), "run"@),
{
    join(moo_home(home).as_str(), "run")
}

/// The file that holds the registry.
pub fn registry_file(home: &str) -> (r: String)
    ensures
        r@ == joined(moo_home_of(home@), "registry.db"@),
{
    join(moo_home(home).as_str(), "registry.db")
}

pub const SLASH: u8 = 47;

pub const DOT: u8 = 46;

/// A path taken apart: whether it starts at the root, and the names on the
/// way. Repeated slashes and `.` between names say nothing; a leading `.` of
/// a relative path is kept as a name.
pub struct Route {
    pub absolute: bool,
    pub names: Vec<Vec<u8>>,
}

/// The mathematical contents of a [`Route`].
#[verifier::ext_equal]
pub struct RouteModel {
    pub absolute: bool,
    pub names: Seq<Seq<u8>>,
}

impl View for Route {
    type V = RouteModel;

    open spec fn view(&self) -> RouteModel {
        RouteModel { absolute: self.absolute, names: bytes::byte_strings(self.names@) }
    }
}

pub open spec fn is_name(p: Seq<u8>) -> bool {
    p.len() > 0 && p != seq![DOT]
}

pub open spec fn names_of(path: Seq<u8>) -> Seq<Seq<u8>> {
    let pieces = seqs::split(path, SLASH);
    let rest = seqs::select(pieces.skip(1), |p: Seq<u8>| is_name(p));
    if pieces[0].len() > 0 {
        seq![pieces[0]] + rest
    } else {
        rest
    }
}

pub open spec fn route_of(path: Seq<u8>) -> RouteModel {
    RouteModel { absolute: path.len() > 0 && path[0] == SLASH, names: names_of(path) }
}

impl RouteModel {
    /// The last name, unless it is `.` or `..`.
    pub open spec fn file_name(self) -> Option<Seq<u8>> {
        if self.names.len() == 0 || self.names.last() == seq![DOT] || self.names.last()
            == seq![DOT, DOT] {
            None
        } else {
            Some(self.names.last())
        }
    }

    /// The path without its last name.
    pub open spec fn parent(self) -> Option<RouteModel> {
        if self.names.len() == 0 {
            None
        } else {
            Some(RouteModel { absolute: self.absolute, names: self.names.drop_last() })
        }
    }

    /// The path leads through `base`, or to it.
    pub open spec fn below(self, base: RouteModel) -> bool {
        self.absolute == base.absolute && base.names.is_prefix_of(self.names)
    }

    /// The path written out.
    pub open spec fn written(self) -> Seq<u8> {
        let names = seqs::join(self.names, seq![SLASH]);
        if self.absolute {
            seq![SLASH] + names
        } else {
            names
        }
    }
}

impl Route {
    pub fn parse(path: &[u8]) -> (r: Route)
        ensures
            r@ == route_of(path@),
    {
        let pieces = bytes::split_on(path, SLASH);
        let ghost all = seqs::split(path@, SLASH);
        let ghost keep = |p: Seq<u8>| is_name(p);
        let mut names: Vec<Vec<u8>> = Vec::new();
        assert(all[0] == pieces@[0]@);
        if pieces[0].len() > 0 {
            let first = bytes::slice_of(&pieces[0], 0, pieces[0].len());
            assert(first@ =~= all[0]);
            names.push(first);
            assert(bytes::byte_strings(names@) =~= seq![all[0]]);
        }
        let ghost head = bytes::byte_strings(names@);
        let ghost tail = all.skip(1);
        let mut i: usize = 1;
        assert(tail.take(0) =~= Seq::<Seq<u8>>::empty());
        assert(head + seqs::select(tail.take(0), keep) =~= head);
        while i < pieces.len()
            invariant
                1 <= i <= pieces@.len(),
                bytes::byte_strings(pieces@) == all,
                tail == all.skip(1),
                keep == (|p: Seq<u8>| is_name(p)),
                bytes::byte_strings(names@) == head + seqs::select(tail.take(i - 1), keep),
            decreases pieces@.len() - i,
        {
            let ghost t = tail.take(i as int);
            assert(t.drop_last() =~= tail.take(i - 1));
            assert(t.last() == pieces@[i as int]@);
            let p = &pieces[i];
            let dot = p.len() == 1 && p[0] == DOT;
            assert(dot == (p@ == seq![DOT])) by {
                if dot {
                    assert(p@ =~= seq![DOT]);
                }
            }
            if p.len() > 0 && !dot {
                let ghost held = bytes::byte_strings(names@);
                let name = bytes::slice_of(p, 0, p.len());
                assert(name@ =~= p@);
                names.push(name);
                assert(bytes::byte_strings(names@) =~= held.push(p@));
                assert(held.push(p@) =~= head + seqs::select(t.drop_last(), keep).push(p@));
            }
            i = i + 1;
        }
        assert(tail.take(pieces@.len() - 1) =~= tail);
        let absolute = path.len() > 0 && path[0] == SLASH;
        let r = Route { absolute, names };
        proof {
            if all[0].len() > 0 {
                assert(r@.names =~= seq![all[0]] + seqs::select(tail, keep));
            } else {
                assert(r@.names =~= seqs::select(tail, keep));
            }
            assert(r@ =~= route_of(path@));
        }
        r
    }

    /// The last name, unless it is `.` or `..`.
    pub fn file_name(&self) -> (r: Option<Vec<u8>>)
        ensures
            match r {
                Some(n) => self@.file_name() == Some(n@),
                None => self@.file_name() is None,
            },
    {
        let n = self.names.len();
        if n == 0 {
            return None;
        }
        let last = &self.names[n - 1];
        assert(self@.names.last() == last@);
        if last.len() == 1 && last[0] == DOT {
            assert(last@ =~= seq![DOT]);
            return None;
        }
        if last.len() == 2 && last[0] == DOT && last[1] == DOT {
            assert(last@ =~= seq![DOT, DOT]);
            return None;
        }
        proof {
            if last@ == seq![DOT] {
                assert(last@[0] == DOT);
            }
            if last@ == seq![DOT, DOT] {
                assert(last@[0] == DOT && last@[1] == DOT);
            }
        }
        let name = bytes::slice_of(last, 0, last.len());
        assert(name@ =~= last@);
        Some(name)
    }

    /// The first `n` names of the path.
    pub fn ancestor(&self, n: usize) -> (r: Route)
        requires
            n <= self.names@.len(),
        ensures
            r@ == (RouteModel { absolute: self.absolute, names: self@.names.take(n as int) }),
    {
        let mut names: Vec<Vec<u8>> = Vec::new();
        for i in 0..n
            invariant
                n <= self.names@.len(),
                bytes::byte_strings(names@) == self@.names.take(i as int),
        {
            let ghost held = bytes::byte_strings(names@);
            let name = bytes::slice_of(&self.names[i], 0, self.names[i].len());
            assert(name@ =~= self.names@[i as int]@);
            names.push(name);
            assert(bytes::byte_strings(names@) =~= held.push(self.names@[i as int]@));
            assert(self@.names.take(i as int + 1) =~= self@.names.take(i as int).push(
                self@.names[i as int],
            ));
        }
        let r = Route { absolute: self.absolute, names };
        assert(r@.names =~= self@.names.take(n as int));
        r
    }

    /// The path leads through `base`, or to it.
    pub fn is_below(&self, base: &Route) -> (r: bool)
        ensures
            r == self@.below(base@),
    {
        if self.absolute != base.absolute || base.names.len() > self.names.len() {
            return false;
        }
        for i in 0..base.names.len()
            invariant
                base.names@.len() <= self.names@.len(),
                forall|j: int| 0 <= j < i ==> self@.names[j] == base@.names[j],
        {
            assert(self@.names[i as int] == self.names@[i as int]@);
            assert(base@.names[i as int] == base.names@[i as int]@);
            if !bytes::same_bytes(&self.names[i], &base.names[i]) {
                assert(self@.names.subrange(0, base@.names.len() as int)[i as int]
                    != base@.names[i as int]);
                return false;
            }
        }
        assert(base@.names =~= self@.names.subrange(0, base@.names.len() as int));
        true
    }

    /// The path written out.
    pub fn written(&self) -> (r: Vec<u8>)
        ensures
            r@ == self@.written(),
    {
        let mut out: Vec<u8> = Vec::new();
        if self.absolute {
            out.push(SLASH);
        }
        let ghost head = out@;
        let ghost names = self@.names;
        assert(names.take(0) =~= Seq::<Seq<u8>>::empty());
        for i in 0..self.names.len()
            invariant
                names == self@.names,
                out@ == head + seqs::join(names.take(i as int), seq![SLASH]),
        {
            let ghost t = names.take(i as int + 1);
            assert(t.drop_last() =~= names.take(i as int));
            assert(t.last() == self.names@[i as int]@);
            let ghost held = out@;
            if i > 0 {
                out.push(SLASH);
            }
            out.extend_from_slice(&self.names[i]);
            if i == 0 {
                assert(names.take(1)[0] == self.names@[0]@);
            }
            assert(out@ =~= head + seqs::join(t, seq![SLASH]));
        }
        assert(names.take(self.names@.len() as int) =~= names);
        assert(out@ =~= self@.written());
        out
    }
}

/// The two texts name the same path.
pub open spec fn same_route(a: Seq<char>, b: Seq<char>) -> bool {
    route_of(vstd::utf8::encode_utf8(a)) == route_of(vstd::utf8::encode_utf8(b))
}

pub fn same_path(a: &str, b: &str) -> (r: bool)
    ensures
        r == same_route(a@, b@),
{
    let x = Route::parse(a.as_bytes());
    let y = Route::parse(b.as_bytes());
    let eq = x.names.len() == y.names.len() && x.is_below(&y);
    proof {
        if eq {
            assert(y@.names =~= x@.names.subrange(0, x@.names.len() as int));
            assert(x@.names =~= y@.names);
            assert(x@ =~= y@);
        }
        if x@ == y@ {
            assert(x@.names.len() == x.names@.len());
            assert(y@.names.len() == y.names@.len());
            assert(y@.names =~= x@.names.subrange(0, y@.names.len() as int));
        }
    }
    eq
}

} // verus!
