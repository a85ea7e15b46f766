//! Directories in the order of their paths.
use crate::bytes;
use crate::paths;
use crate::seqs;
use vstd::prelude::*;

verus! {

/// The order of byte strings: by the first byte in which they differ, a prefix first.
pub open spec fn bytes_precede(a: Seq<u8>, b: Seq<u8>) -> bool
    decreases a.len(),
{
    if b.len() == 0 {
        false
    } else if a.len() == 0 {
        true
    } else if a[0] == b[0] {
        bytes_precede(a.skip(1), b.skip(1))
    } else {
        a[0] < b[0]
    }
}

pub open spec fn is_parent_name(a: Seq<u8>) -> bool {
    a == seq![paths::DOT, paths::DOT]
}

/// The order of names in a path: `..` before every other name.
pub open spec fn name_precedes(a: Seq<u8>, b: Seq<u8>) -> bool {
    if is_parent_name(a) {
        !is_parent_name(b)
    } else if is_parent_name(b) {
        false
    } else {
        bytes_precede(a, b)
    }
}

/// The order of paths: by the first name in which they differ, a path before
/// what is below it.
pub open spec fn path_precedes(a: Seq<Seq<u8>>, b: Seq<Seq<u8>>) -> bool
    decreases a.len(),
{
    if b.len() == 0 {
        false
    } else if a.len() == 0 {
        true
    } else if a[0] == b[0] {
        path_precedes(a.skip(1), b.skip(1))
    } else {
        name_precedes(a[0], b[0])
    }
}

proof fn lemma_bytes_transitive(a: Seq<u8>, b: Seq<u8>, c: Seq<u8>)
    requires
        bytes_precede(a, b),
        bytes_precede(b, c),
    ensures
        bytes_precede(a, c),
    decreases a.len(),
{
    if a.len() > 0 && a[0] == b[0] && b[0] == c[0] {
        lemma_bytes_transitive(a.skip(1), b.skip(1), c.skip(1));
    }
}

proof fn lemma_bytes_irreflexive(a: Seq<u8>)
    ensures
        !bytes_precede(a, a),
    decreases a.len(),
{
    if a.len() > 0 {
        lemma_bytes_irreflexive(a.skip(1));
    }
}

proof fn lemma_same_tail<T>(a: Seq<T>, b: Seq<T>)
    requires
        a.len() > 0,
        b.len() > 0,
        a[0] == b[0],
        a.skip(1) == b.skip(1),
    ensures
        a == b,
{
    assert(a.len() == a.skip(1).len() + 1);
    assert(b.len() == b.skip(1).len() + 1);
    assert forall|i: int| 0 <= i < a.len() implies a[i] == b[i] by {
        if i > 0 {
            assert(a[i] == a.skip(1)[i - 1]);
            assert(b[i] == b.skip(1)[i - 1]);
        }
    }
    assert(a =~= b);
}

proof fn lemma_bytes_total(a: Seq<u8>, b: Seq<u8>)
    ensures
        a == b || bytes_precede(a, b) || bytes_precede(b, a),
    decreases a.len(),
{
    if a.len() == 0 {
        if b.len() == 0 {
            assert(a =~= b);
        }
    } else if b.len() > 0 && a[0] == b[0] {
        lemma_bytes_total(a.skip(1), b.skip(1));
        if a.skip(1) == b.skip(1) {
            lemma_same_tail(a, b);
        }
    }
}

proof fn lemma_path_transitive(a: Seq<Seq<u8>>, b: Seq<Seq<u8>>, c: Seq<Seq<u8>>)
    requires
        path_precedes(a, b),
        path_precedes(b, c),
    ensures
        path_precedes(a, c),
    decreases a.len(),
{
    if a.len() > 0 {
        if a[0] == b[0] && b[0] == c[0] {
            lemma_path_transitive(a.skip(1), b.skip(1), c.skip(1));
        } else if a[0] != b[0] && b[0] != c[0] {
            if !is_parent_name(a[0]) && !is_parent_name(b[0]) && !is_parent_name(c[0]) {
                lemma_bytes_transitive(a[0], b[0], c[0]);
                lemma_bytes_irreflexive(a[0]);
            }
        }
    }
}

proof fn lemma_path_total(a: Seq<Seq<u8>>, b: Seq<Seq<u8>>)
    ensures
        a == b || path_precedes(a, b) || path_precedes(b, a),
    decreases a.len(),
{
    if a.len() == 0 {
        if b.len() == 0 {
            assert(a =~= b);
        }
    } else if b.len() > 0 {
        if a[0] == b[0] {
            lemma_path_total(a.skip(1), b.skip(1));
            if a.skip(1) == b.skip(1) {
                lemma_same_tail(a, b);
            }
        } else {
            lemma_bytes_total(a[0], b[0]);
        }
    }
}

fn bytes_less(a: &[u8], b: &[u8]) -> (r: bool)
    ensures
        r == bytes_precede(a@, b@),
{
    let mut i: usize = 0;
    assert(a@.skip(0) =~= a@);
    assert(b@.skip(0) =~= b@);
    while i < a.len() && i < b.len()
        invariant
            i <= a@.len(),
            i <= b@.len(),
            bytes_precede(a@, b@) == bytes_precede(a@.skip(i as int), b@.skip(i as int)),
        decreases a@.len() - i,
    {
        assert(a@.skip(i as int)[0] == a@[i as int]);
        assert(b@.skip(i as int)[0] == b@[i as int]);
        if a[i] != b[i] {
            return a[i] < b[i];
        }
        assert(a@.skip(i as int).skip(1) =~= a@.skip(i as int + 1));
        assert(b@.skip(i as int).skip(1) =~= b@.skip(i as int + 1));
        i = i + 1;
    }
    i < b.len()
}

fn names_parent(a: &[u8]) -> (r: bool)
    ensures
        r == is_parent_name(a@),
{
    let r = a.len() == 2 && a[0] == paths::DOT && a[1] == paths::DOT;
    proof {
        if r {
            assert(a@ =~= seq![paths::DOT, paths::DOT]);
        }
    }
    r
}

fn name_less(a: &[u8], b: &[u8]) -> (r: bool)
    ensures
        r == name_precedes(a@, b@),
{
    if names_parent(a) {
        !names_parent(b)
    } else if names_parent(b) {
        false
    } else {
        bytes_less(a, b)
    }
}

fn path_less(x: &paths::Route, y: &paths::Route) -> (r: bool)
    ensures
        r == path_precedes(x@.names, y@.names),
{
    let ghost a = x@.names;
    let ghost b = y@.names;
    let mut i: usize = 0;
    assert(a.skip(0) =~= a);
    assert(b.skip(0) =~= b);
    while i < x.names.len() && i < y.names.len()
        invariant
            a == x@.names,
            b == y@.names,
            i <= x.names@.len(),
            i <= y.names@.len(),
            path_precedes(a, b) == path_precedes(a.skip(i as int), b.skip(i as int)),
        decreases x.names@.len() - i,
    {
        assert(a.skip(i as int)[0] == x.names@[i as int]@);
        assert(b.skip(i as int)[0] == y.names@[i as int]@);
        if !bytes::same_bytes(&x.names[i], &y.names[i]) {
            return name_less(&x.names[i], &y.names[i]);
        }
        assert(a.skip(i as int).skip(1) =~= a.skip(i as int + 1));
        assert(b.skip(i as int).skip(1) =~= b.skip(i as int + 1));
        i = i + 1;
    }
    i < y.names.len()
}

/// A set of absolute directories, kept in the order of their paths.
pub struct DirSet {
    pub dirs: Vec<paths::Route>,
}

/// The names of the paths.
pub open spec fn all_names(dirs: Seq<paths::Route>) -> Seq<Seq<Seq<u8>>> {
    dirs.map_values(|r: paths::Route| r@.names)
}

/// Each path precedes those behind it.
pub open spec fn path_order() -> spec_fn(Seq<Seq<u8>>, Seq<Seq<u8>>) -> bool {
    |a: Seq<Seq<u8>>, b: Seq<Seq<u8>>| path_precedes(a, b)
}

impl View for DirSet {
    type V = Set<Seq<Seq<u8>>>;

    open spec fn view(&self) -> Set<Seq<Seq<u8>>> {
        self.ordered().to_set()
    }
}

impl DirSet {
    /// The names of the directories, in order.
    pub open spec fn ordered(&self) -> Seq<Seq<Seq<u8>>> {
        all_names(self.dirs@)
    }

    pub open spec fn well_formed(&self) -> bool {
        &&& seqs::pairwise(self.ordered(), path_order())
        &&& forall|i: int| 0 <= i < self.dirs@.len() ==> (#[trigger] self.dirs@[i]).absolute
    }

    pub fn new() -> (r: DirSet)
        ensures
            r.well_formed(),
            r@ == Set::<Seq<Seq<u8>>>::empty(),
    {
        let r = DirSet { dirs: Vec::new() };
        assert(r.ordered() =~= Seq::<Seq<Seq<u8>>>::empty());
        assert(r@ =~= Set::<Seq<Seq<u8>>>::empty());
        r
    }

    /// Adds a directory; one that is held already stays held once.
    pub fn insert(&mut self, dir: paths::Route)
        requires
            old(self).well_formed(),
            dir.absolute,
        ensures
            final(self).well_formed(),
            final(self)@ == old(self)@.insert(dir@.names),
    {
        let n = self.dirs.len();
        let ghost was = self.ordered();
        let ghost x = dir@.names;
        let mut i: usize = 0;
        while i < n && path_less(&self.dirs[i], &dir)
            invariant
                n == self.dirs@.len(),
                i <= n,
                was == self.ordered(),
                x == dir@.names,
                *self == *old(self),
                forall|j: int| 0 <= j < i ==> path_precedes(#[trigger] was[j], x),
            decreases n - i,
        {
            assert(was[i as int] == self.dirs@[i as int]@.names);
            i = i + 1;
        }
        if i < n && !path_less(&dir, &self.dirs[i]) {
            proof {
                assert(was[i as int] == self.dirs@[i as int]@.names);
                lemma_path_total(was[i as int], x);
                assert(was[i as int] == x);
                assert(was.to_set() =~= was.to_set().insert(x));
            }
            return;
        }
        proof {
            let order = path_order();
            if i < n {
                assert(was[i as int] == self.dirs@[i as int]@.names);
            }
            assert forall|j: int| i <= j < n implies order(x, #[trigger] was[j]) by {
                if j > i {
                    assert(order(was[i as int], was[j]));
                    lemma_path_transitive(x, was[i as int], was[j]);
                }
            }
            assert forall|j: int| 0 <= j < i implies order(#[trigger] was[j], x) by {}
            seqs::lemma_insert_sorted(was, i as int, x, order);
        }
        let ghost rows = self.dirs@;
        self.dirs.insert(i, dir);
        assert(self.ordered() =~= was.insert(i as int, x));
        assert forall|k: int| 0 <= k < self.dirs@.len() implies (
        #[trigger] self.dirs@[k]).absolute by {
            if k < i {
                assert(self.dirs@[k] == rows[k]);
            } else if k > i {
                assert(self.dirs@[k] == rows[k - 1]);
            }
        }
    }
}

} // verus!
