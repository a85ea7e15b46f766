//! A set of names, kept in the order of the names.
use crate::seqs;
use crate::text;
use vstd::prelude::*;

verus! {

/// Every name precedes the ones behind it.
pub open spec fn ascending(s: Seq<Seq<char>>) -> bool {
    forall|i: int, j: int| 0 <= i < j < s.len() ==> text::precedes(#[trigger] s[i], #[trigger] s[j])
}

pub proof fn lemma_irreflexive(a: Seq<char>)
    ensures
        !text::precedes(a, a),
    decreases a.len(),
{
    if a.len() > 0 {
        lemma_irreflexive(a.skip(1));
    }
}

pub proof fn lemma_transitive(a: Seq<char>, b: Seq<char>, c: Seq<char>)
    requires
        text::precedes(a, b),
        text::precedes(b, c),
    ensures
        text::precedes(a, c),
    decreases a.len(),
{
    if a.len() > 0 && a[0] == b[0] && b[0] == c[0] {
        lemma_transitive(a.skip(1), b.skip(1), c.skip(1));
    }
}

pub proof fn lemma_total(a: Seq<char>, b: Seq<char>)
    ensures
        a == b || text::precedes(a, b) || text::precedes(b, a),
    decreases a.len(),
{
    if a.len() == 0 {
        if b.len() == 0 {
            assert(a =~= b);
        }
    } else if b.len() > 0 && a[0] == b[0] {
        lemma_total(a.skip(1), b.skip(1));
        if a.skip(1) == b.skip(1) {
            assert forall|i: int| 0 <= i < a.len() implies a[i] == b[i] by {
                if i > 0 {
                    assert(a[i] == a.skip(1)[i - 1]);
                    assert(b[i] == b.skip(1)[i - 1]);
                }
            }
            assert(a.len() == a.skip(1).len() + 1);
            assert(b.len() == b.skip(1).len() + 1);
            assert(a =~= b);
        }
    }
}

/// A set of names in ascending order, each held once.
pub struct NameSet {
    pub items: Vec<String>,
}

impl View for NameSet {
    type V = Set<Seq<char>>;

    open spec fn view(&self) -> Set<Seq<char>> {
        text::texts(self.items@).to_set()
    }
}

impl NameSet {
    /// The names in order.
    pub open spec fn ordered(&self) -> Seq<Seq<char>> {
        text::texts(self.items@)
    }

    pub open spec fn well_formed(&self) -> bool {
        ascending(self.ordered())
    }

    pub fn new() -> (r: NameSet)
        ensures
            r.well_formed(),
            r@ == Set::<Seq<char>>::empty(),
            r.ordered() == Seq::<Seq<char>>::empty(),
    {
        let r = NameSet { items: Vec::new() };
        assert(r.ordered() =~= Seq::<Seq<char>>::empty());
        assert(r@ =~= Set::<Seq<char>>::empty());
        r
    }

    /// Adds `name`; a name that is held already stays held once.
    pub fn insert(&mut self, name: &str)
        requires
            old(self).well_formed(),
        ensures
            final(self).well_formed(),
            final(self)@ == old(self)@.insert(name@),
    {
        let n = self.items.len();
        let ghost was = self.ordered();
        let mut i: usize = 0;
        while i < n && text::less(self.items[i].as_str(), name)
            invariant
                n == self.items@.len(),
                i <= n,
                self.ordered() == was,
                *self == *old(self),
                forall|j: int| 0 <= j < i ==> text::precedes(#[trigger] was[j], name@),
            decreases n - i,
        {
            assert(was[i as int] == self.items@[i as int]@);
            i = i + 1;
        }
        if i < n && text::same(self.items[i].as_str(), name) {
            proof {
                assert(was[i as int] == self.items@[i as int]@);
                assert(was[i as int] == name@);
                assert(was.to_set().contains(name@));
                assert(was.to_set() =~= was.to_set().insert(name@));
            }
            return;
        }
        proof {
            if i < n {
                assert(was[i as int] == self.items@[i as int]@);
                lemma_total(was[i as int], name@);
                assert(text::precedes(name@, was[i as int]));
            }
            assert forall|j: int| i <= j < n implies text::precedes(name@, #[trigger] was[j]) by {
                if j > i {
                    lemma_transitive(name@, was[i as int], was[j]);
                }
            }
        }
        self.items.insert(i, name.to_owned());
        proof {
            let now = self.ordered();
            let order = |a: Seq<char>, b: Seq<char>| text::precedes(a, b);
            assert(now =~= was.insert(i as int, name@));
            assert forall|a: int, b: int| 0 <= a < b < was.len() implies order(
                #[trigger] was[a],
                #[trigger] was[b],
            ) by {}
            seqs::lemma_insert_sorted(was, i as int, name@, order);
            assert forall|a: int, b: int| 0 <= a < b < now.len() implies text::precedes(
                #[trigger] now[a],
                #[trigger] now[b],
            ) by {
                assert(order(now[a], now[b]));
            }
        }
    }

    pub fn contains(&self, name: &str) -> (r: bool)
        ensures
            r == self@.contains(name@),
    {
        for i in 0..self.items.len()
            invariant
                forall|j: int| 0 <= j < i ==> #[trigger] self.ordered()[j] != name@,
        {
            assert(self.ordered()[i as int] == self.items@[i as int]@);
            if text::same(self.items[i].as_str(), name) {
                assert(self.ordered().contains(name@));
                return true;
            }
        }
        assert(self.ordered().len() == self.items@.len());
        assert(!self.ordered().contains(name@));
        false
    }

    /// The names held here that `other` does not hold, in order.
    pub fn difference(&self, other: &NameSet) -> (r: Vec<String>)
        ensures
            text::texts(r@) == seqs::select(self.ordered(), |x: Seq<char>| !other@.contains(x)),
    {
        let mut out: Vec<String> = Vec::new();
        let ghost keep = |x: Seq<char>| !other@.contains(x);
        for i in 0..self.items.len()
            invariant
                keep == (|x: Seq<char>| !other@.contains(x)),
                text::texts(out@) == seqs::select(self.ordered().take(i as int), keep),
        {
            let ghost all = self.ordered();
            assert(all.take(i as int + 1).drop_last() =~= all.take(i as int));
            assert(all.take(i as int + 1).last() == self.items@[i as int]@);
            if !other.contains(self.items[i].as_str()) {
                let ghost held = text::texts(out@);
                out.push(self.items[i].clone());
                assert(text::texts(out@) =~= held.push(self.items@[i as int]@));
            }
        }
        assert(self.ordered().take(self.items@.len() as int) =~= self.ordered());
        out
    }
}

} // verus!
