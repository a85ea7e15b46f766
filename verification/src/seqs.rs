//! Searching and splitting sequences.
use vstd::prelude::*;

verus! {

/// Position of the first `x` in `s`; the length of `s` when there is none.
pub open spec fn index_of<T>(s: Seq<T>, x: T) -> int
    decreases s.len(),
{
    if s.len() == 0 {
        0
    } else if s[0] == x {
        0
    } else {
        1 + index_of(s.skip(1), x)
    }
}

/// Position of the last `x` in `s`; `-1` when there is none.
pub open spec fn last_index_of<T>(s: Seq<T>, x: T) -> int
    decreases s.len(),
{
    if s.len() == 0 {
        -1
    } else if s.last() == x {
        s.len() - 1
    } else {
        last_index_of(s.drop_last(), x)
    }
}

/// The pieces of `s` between the separators: one more than there are separators.
pub open spec fn split<T>(s: Seq<T>, sep: T) -> Seq<Seq<T>>
    decreases s.len(),
{
    if s.len() == 0 {
        seq![Seq::<T>::empty()]
    } else {
        let before = split(s.drop_last(), sep);
        if s.last() == sep {
            before.push(Seq::<T>::empty())
        } else {
            before.update(before.len() - 1, before.last().push(s.last()))
        }
    }
}

/// The pieces, with `sep` between each two of them.
pub open spec fn join<T>(parts: Seq<Seq<T>>, sep: Seq<T>) -> Seq<T>
    decreases parts.len(),
{
    if parts.len() == 0 {
        Seq::<T>::empty()
    } else if parts.len() == 1 {
        parts[0]
    } else {
        join(parts.drop_last(), sep) + sep + parts.last()
    }
}

/// The elements of `s` that satisfy `keep`, in order.
pub open spec fn select<T>(s: Seq<T>, keep: spec_fn(T) -> bool) -> Seq<T>
    decreases s.len(),
{
    if s.len() == 0 {
        Seq::<T>::empty()
    } else {
        let before = select(s.drop_last(), keep);
        if keep(s.last()) {
            before.push(s.last())
        } else {
            before
        }
    }
}

pub proof fn lemma_index_of<T>(s: Seq<T>, x: T, i: int)
    requires
        0 <= i <= s.len(),
        forall|j: int| 0 <= j < i ==> s[j] != x,
        i == s.len() || s[i] == x,
    ensures
        index_of(s, x) == i,
    decreases s.len(),
{
    if s.len() > 0 && i > 0 {
        assert(s[0] != x);
        let t = s.skip(1);
        assert forall|j: int| 0 <= j < i - 1 implies t[j] != x by {
            assert(t[j] == s[j + 1]);
        }
        lemma_index_of(t, x, i - 1);
    }
}

pub proof fn lemma_index_of_bounds<T>(s: Seq<T>, x: T)
    ensures
        0 <= index_of(s, x) <= s.len(),
        index_of(s, x) < s.len() ==> s[index_of(s, x)] == x,
        forall|j: int| 0 <= j < index_of(s, x) ==> s[j] != x,
        s.contains(x) <==> index_of(s, x) < s.len(),
    decreases s.len(),
{
    if s.len() > 0 && s[0] != x {
        let t = s.skip(1);
        lemma_index_of_bounds(t, x);
        assert forall|j: int| 0 <= j < index_of(s, x) implies s[j] != x by {
            if j > 0 {
                assert(t[j - 1] == s[j]);
            }
        }
        if s.contains(x) {
            let k = choose|k: int| 0 <= k < s.len() && s[k] == x;
            assert(t[k - 1] == x);
            assert(t.contains(x));
        }
        if index_of(s, x) < s.len() {
            assert(t[index_of(t, x)] == s[index_of(s, x)]);
        }
    } else if s.len() > 0 {
        assert(s[0] == x);
    }
}

pub proof fn lemma_last_index_of<T>(s: Seq<T>, x: T, i: int)
    requires
        -1 <= i < s.len(),
        forall|j: int| i < j < s.len() ==> s[j] != x,
        i == -1 || s[i] == x,
    ensures
        last_index_of(s, x) == i,
    decreases s.len(),
{
    if s.len() > 0 && i < s.len() - 1 {
        assert(s[s.len() - 1] != x);
        lemma_last_index_of(s.drop_last(), x, i);
    }
}

pub proof fn lemma_split_nonempty<T>(s: Seq<T>, sep: T)
    ensures
        split(s, sep).len() >= 1,
    decreases s.len(),
{
    if s.len() > 0 {
        lemma_split_nonempty(s.drop_last(), sep);
    }
}

/// Joining the pieces of `s` with the separator gives `s` back.
pub proof fn join_of_split<T>(s: Seq<T>, sep: T)
    ensures
        join(split(s, sep), seq![sep]) == s,
    decreases s.len(),
{
    if s.len() == 0 {
        assert(join(split(s, sep), seq![sep]) =~= s);
    } else {
        let t = s.drop_last();
        join_of_split(t, sep);
        lemma_split_nonempty(t, sep);
        let before = split(t, sep);
        if s.last() == sep {
            assert(split(s, sep).drop_last() =~= before);
            assert(join(split(s, sep), seq![sep]) =~= t.push(sep));
        } else {
            let now = split(s, sep);
            assert(now.drop_last() =~= before.drop_last());
            assert(join(now, seq![sep]) =~= join(before, seq![sep]).push(s.last()));
        }
        assert(t.push(s.last()) =~= s);
    }
}

pub proof fn lemma_split_step<T>(s: Seq<T>, sep: T, i: int)
    requires
        0 <= i < s.len(),
    ensures
        s.take(i + 1).drop_last() == s.take(i),
        s.take(i + 1).last() == s[i],
{
    assert(s.take(i + 1).drop_last() =~= s.take(i));
}

/// No piece of a split holds the separator.
pub proof fn lemma_split_pieces<T>(s: Seq<T>, sep: T)
    ensures
        forall|i: int| 0 <= i < split(s, sep).len() ==> !(#[trigger] split(s, sep)[i]).contains(sep),
    decreases s.len(),
{
    if s.len() == 0 {
        assert(!Seq::<T>::empty().contains(sep));
    } else {
        let before = split(s.drop_last(), sep);
        lemma_split_pieces(s.drop_last(), sep);
        lemma_split_nonempty(s.drop_last(), sep);
        let now = split(s, sep);
        assert forall|i: int| 0 <= i < now.len() implies !(#[trigger] now[i]).contains(sep) by {
            if s.last() == sep {
                if i < before.len() {
                    assert(now[i] == before[i]);
                } else {
                    assert(!Seq::<T>::empty().contains(sep));
                }
            } else {
                if i < before.len() - 1 {
                    assert(now[i] == before[i]);
                } else {
                    let p = before.last();
                    assert(now[i] == p.push(s.last()));
                    assert(!before[before.len() - 1].contains(sep));
                    if now[i].contains(sep) {
                        let k = choose|k: int| 0 <= k < now[i].len() && now[i][k] == sep;
                        if k < p.len() {
                            assert(p[k] == sep);
                        }
                    }
                }
            }
        }
    }
}

/// What follows the last separator is part of the last piece.
pub proof fn lemma_split_append<T>(s: Seq<T>, sep: T, tail: Seq<T>)
    requires
        !tail.contains(sep),
    ensures
        split(s + tail, sep) == split(s, sep).update(
            split(s, sep).len() - 1,
            split(s, sep).last() + tail,
        ),
    decreases tail.len(),
{
    lemma_split_nonempty(s, sep);
    if tail.len() == 0 {
        assert(s + tail =~= s);
        assert(split(s, sep).last() + tail =~= split(s, sep).last());
        assert(split(s, sep) =~= split(s, sep).update(
            split(s, sep).len() - 1,
            split(s, sep).last() + tail,
        ));
    } else {
        let t = tail.drop_last();
        assert forall|i: int| 0 <= i < t.len() implies t[i] != sep by {
            assert(tail.contains(tail[i]));
        }
        assert(!t.contains(sep));
        lemma_split_append(s, sep, t);
        assert((s + tail).drop_last() =~= s + t);
        assert(tail.contains(tail.last()));
        let before = split(s, sep);
        assert((before.last() + t).push(tail.last()) =~= before.last() + tail);
        assert(split(s + tail, sep) =~= before.update(before.len() - 1, before.last() + tail));
    }
}

/// Splitting joined parts gives the parts back, where there are any and none
/// of them holds the separator.
pub proof fn split_of_join<T>(parts: Seq<Seq<T>>, sep: T)
    requires
        parts.len() > 0,
        forall|i: int| 0 <= i < parts.len() ==> !(#[trigger] parts[i]).contains(sep),
    ensures
        split(join(parts, seq![sep]), sep) == parts,
    decreases parts.len(),
{
    let none = Seq::<T>::empty();
    if parts.len() == 1 {
        assert(!parts[0].contains(sep));
        lemma_split_append(none, sep, parts[0]);
        assert(none + parts[0] =~= parts[0]);
        assert(split(parts[0], sep) =~= parts);
    } else {
        let before = parts.drop_last();
        assert forall|i: int| 0 <= i < before.len() implies !(#[trigger] before[i]).contains(
            sep,
        ) by {
            assert(before[i] == parts[i]);
        }
        split_of_join(before, sep);
        assert(!parts[parts.len() - 1].contains(sep));
        let head = join(before, seq![sep]) + seq![sep];
        assert(head.drop_last() =~= join(before, seq![sep]));
        assert(split(head, sep) == before.push(none));
        lemma_split_append(head, sep, parts.last());
        assert(none + parts.last() =~= parts.last());
        assert(before.push(none).update(before.len() as int, parts.last()) =~= parts);
    }
}

/// `x` put behind every element whose key is no greater, in a sequence sorted by key.
pub open spec fn put_by<T>(s: Seq<T>, x: T, key: spec_fn(T) -> int) -> Seq<T>
    decreases s.len(),
{
    if s.len() == 0 || key(s.last()) <= key(x) {
        s.push(x)
    } else {
        put_by(s.drop_last(), x, key).push(s.last())
    }
}

/// The elements of `s` sorted by key; those with one key in the order of `s`.
pub open spec fn sorted_by<T>(s: Seq<T>, key: spec_fn(T) -> int) -> Seq<T>
    decreases s.len(),
{
    if s.len() == 0 {
        s
    } else {
        put_by(sorted_by(s.drop_last(), key), s.last(), key)
    }
}

/// No element has a greater key than one behind it.
pub open spec fn ascends<T>(s: Seq<T>, key: spec_fn(T) -> int) -> bool {
    forall|i: int, j: int| 0 <= i <= j < s.len() ==> key(#[trigger] s[i]) <= key(#[trigger] s[j])
}

/// Sorting gives exactly the elements, in ascending order.
pub proof fn sorted_is_ascending<T>(s: Seq<T>, key: spec_fn(T) -> int)
    ensures
        sorted_by(s, key).to_multiset() == s.to_multiset(),
        sorted_by(s, key).len() == s.len(),
        ascends(sorted_by(s, key), key),
    decreases s.len(),
{
    broadcast use vstd::seq_lib::group_to_multiset_ensures;

    if s.len() > 0 {
        let t = s.drop_last();
        sorted_is_ascending(t, key);
        lemma_put_ascends(sorted_by(t, key), s.last(), key);
        assert(t.push(s.last()) =~= s);
    }
}

proof fn lemma_put_ascends<T>(s: Seq<T>, x: T, key: spec_fn(T) -> int)
    requires
        ascends(s, key),
    ensures
        put_by(s, x, key).to_multiset() == s.push(x).to_multiset(),
        put_by(s, x, key).len() == s.len() + 1,
        ascends(put_by(s, x, key), key),
        forall|i: int|
            0 <= i < put_by(s, x, key).len() ==> key(#[trigger] put_by(s, x, key)[i]) <= key(x)
                || exists|k: int| 0 <= k < s.len() && s[k] == put_by(s, x, key)[i],
    decreases s.len(),
{
    broadcast use vstd::seq_lib::group_to_multiset_ensures;

    if s.len() == 0 || key(s.last()) <= key(x) {
        let now = s.push(x);
        assert forall|i: int, j: int| 0 <= i <= j < now.len() implies key(#[trigger] now[i]) <= key(
            #[trigger] now[j],
        ) by {
            if j == s.len() && i < j {
                assert(key(s[i]) <= key(s[s.len() - 1]));
            }
        }
    } else {
        let t = s.drop_last();
        lemma_put_ascends(t, x, key);
        let u = put_by(t, x, key);
        let now = u.push(s.last());
        assert forall|i: int, j: int| 0 <= i <= j < now.len() implies key(#[trigger] now[i]) <= key(
            #[trigger] now[j],
        ) by {
            if j == u.len() && i < j {
                if key(u[i]) > key(x) {
                    let k = choose|k: int| 0 <= k < t.len() && t[k] == u[i];
                    assert(s[k] == u[i]);
                    assert(key(s[k]) <= key(s[s.len() - 1]));
                }
            } else if j < u.len() {
                assert(key(u[i]) <= key(u[j]));
            }
        }
        assert forall|i: int| 0 <= i < now.len() implies key(#[trigger] now[i]) <= key(x)
            || exists|k: int| 0 <= k < s.len() && s[k] == now[i] by {
            if i < u.len() {
                if key(u[i]) > key(x) {
                    let k = choose|k: int| 0 <= k < t.len() && t[k] == u[i];
                    assert(s[k] == now[i]);
                }
            } else {
                assert(s[s.len() - 1] == now[i]);
            }
        }
        assert(t.push(s.last()) =~= s);
        assert(now.to_multiset() =~= s.push(x).to_multiset()) by {
            assert(now.to_multiset() =~= u.to_multiset().insert(s.last()));
            assert(u.to_multiset() =~= t.to_multiset().insert(x));
            assert(s.to_multiset() =~= t.to_multiset().insert(s.last()));
            assert(s.push(x).to_multiset() =~= s.to_multiset().insert(x));
        }
    }
}

/// Selecting where everything satisfies `keep` changes nothing.
pub proof fn lemma_select_all<T>(s: Seq<T>, keep: spec_fn(T) -> bool)
    requires
        forall|i: int| 0 <= i < s.len() ==> keep(#[trigger] s[i]),
    ensures
        select(s, keep) == s,
    decreases s.len(),
{
    if s.len() > 0 {
        let t = s.drop_last();
        assert forall|i: int| 0 <= i < t.len() implies keep(#[trigger] t[i]) by {
            assert(s[i] == t[i]);
        }
        lemma_select_all(t, keep);
        assert(s[s.len() - 1] == s.last());
        assert(t.push(s.last()) =~= s);
    }
}

/// Selecting where nothing satisfies `keep` leaves nothing.
pub proof fn lemma_select_none<T>(s: Seq<T>, keep: spec_fn(T) -> bool)
    requires
        forall|i: int| 0 <= i < s.len() ==> !keep(#[trigger] s[i]),
    ensures
        select(s, keep) == Seq::<T>::empty(),
    decreases s.len(),
{
    if s.len() > 0 {
        let t = s.drop_last();
        assert forall|i: int| 0 <= i < t.len() implies !keep(#[trigger] t[i]) by {
            assert(s[i] == t[i]);
        }
        lemma_select_none(t, keep);
        assert(s[s.len() - 1] == s.last());
    }
}

/// Selecting keeps exactly the elements that satisfy `keep`.
pub proof fn lemma_selected<T>(s: Seq<T>, keep: spec_fn(T) -> bool)
    ensures
        forall|i: int| 0 <= i < select(s, keep).len() ==> keep(#[trigger] select(s, keep)[i]),
        forall|x: T|
            #![trigger select(s, keep).contains(x)]
            select(s, keep).contains(x) <==> s.contains(x) && keep(x),
    decreases s.len(),
{
    if s.len() > 0 {
        let t = s.drop_last();
        lemma_selected(t, keep);
        let now = select(s, keep);
        let was = select(t, keep);
        assert forall|x: T| #![trigger now.contains(x)] now.contains(x) <==> s.contains(x) && keep(
            x,
        ) by {
            if now.contains(x) {
                let k = choose|k: int| 0 <= k < now.len() && now[k] == x;
                if k < was.len() {
                    assert(was[k] == x);
                    assert(was.contains(x));
                    let j = choose|j: int| 0 <= j < t.len() && t[j] == x;
                    assert(s[j] == x);
                } else {
                    assert(s[s.len() - 1] == x);
                }
            }
            if s.contains(x) && keep(x) {
                let k = choose|k: int| 0 <= k < s.len() && s[k] == x;
                if k < t.len() {
                    assert(t[k] == x);
                    assert(t.contains(x));
                    assert(was.contains(x));
                    let j = choose|j: int| 0 <= j < was.len() && was[j] == x;
                    assert(now[j] == x);
                } else {
                    assert(now[now.len() - 1] == x);
                }
            }
        }
        assert forall|i: int| 0 <= i < now.len() implies keep(#[trigger] now[i]) by {
            if i < was.len() {
                assert(now[i] == was[i]);
            }
        }
    }
}

/// A relation between every two elements, the earlier one first.
pub open spec fn pairwise<T>(s: Seq<T>, rel: spec_fn(T, T) -> bool) -> bool {
    forall|i: int, j: int| 0 <= i < j < s.len() ==> rel(#[trigger] s[i], #[trigger] s[j])
}

/// Selecting keeps a relation between every two elements.
pub proof fn lemma_select_pairwise<T>(s: Seq<T>, keep: spec_fn(T) -> bool, rel: spec_fn(T, T) -> bool)
    requires
        pairwise(s, rel),
    ensures
        pairwise(select(s, keep), rel),
    decreases s.len(),
{
    if s.len() > 0 {
        let t = s.drop_last();
        assert forall|i: int, j: int| 0 <= i < j < t.len() implies rel(
            #[trigger] t[i],
            #[trigger] t[j],
        ) by {
            assert(rel(s[i], s[j]));
        }
        lemma_select_pairwise(t, keep, rel);
        lemma_selected(t, keep);
        let was = select(t, keep);
        let now = select(s, keep);
        assert forall|i: int, j: int| 0 <= i < j < now.len() implies rel(
            #[trigger] now[i],
            #[trigger] now[j],
        ) by {
            if j < was.len() {
                assert(rel(was[i], was[j]));
            } else {
                assert(was.contains(was[i]));
                let k = choose|k: int| 0 <= k < t.len() && t[k] == was[i];
                assert(rel(s[k], s[s.len() - 1]));
            }
        }
    }
}

/// An element put between those before it and those behind it keeps the order.
pub proof fn lemma_insert_sorted<T>(s: Seq<T>, i: int, x: T, rel: spec_fn(T, T) -> bool)
    requires
        0 <= i <= s.len(),
        pairwise(s, rel),
        forall|j: int| 0 <= j < i ==> rel(#[trigger] s[j], x),
        forall|j: int| i <= j < s.len() ==> rel(x, #[trigger] s[j]),
    ensures
        pairwise(s.insert(i, x), rel),
        s.insert(i, x).to_set() == s.to_set().insert(x),
{
    let now = s.insert(i, x);
    assert forall|a: int, b: int| 0 <= a < b < now.len() implies rel(
        #[trigger] now[a],
        #[trigger] now[b],
    ) by {
        let pa = if a < i {
            a
        } else {
            a - 1
        };
        let pb = if b < i {
            b
        } else {
            b - 1
        };
        if a == i {
            assert(now[b] == s[pb]);
        } else if b == i {
            assert(now[a] == s[pa]);
        } else {
            assert(now[a] == s[pa]);
            assert(now[b] == s[pb]);
        }
    }
    assert forall|y: T| now.to_set().contains(y) == s.to_set().insert(x).contains(y) by {
        if now.contains(y) {
            let k = choose|k: int| 0 <= k < now.len() && now[k] == y;
            if k < i {
                assert(s[k] == y);
            } else if k > i {
                assert(s[k - 1] == y);
            }
        }
        if s.contains(y) {
            let k = choose|k: int| 0 <= k < s.len() && s[k] == y;
            if k < i {
                assert(now[k] == y);
            } else {
                assert(now[k + 1] == y);
            }
        }
        assert(now[i] == x);
    }
    assert(now.to_set() =~= s.to_set().insert(x));
}

} // verus!
