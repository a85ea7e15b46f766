//! File names of machines.
//!
//! A machine is known by its repository and its handle. Its files are named
//! after both, so that machines do not share them: the handle is spelled out,
//! the repository is a tag of fixed length, because the path of a socket
//! cannot be long.
use crate::digest;
use crate::paths;
use crate::proto;
use crate::text;
use vstd::prelude::*;

verus! {

/// Stands before the code of a character that a file name cannot hold as it is.
pub const PERCENT: char = '%';

/// The same for names in which no percent sign may stand.
pub const UNDERSCORE: char = '_';

/// Digits in the tag of a repository.
pub const TAG_DIGITS: usize = 12;

/// What a character becomes in a file name: a slash, a percent sign and the
/// mark itself become codes that start with the mark, and so does a dot where
/// the mark is the percent sign.
pub open spec fn code(c: char, mark: char) -> Seq<char> {
    if c == '/' {
        seq![mark, '2', 'F']
    } else if c == '%' {
        seq![mark, '2', '5']
    } else if c == '.' && mark == '%' {
        seq![mark, '2', 'E']
    } else if c == '_' && mark == '_' {
        seq![mark, mark]
    } else {
        seq![c]
    }
}

/// What a text becomes in a file name.
pub open spec fn spelled(s: Seq<char>, mark: char) -> Seq<char>
    decreases s.len(),
{
    if s.len() == 0 {
        Seq::<char>::empty()
    } else {
        spelled(s.drop_last(), mark) + code(s.last(), mark)
    }
}

/// The tag of a repository: the first digits of the digest of its path.
pub open spec fn tag(root: Seq<char>) -> Seq<char> {
    let hex = digest::hex_digest(proto::wire(root));
    Seq::new(
        TAG_DIGITS as nat,
        |i: int|
            if i < hex.len() {
                hex[i]
            } else {
                '0'
            },
    )
}

/// Where a machine belongs, as part of a file name: the tag of its
/// repository, behind a code that no handle spells; nothing outside of any
/// repository.
pub open spec fn place(root: Seq<char>, mark: char) -> Seq<char> {
    if root.len() == 0 {
        Seq::<char>::empty()
    } else {
        seq![mark, 'S'] + tag(root)
    }
}

/// The name of a machine as part of a file name.
pub open spec fn machine_name(root: Seq<char>, handle: Seq<char>, mark: char) -> Seq<char> {
    place(root, mark) + spelled(handle, mark)
}

/// Both outside of any repository, or in repositories with the same tag: one
/// and the same, unless the digests of two paths start alike.
pub open spec fn same_place(root: Seq<char>, other: Seq<char>) -> bool {
    if root.len() == 0 || other.len() == 0 {
        root == other
    } else {
        tag(root) == tag(other)
    }
}

fn push_code(out: &mut String, c: char, mark: char)
    ensures
        final(out)@ == old(out)@ + code(c, mark),
{
    if c == '/' {
        out.push(mark);
        out.push('2');
        out.push('F');
    } else if c == '%' {
        out.push(mark);
        out.push('2');
        out.push('5');
    } else if c == '.' && mark == '%' {
        out.push(mark);
        out.push('2');
        out.push('E');
    } else if c == '_' && mark == '_' {
        out.push(mark);
        out.push(mark);
    } else {
        out.push(c);
    }
    assert(out@ =~= old(out)@ + code(c, mark));
}

fn push_tag(out: &mut String, project_root: &str)
    ensures
        final(out)@ == old(out)@ + tag(project_root@),
{
    let hex = digest::content_digest(project_root.as_bytes());
    let digits = text::chars_of(hex.as_str());
    let ghost all = tag(project_root@);
    assert(out@ + all.take(0) =~= old(out)@);
    for i in 0..TAG_DIGITS
        invariant
            digits@ == digest::hex_digest(proto::wire(project_root@)),
            digits@.len() == 64,
            all == tag(project_root@),
            out@ == old(out)@ + all.take(i as int),
    {
        out.push(digits[i]);
        assert(out@ =~= old(out)@ + all.take(i as int + 1));
    }
    assert(all.take(TAG_DIGITS as int) =~= all);
}

/// The name of a machine as part of a file name.
pub fn name_machine(project_root: &str, handle: &str, mark: char) -> (r: String)
    ensures
        r@ == machine_name(project_root@, handle@, mark),
{
    let mut out = String::new();
    if !project_root.is_empty() {
        out.push(mark);
        out.push('S');
        push_tag(&mut out, project_root);
    }
    let ghost before = place(project_root@, mark);
    assert(out@ =~= before);
    let cs = text::chars_of(handle);
    assert(before + spelled(cs@.take(0), mark) =~= before);
    for i in 0..cs.len()
        invariant
            out@ == before + spelled(cs@.take(i as int), mark),
    {
        assert(cs@.take(i as int + 1).drop_last() =~= cs@.take(i as int));
        push_code(&mut out, cs[i], mark);
        assert(out@ =~= before + spelled(cs@.take(i as int + 1), mark));
    }
    assert(cs@.take(cs@.len() as int) =~= cs@);
    out
}

/// What a text is spelled as, from its first character on.
proof fn lemma_spelled_first(s: Seq<char>, mark: char)
    requires
        s.len() > 0,
    ensures
        spelled(s, mark) == code(s[0], mark) + spelled(s.skip(1), mark),
    decreases s.len(),
{
    if s.len() == 1 {
        assert(s.drop_last() =~= Seq::<char>::empty());
        assert(s.skip(1) =~= Seq::<char>::empty());
        assert(spelled(s.drop_last(), mark) =~= Seq::<char>::empty());
        assert(spelled(s, mark) =~= code(s[0], mark) + spelled(s.skip(1), mark));
    } else {
        let t = s.drop_last();
        lemma_spelled_first(t, mark);
        assert(s.skip(1).drop_last() =~= t.skip(1));
        assert(s.skip(1).last() == s.last());
        assert(spelled(s, mark) =~= code(s[0], mark) + spelled(s.skip(1), mark));
    }
}

proof fn lemma_spelled_length(s: Seq<char>, mark: char)
    ensures
        s.len() <= spelled(s, mark).len() <= 3 * s.len(),
    decreases s.len(),
{
    if s.len() > 0 {
        lemma_spelled_length(s.drop_last(), mark);
    }
}

/// What starts with the code of a character starts with no other code.
proof fn lemma_code_tells_apart(
    c: char,
    after: Seq<char>,
    d: char,
    other: Seq<char>,
    mark: char,
)
    requires
        mark == PERCENT || mark == UNDERSCORE,
        code(c, mark) + after == code(d, mark) + other,
    ensures
        c == d,
        after == other,
{
    let x = code(c, mark);
    let y = code(d, mark);
    let s = x + after;
    assert(s[0] == x[0] && s[0] == y[0]);
    if x.len() > 1 && y.len() > 1 {
        assert(s[1] == x[1] && s[1] == y[1]);
        if x.len() == 3 && y.len() == 3 {
            assert(s[2] == x[2] && s[2] == y[2]);
        }
    }
    assert(c == d);
    assert(after =~= s.skip(x.len() as int));
    assert(other =~= s.skip(y.len() as int));
}

/// A text and what it is spelled as determine each other.
proof fn lemma_spelled_tells_apart(a: Seq<char>, b: Seq<char>, mark: char)
    requires
        mark == PERCENT || mark == UNDERSCORE,
        spelled(a, mark) == spelled(b, mark),
    ensures
        a == b,
    decreases a.len(),
{
    if a.len() == 0 || b.len() == 0 {
        lemma_spelled_length(a, mark);
        lemma_spelled_length(b, mark);
        assert(a =~= b);
    } else {
        lemma_spelled_first(a, mark);
        lemma_spelled_first(b, mark);
        lemma_code_tells_apart(
            a[0],
            spelled(a.skip(1), mark),
            b[0],
            spelled(b.skip(1), mark),
            mark,
        );
        lemma_spelled_tells_apart(a.skip(1), b.skip(1), mark);
        assert(a =~= seq![a[0]] + a.skip(1));
        assert(b =~= seq![b[0]] + b.skip(1));
    }
}

/// No handle is spelled like the place of a machine in a repository.
proof fn lemma_no_place_is_spelled(root: Seq<char>, handle: Seq<char>, other: Seq<char>, mark: char)
    requires
        mark == PERCENT || mark == UNDERSCORE,
        root.len() > 0,
    ensures
        spelled(other, mark) != machine_name(root, handle, mark),
{
    let s = machine_name(root, handle, mark);
    assert(s[0] == mark);
    assert(s[1] == 'S');
    if other.len() > 0 {
        lemma_spelled_first(other, mark);
        let x = code(other[0], mark);
        let t = spelled(other, mark);
        assert(t[0] == x[0]);
        if x.len() > 1 {
            assert(t[1] == x[1]);
        }
    }
}

/// The name tells the handle, and the place: within one repository different
/// handles have different names, and machines of different repositories have
/// different names unless the digests of the two paths start alike.
pub proof fn names_tell_apart(
    root: Seq<char>,
    handle: Seq<char>,
    other_root: Seq<char>,
    other: Seq<char>,
    mark: char,
)
    requires
        mark == PERCENT || mark == UNDERSCORE,
        machine_name(root, handle, mark) == machine_name(other_root, other, mark),
    ensures
        handle == other,
        same_place(root, other_root),
{
    let s = machine_name(root, handle, mark);
    let x = spelled(handle, mark);
    let y = spelled(other, mark);
    if root.len() == 0 && other_root.len() == 0 {
        assert(x =~= s && y =~= s);
        assert(root =~= other_root);
    } else if root.len() == 0 {
        assert(x =~= s);
        lemma_no_place_is_spelled(other_root, other, handle, mark);
    } else if other_root.len() == 0 {
        assert(y =~= s);
        lemma_no_place_is_spelled(root, handle, other, mark);
    } else {
        let n = TAG_DIGITS + 2;
        assert(tag(root) =~= s.subrange(2, n as int));
        assert(tag(other_root) =~= s.subrange(2, n as int));
        assert(x =~= s.skip(n as int));
        assert(y =~= s.skip(n as int));
    }
    lemma_spelled_tells_apart(handle, other, mark);
}

/// The repository lengthens a name by a fixed amount, however long its path
/// is; the handle is spelled with three characters for one at most.
pub proof fn names_are_short(root: Seq<char>, handle: Seq<char>, mark: char)
    ensures
        machine_name(root, handle, mark).len() == spelled(handle, mark).len() + if root.len() == 0 {
            0
        } else {
            TAG_DIGITS + 2
        },
        handle.len() <= spelled(handle, mark).len() <= 3 * handle.len(),
{
    lemma_spelled_length(handle, mark);
}

/// A machine's name holds no slash. With the percent sign as the mark it
/// holds no dot, with the underscore no percent sign.
pub proof fn names_are_plain(root: Seq<char>, handle: Seq<char>, mark: char)
    requires
        mark == PERCENT || mark == UNDERSCORE,
    ensures
        !machine_name(root, handle, mark).contains('/'),
        mark == PERCENT ==> !machine_name(root, handle, mark).contains('.'),
        mark == UNDERSCORE ==> !machine_name(root, handle, mark).contains('%'),
{
    let s = machine_name(root, handle, mark);
    let before = place(root, mark);
    let digits = tag(root);
    let more = spelled(handle, mark);
    text::hex_is_digits(digest::blake3_of(proto::wire(root)));
    lemma_spelled_plain(handle, mark);
    assert forall|i: int| 0 <= i < s.len() implies s[i] != '/' && (mark == PERCENT ==> s[i] != '.')
        && (mark == UNDERSCORE ==> s[i] != '%') by {
        if i < before.len() {
            assert(s[i] == before[i]);
            if i >= 2 {
                assert(before[i] == digits[i - 2]);
                assert(text::is_hex_digit(digits[i - 2]));
            }
        } else {
            assert(s[i] == more[i - before.len()]);
            assert(more.contains(more[i - before.len()]));
        }
    }
}

proof fn lemma_spelled_plain(s: Seq<char>, mark: char)
    requires
        mark == PERCENT || mark == UNDERSCORE,
    ensures
        !spelled(s, mark).contains('/'),
        mark == PERCENT ==> !spelled(s, mark).contains('.'),
        mark == UNDERSCORE ==> !spelled(s, mark).contains('%'),
    decreases s.len(),
{
    let r = spelled(s, mark);
    if s.len() > 0 {
        let before = spelled(s.drop_last(), mark);
        let last = code(s.last(), mark);
        lemma_spelled_plain(s.drop_last(), mark);
        assert forall|i: int| 0 <= i < r.len() implies r[i] != '/' && (mark == PERCENT ==> r[i]
            != '.') && (mark == UNDERSCORE ==> r[i] != '%') by {
            if i < before.len() {
                assert(r[i] == before[i]);
                assert(before.contains(before[i]));
            } else {
                assert(r[i] == last[i - before.len()]);
            }
        }
    }
}

/// In one directory the path of a file tells its name, where names hold no
/// slash.
pub proof fn names_in_one_directory(dir: Seq<char>, name: Seq<char>, other: Seq<char>)
    requires
        paths::joined(dir, name) == paths::joined(dir, other),
        !name.contains('/') && !other.contains('/'),
    ensures
        name == other,
{
    if name.len() > 0 {
        assert(name.contains(name[0]));
    }
    if other.len() > 0 {
        assert(other.contains(other[0]));
    }
    let n = if dir.len() == 0 || dir.last() == '/' {
        dir.len() as int
    } else {
        (dir + "/"@).len() as int
    };
    assert(paths::joined(dir, name).skip(n) =~= name);
    assert(paths::joined(dir, other).skip(n) =~= other);
}

/// Two files in one directory, each named by a text without slash and dot
/// and an ending that starts with a dot, are the same only where both parts
/// are.
pub proof fn files_tell_apart(
    dir: Seq<char>,
    name: Seq<char>,
    ending: Seq<char>,
    other: Seq<char>,
    other_ending: Seq<char>,
)
    requires
        paths::joined(dir, name + ending) == paths::joined(dir, other + other_ending),
        !name.contains('/') && !name.contains('.'),
        !other.contains('/') && !other.contains('.'),
        ending.len() > 0 && ending[0] == '.',
        other_ending.len() > 0 && other_ending[0] == '.',
    ensures
        name == other,
        ending == other_ending,
{
    let x = name + ending;
    let y = other + other_ending;
    if name.len() > 0 {
        assert(name.contains(x[0]));
    }
    if other.len() > 0 {
        assert(other.contains(y[0]));
    }
    let n = if dir.len() == 0 || dir.last() == '/' {
        dir.len() as int
    } else {
        (dir + "/"@).len() as int
    };
    assert(paths::joined(dir, x).skip(n) =~= x);
    assert(paths::joined(dir, y).skip(n) =~= y);
    assert(x[name.len() as int] == '.');
    assert(y[other.len() as int] == '.');
    if name.len() < other.len() {
        assert(other.contains(y[name.len() as int]));
    } else if other.len() < name.len() {
        assert(name.contains(x[other.len() as int]));
    }
    assert(name =~= x.take(name.len() as int));
    assert(other =~= y.take(name.len() as int));
    assert(ending =~= x.skip(name.len() as int));
    assert(other_ending =~= y.skip(name.len() as int));
}

} // verus!
