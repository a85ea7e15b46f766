//! Text: the operations on strings that the rest of the library is built from.
use crate::seqs;
use vstd::prelude::*;

verus! {

/// `String::push`: appends one character.
pub assume_specification[ String::push ](s: &mut String, c: char)
    ensures
        final(s)@ == old(s)@.push(c),
;

/// The contents of a list of strings.
pub open spec fn texts(v: Seq<String>) -> Seq<Seq<char>> {
    v.map_values(|s: String| s@)
}

/// The contents of an optional string.
pub open spec fn opt_text(o: Option<String>) -> Option<Seq<char>> {
    match o {
        Some(s) => Some(s@),
        None => None,
    }
}

/// The contents of an optional string slice.
pub open spec fn opt_str(o: Option<&str>) -> Option<Seq<char>> {
    match o {
        Some(s) => Some(s@),
        None => None,
    }
}

pub fn same(a: &str, b: &str) -> (r: bool)
    ensures
        r == (a@ == b@),
{
    a.to_owned() == b.to_owned()
}

pub fn chars_of(s: &str) -> (r: Vec<char>)
    ensures
        r@ == s@,
{
    let mut v: Vec<char> = Vec::new();
    for c in it: s.chars()
        invariant
            it.seq() == s@,
            v@ == s@.take(it.index() as int),
    {
        v.push(c);
    }
    v
}

pub fn text_of(cs: &[char], from: usize, to: usize) -> (r: String)
    requires
        from <= to <= cs@.len(),
    ensures
        r@ == cs@.subrange(from as int, to as int),
{
    let mut s = String::new();
    let mut i: usize = from;
    while i < to
        invariant
            from <= i <= to <= cs@.len(),
            s@ == cs@.subrange(from as int, i as int),
        decreases to - i,
    {
        s.push(cs[i]);
        i = i + 1;
        assert(s@ =~= cs@.subrange(from as int, i as int));
    }
    s
}

/// Three texts, one after the other.
pub fn concat3(a: &str, b: &str, c: &str) -> (r: String)
    ensures
        r@ == a@ + b@ + c@,
{
    let mut s = a.to_owned();
    s.append(b);
    s.append(c);
    s
}

pub fn copy_opt(o: &Option<String>) -> (r: Option<String>)
    ensures
        r == *o,
{
    match o {
        Some(s) => Some(s.clone()),
        None => None,
    }
}

/// Where `c` first stands; the length where it does not.
pub fn position(cs: &[char], c: char) -> (r: usize)
    ensures
        r == seqs::index_of(cs@, c),
        r <= cs@.len(),
{
    let mut i: usize = 0;
    while i < cs.len() && cs[i] != c
        invariant
            i <= cs@.len(),
            forall|j: int| 0 <= j < i ==> cs@[j] != c,
        decreases cs@.len() - i,
    {
        i = i + 1;
    }
    proof {
        seqs::lemma_index_of(cs@, c, i as int);
    }
    i
}

/// Where `c` last stands.
pub fn last_position(cs: &[char], c: char) -> (r: Option<usize>)
    ensures
        match r {
            Some(i) => seqs::last_index_of(cs@, c) == i && i < cs@.len(),
            None => seqs::last_index_of(cs@, c) == -1,
        },
{
    let mut i: usize = cs.len();
    while i > 0
        invariant
            i <= cs@.len(),
            forall|j: int| i <= j < cs@.len() ==> cs@[j] != c,
        decreases i,
    {
        if cs[i - 1] == c {
            proof {
                seqs::lemma_last_index_of(cs@, c, i - 1);
            }
            return Some(i - 1);
        }
        i = i - 1;
    }
    proof {
        seqs::lemma_last_index_of(cs@, c, -1);
    }
    None
}

pub fn has_char(s: &str, c: char) -> (r: bool)
    ensures
        r == s@.contains(c),
{
    let cs = chars_of(s);
    for i in 0..cs.len()
        invariant
            cs@ == s@,
            forall|j: int| 0 <= j < i ==> s@[j] != c,
    {
        if cs[i] == c {
            assert(s@[i as int] == c);
            return true;
        }
    }
    false
}

pub fn starts_with(s: &str, p: &str) -> (r: bool)
    ensures
        r == p@.is_prefix_of(s@),
{
    let a = chars_of(s);
    let b = chars_of(p);
    if b.len() > a.len() {
        return false;
    }
    for i in 0..b.len()
        invariant
            a@ == s@,
            b@ == p@,
            b@.len() <= a@.len(),
            forall|j: int| 0 <= j < i ==> s@[j] == p@[j],
    {
        if a[i] != b[i] {
            assert(s@.subrange(0, p@.len() as int)[i as int] != p@[i as int]);
            return false;
        }
    }
    assert(p@ =~= s@.subrange(0, p@.len() as int));
    true
}

pub fn ends_with(s: &str, p: &str) -> (r: bool)
    ensures
        r == p@.is_suffix_of(s@),
{
    let a = chars_of(s);
    let b = chars_of(p);
    if b.len() > a.len() {
        return false;
    }
    let n = a.len();
    let off = n - b.len();
    for i in 0..b.len()
        invariant
            a@ == s@,
            b@ == p@,
            n == a@.len(),
            off == n - b@.len(),
            b@.len() <= a@.len(),
            forall|j: int| 0 <= j < i ==> s@[off + j] == p@[j],
    {
        if a[off + i] != b[i] {
            assert(s@.subrange((s@.len() - p@.len()) as int, s@.len() as int)[i as int] != p@[i as int]);
            return false;
        }
    }
    assert(p@ =~= s@.subrange((s@.len() - p@.len()) as int, s@.len() as int));
    true
}

/// `s` without `p` at its end, where it ends so.
pub fn strip_suffix(s: &str, p: &str) -> (r: Option<String>)
    ensures
        match r {
            Some(t) => p@.is_suffix_of(s@) && t@ == s@.take(s@.len() - p@.len()),
            None => !p@.is_suffix_of(s@),
        },
{
    if ends_with(s, p) {
        let cs = chars_of(s);
        let n = cs.len() - p.unicode_len();
        let t = text_of(&cs, 0, n);
        assert(t@ =~= s@.take(s@.len() - p@.len()));
        Some(t)
    } else {
        None
    }
}

/// `s` without `p` at its start, where it starts so.
pub fn strip_prefix(s: &str, p: &str) -> (r: Option<String>)
    ensures
        match r {
            Some(t) => p@.is_prefix_of(s@) && t@ == s@.skip(p@.len() as int),
            None => !p@.is_prefix_of(s@),
        },
{
    if starts_with(s, p) {
        let cs = chars_of(s);
        let t = text_of(&cs, p.unicode_len(), cs.len());
        assert(t@ =~= s@.skip(p@.len() as int));
        Some(t)
    } else {
        None
    }
}

/// The pieces of `s` between the separators.
pub fn split_on(s: &str, sep: char) -> (r: Vec<String>)
    ensures
        texts(r@) == seqs::split(s@, sep),
        r@.len() >= 1,
{
    let cs = chars_of(s);
    let mut out: Vec<String> = Vec::new();
    let mut piece = String::new();
    for i in 0..cs.len()
        invariant
            cs@ == s@,
            texts(out@).push(piece@) == seqs::split(s@.take(i as int), sep),
    {
        proof {
            seqs::lemma_split_step(s@, sep, i as int);
        }
        let ghost before = seqs::split(s@.take(i as int), sep);
        let c = cs[i];
        if c == sep {
            out.push(piece);
            assert(texts(out@) =~= before);
            piece = String::new();
            assert(texts(out@).push(piece@) =~= before.push(Seq::<char>::empty()));
        } else {
            let ghost held = piece@;
            piece.push(c);
            assert(before.last() == held);
            assert(texts(out@).push(piece@) =~= before.update(before.len() - 1, held.push(c)));
        }
    }
    out.push(piece);
    assert(s@.take(s@.len() as int) =~= s@);
    assert(texts(out@) =~= seqs::split(s@, sep));
    out
}

/// The parts, with `sep` between each two of them.
pub fn join_with(parts: &[String], sep: &str) -> (r: String)
    ensures
        r@ == seqs::join(texts(parts@), sep@),
{
    let mut out = String::new();
    for i in 0..parts.len()
        invariant
            out@ == seqs::join(texts(parts@).take(i as int), sep@),
    {
        let ghost all = texts(parts@);
        assert(all.take(i as int + 1).drop_last() =~= all.take(i as int));
        assert(all.take(i as int + 1).last() == parts@[i as int]@);
        if i > 0 {
            out.append(sep);
        }
        let ghost held = out@;
        out.append(parts[i].as_str());
        if i == 0 {
            assert(out@ =~= all.take(1)[0]);
        }
    }
    assert(texts(parts@).take(parts@.len() as int) =~= texts(parts@));
    out
}

/// The Unicode `White_Space` property.
pub open spec fn is_space(c: char) -> bool {
    ||| 0x9 <= c as u32 <= 0xd
    ||| c as u32 == 0x20
    ||| c as u32 == 0x85
    ||| c as u32 == 0xa0
    ||| c as u32 == 0x1680
    ||| 0x2000 <= c as u32 <= 0x200a
    ||| c as u32 == 0x2028
    ||| c as u32 == 0x2029
    ||| c as u32 == 0x202f
    ||| c as u32 == 0x205f
    ||| c as u32 == 0x3000
}

pub fn white(c: char) -> (r: bool)
    ensures
        r == is_space(c),
{
    let n = c as u32;
    (0x9 <= n && n <= 0xd) || n == 0x20 || n == 0x85 || n == 0xa0 || n == 0x1680 || (0x2000 <= n
        && n <= 0x200a) || n == 0x2028 || n == 0x2029 || n == 0x202f || n == 0x205f || n == 0x3000
}

/// `s` without the white space at its start.
pub open spec fn trimmed_start(s: Seq<char>) -> Seq<char>
    decreases s.len(),
{
    if s.len() > 0 && is_space(s[0]) {
        trimmed_start(s.skip(1))
    } else {
        s
    }
}

/// `s` without the white space at its end.
pub open spec fn trimmed_end(s: Seq<char>) -> Seq<char>
    decreases s.len(),
{
    if s.len() > 0 && is_space(s.last()) {
        trimmed_end(s.drop_last())
    } else {
        s
    }
}

/// `s` without the white space at its ends.
pub open spec fn trimmed(s: Seq<char>) -> Seq<char> {
    trimmed_end(trimmed_start(s))
}

/// A trimmed text has no white space at its ends, so trimming it again
/// changes nothing.
pub proof fn trimmed_has_no_ends(s: Seq<char>)
    ensures
        trimmed(s).len() > 0 ==> !is_space(trimmed(s)[0]) && !is_space(trimmed(s).last()),
        trimmed(trimmed(s)) == trimmed(s),
{
    lemma_trimmed_start(s);
    lemma_trimmed_end(trimmed_start(s));
}

proof fn lemma_trimmed_start(s: Seq<char>)
    ensures
        trimmed_start(s).len() > 0 ==> !is_space(trimmed_start(s)[0]),
    decreases s.len(),
{
    if s.len() > 0 && is_space(s[0]) {
        lemma_trimmed_start(s.skip(1));
    }
}

proof fn lemma_trimmed_end(s: Seq<char>)
    ensures
        trimmed_end(s).len() > 0 ==> !is_space(trimmed_end(s).last()) && trimmed_end(s)[0] == s[0],
    decreases s.len(),
{
    if s.len() > 0 && is_space(s.last()) {
        lemma_trimmed_end(s.drop_last());
    }
}

pub fn trim(s: &str) -> (r: String)
    ensures
        r@ == trimmed(s@),
{
    let cs = chars_of(s);
    let n = cs.len();
    let mut lo: usize = 0;
    assert(s@.skip(0) =~= s@);
    while lo < n && white(cs[lo])
        invariant
            cs@ == s@,
            n == cs@.len(),
            lo <= n,
            trimmed_start(s@) == trimmed_start(s@.skip(lo as int)),
        decreases n - lo,
    {
        assert(s@.skip(lo as int)[0] == s@[lo as int]);
        assert(s@.skip(lo as int).skip(1) =~= s@.skip(lo as int + 1));
        lo = lo + 1;
    }
    proof {
        let t = s@.skip(lo as int);
        if t.len() > 0 {
            assert(t[0] == s@[lo as int]);
        }
    }
    let ghost t = s@.skip(lo as int);
    let mut hi: usize = n;
    assert(s@.subrange(lo as int, n as int) =~= t);
    while hi > lo && white(cs[hi - 1])
        invariant
            cs@ == s@,
            n == cs@.len(),
            lo <= hi <= n,
            trimmed_end(t) == trimmed_end(s@.subrange(lo as int, hi as int)),
        decreases hi,
    {
        let ghost u = s@.subrange(lo as int, hi as int);
        assert(u.last() == s@[hi - 1]);
        assert(u.drop_last() =~= s@.subrange(lo as int, hi - 1));
        hi = hi - 1;
    }
    proof {
        let u = s@.subrange(lo as int, hi as int);
        if u.len() > 0 {
            assert(u.last() == s@[hi - 1]);
        }
    }
    text_of(&cs, lo, hi)
}

/// One decimal digit.
pub open spec fn digit(d: nat) -> char {
    (48 + d) as char
}

/// `n` in decimal, without leading zeros.
pub open spec fn decimal(n: nat) -> Seq<char>
    decreases n,
{
    if n < 10 {
        seq![digit(n)]
    } else {
        decimal(n / 10).push(digit(n % 10))
    }
}

/// `n` in decimal, with a minus sign where it is negative.
pub open spec fn decimal_signed(n: int) -> Seq<char> {
    if n < 0 {
        seq!['-'] + decimal((-n) as nat)
    } else {
        decimal(n as nat)
    }
}

fn digit_char(d: u8) -> (r: char)
    requires
        d < 10,
    ensures
        r == digit(d as nat),
{
    (48 + d) as char
}

pub fn format_decimal(n: u64) -> (r: String)
    ensures
        r@ == decimal(n as nat),
    decreases n,
{
    if n < 10 {
        let mut s = String::new();
        s.push(digit_char(n as u8));
        assert(s@ =~= decimal(n as nat));
        s
    } else {
        let mut s = format_decimal(n / 10);
        s.push(digit_char((n % 10) as u8));
        s
    }
}

pub fn format_signed(n: i64) -> (r: String)
    ensures
        r@ == decimal_signed(n as int),
{
    if n < 0 {
        let mut s = String::new();
        s.push('-');
        let m: u64 = if n == i64::MIN {
            9223372036854775808
        } else {
            (-n) as u64
        };
        let d = format_decimal(m);
        s.append(d.as_str());
        assert(s@ =~= seq!['-'] + decimal((-(n as int)) as nat));
        s
    } else {
        format_decimal(n as u64)
    }
}

pub open spec fn is_digit(c: char) -> bool {
    '0' <= c && c <= '9'
}

/// The number that the decimal digits of `s` write; nothing where `s` holds another character.
pub open spec fn digits_value(s: Seq<char>) -> Option<nat>
    decreases s.len(),
{
    if s.len() == 0 {
        Some(0)
    } else if !is_digit(s.last()) {
        None
    } else {
        match digits_value(s.drop_last()) {
            Some(v) => Some((10 * v + (s.last() as u32 - 48)) as nat),
            None => None,
        }
    }
}

/// An unsigned number of at most `max`: digits, with one optional plus sign before them.
pub open spec fn unsigned_value(s: Seq<char>, max: nat) -> Option<nat> {
    let t = if s.len() > 0 && s[0] == '+' {
        s.skip(1)
    } else {
        s
    };
    match digits_value(t) {
        Some(v) if t.len() > 0 && v <= max => Some(v),
        _ => None,
    }
}

/// A 32-bit signed number: digits, with one optional sign before them.
pub open spec fn i32_value(s: Seq<char>) -> Option<int> {
    if s.len() > 0 && s[0] == '-' {
        match digits_value(s.skip(1)) {
            Some(v) if s.len() > 1 && v <= 0x8000_0000 => Some(-(v as int)),
            _ => None,
        }
    } else {
        match unsigned_value(s, 0x7fff_ffff) {
            Some(v) => Some(v as int),
            None => None,
        }
    }
}

/// Reading what was written in decimal gives the number back.
pub proof fn decimal_round_trip(n: nat)
    ensures
        digits_value(decimal(n)) == Some(n),
        decimal(n).len() > 0,
        forall|i: int| 0 <= i < decimal(n).len() ==> is_digit(#[trigger] decimal(n)[i]),
    decreases n,
{
    if n < 10 {
        assert(decimal(n).drop_last() =~= Seq::<char>::empty());
        assert(digits_value(Seq::<char>::empty()) == Some(0nat));
    } else {
        decimal_round_trip(n / 10);
        assert(decimal(n).drop_last() =~= decimal(n / 10));
    }
}

proof fn lemma_digits_grow(s: Seq<char>, i: int)
    requires
        0 <= i <= s.len(),
    ensures
        digits_value(s.take(i)) is None ==> digits_value(s) is None,
        (digits_value(s.take(i)) is Some && digits_value(s) is Some) ==> digits_value(s.take(i))->0
            <= digits_value(s)->0,
    decreases s.len(),
{
    if i == s.len() {
        assert(s.take(i) =~= s);
    } else {
        let t = s.drop_last();
        assert(t.take(i) =~= s.take(i));
        lemma_digits_grow(t, i);
    }
}

/// The value of the characters from `from` on, where they are all digits and it is at most `max`.
fn read_digits(cs: &[char], from: usize, max: u64) -> (r: Option<u64>)
    requires
        from <= cs@.len(),
    ensures
        match r {
            Some(v) => digits_value(cs@.skip(from as int)) == Some(v as nat) && v <= max,
            None => match digits_value(cs@.skip(from as int)) {
                Some(v) => v > max,
                None => true,
            },
        },
{
    let ghost t = cs@.skip(from as int);
    let mut acc: u128 = 0;
    let mut i: usize = from;
    let n = cs.len();
    assert(t.take(0) =~= Seq::<char>::empty());
    while i < n
        invariant
            from <= i <= n,
            n == cs@.len(),
            t == cs@.skip(from as int),
            acc <= max,
            digits_value(t.take(i - from)) == Some(acc as nat),
        decreases n - i,
    {
        let c = cs[i];
        let ghost u = t.take(i - from + 1);
        assert(u.last() == c);
        assert(u.drop_last() =~= t.take(i - from));
        if !('0' <= c && c <= '9') {
            proof {
                lemma_digits_grow(t, i - from + 1);
            }
            return None;
        }
        acc = 10 * acc + (c as u32 - 48) as u128;
        if acc > max as u128 {
            proof {
                lemma_digits_grow(t, i - from + 1);
            }
            return None;
        }
        i = i + 1;
    }
    assert(t.take(n - from) =~= t);
    Some(acc as u64)
}

pub fn parse_unsigned(s: &str, max: u64) -> (r: Option<u64>)
    ensures
        match r {
            Some(v) => unsigned_value(s@, max as nat) == Some(v as nat),
            None => unsigned_value(s@, max as nat) is None,
        },
{
    let cs = chars_of(s);
    let plus = cs.len() > 0 && cs[0] == '+';
    let from: usize = if plus {
        1
    } else {
        0
    };
    assert(s@.skip(0) =~= s@);
    if from == cs.len() {
        return None;
    }
    read_digits(&cs, from, max)
}

pub fn parse_i32(s: &str) -> (r: Option<i32>)
    ensures
        match r {
            Some(v) => i32_value(s@) == Some(v as int),
            None => i32_value(s@) is None,
        },
{
    let cs = chars_of(s);
    if cs.len() > 0 && cs[0] == '-' {
        if cs.len() == 1 {
            return None;
        }
        match read_digits(&cs, 1, 0x8000_0000) {
            Some(v) => Some((-(v as i64)) as i32),
            None => None,
        }
    } else {
        match parse_unsigned(s, 0x7fff_ffff) {
            Some(v) => Some(v as i32),
            None => None,
        }
    }
}

/// `s` with each `c` replaced by `with`.
pub open spec fn replaced(s: Seq<char>, c: char, with: Seq<char>) -> Seq<char>
    decreases s.len(),
{
    if s.len() == 0 {
        s
    } else if s.last() == c {
        replaced(s.drop_last(), c, with) + with
    } else {
        replaced(s.drop_last(), c, with).push(s.last())
    }
}

pub fn replace_char(s: &str, c: char, with: &str) -> (r: String)
    ensures
        r@ == replaced(s@, c, with@),
{
    let cs = chars_of(s);
    let mut out = String::new();
    for i in 0..cs.len()
        invariant
            cs@ == s@,
            out@ == replaced(s@.take(i as int), c, with@),
    {
        assert(s@.take(i as int + 1).drop_last() =~= s@.take(i as int));
        if cs[i] == c {
            out.append(with);
        } else {
            out.push(cs[i]);
        }
    }
    assert(s@.take(s@.len() as int) =~= s@);
    out
}

/// `s` with blanks behind it up to `width` characters.
pub open spec fn padded(s: Seq<char>, width: nat) -> Seq<char> {
    if s.len() >= width {
        s
    } else {
        s + Seq::new((width - s.len()) as nat, |i: int| ' ')
    }
}

pub fn pad(s: &str, width: usize) -> (r: String)
    ensures
        r@ == padded(s@, width as nat),
{
    let mut out = s.to_owned();
    let mut n = s.unicode_len();
    let ghost len = s@.len();
    while n < width
        invariant
            len == s@.len(),
            len <= n,
            n <= width || n == len,
            out@ == s@ + Seq::new((n - len) as nat, |i: int| ' '),
        decreases width - n,
    {
        out.push(' ');
        n = n + 1;
        assert(out@ =~= s@ + Seq::new((n - len) as nat, |i: int| ' '));
    }
    assert(out@ =~= padded(s@, width as nat));
    out
}

/// The order of strings: by the first character in which they differ, a prefix first.
pub open spec fn precedes(a: Seq<char>, b: Seq<char>) -> bool
    decreases a.len(),
{
    if b.len() == 0 {
        false
    } else if a.len() == 0 {
        true
    } else if a[0] == b[0] {
        precedes(a.skip(1), b.skip(1))
    } else {
        a[0] < b[0]
    }
}

pub fn less(a: &str, b: &str) -> (r: bool)
    ensures
        r == precedes(a@, b@),
{
    let x = chars_of(a);
    let y = chars_of(b);
    let mut i: usize = 0;
    assert(a@.skip(0) =~= a@);
    assert(b@.skip(0) =~= b@);
    while i < x.len() && i < y.len()
        invariant
            x@ == a@,
            y@ == b@,
            i <= x@.len(),
            i <= y@.len(),
            precedes(a@, b@) == precedes(a@.skip(i as int), b@.skip(i as int)),
        decreases x@.len() - i,
    {
        assert(a@.skip(i as int)[0] == a@[i as int]);
        assert(b@.skip(i as int)[0] == b@[i as int]);
        if x[i] != y[i] {
            return x[i] < y[i];
        }
        assert(a@.skip(i as int).skip(1) =~= a@.skip(i as int + 1));
        assert(b@.skip(i as int).skip(1) =~= b@.skip(i as int + 1));
        i = i + 1;
    }
    i < y.len()
}

/// One lower-case hexadecimal digit.
pub open spec fn hex_digit(d: nat) -> char {
    if d < 10 {
        (48 + d) as char
    } else {
        (87 + d) as char
    }
}

/// The last `width` hexadecimal digits of `n`, leading zeros written.
pub open spec fn hex_padded(n: nat, width: nat) -> Seq<char>
    decreases width,
{
    if width == 0 {
        Seq::<char>::empty()
    } else {
        hex_padded(n / 16, (width - 1) as nat).push(hex_digit(n % 16))
    }
}

/// Two lower-case hexadecimal digits for each byte.
pub open spec fn hex_of(bytes: Seq<u8>) -> Seq<char>
    decreases bytes.len(),
{
    if bytes.len() == 0 {
        Seq::<char>::empty()
    } else {
        hex_of(bytes.drop_last()) + hex_padded(bytes.last() as nat, 2)
    }
}

/// Hexadecimal text has two ASCII characters for each byte.
pub proof fn hex_is_ascii(bytes: Seq<u8>)
    ensures
        hex_of(bytes).len() == 2 * bytes.len(),
        vstd::utf8::is_ascii_chars(hex_of(bytes)),
    decreases bytes.len(),
{
    if bytes.len() > 0 {
        hex_is_ascii(bytes.drop_last());
        let n = bytes.last() as nat;
        let before = hex_of(bytes.drop_last());
        let pair = hex_padded(n, 2);
        reveal_with_fuel(hex_padded, 3);
        assert(pair =~= seq![hex_digit(n / 16 % 16), hex_digit(n % 16)]);
        assert forall|i: int| 0 <= i < hex_of(bytes).len() implies (
        #[trigger] hex_of(bytes)[i]) as nat <= 0x7f by {
            if i < before.len() {
                assert(hex_of(bytes)[i] == before[i]);
            } else {
                assert(hex_of(bytes)[i] == pair[i - before.len()]);
            }
        }
    }
}

/// A lower-case hexadecimal digit.
pub open spec fn is_hex_digit(c: char) -> bool {
    '0' <= c <= '9' || 'a' <= c <= 'f'
}

/// Hexadecimal text is made of hexadecimal digits.
pub proof fn hex_is_digits(bytes: Seq<u8>)
    ensures
        forall|i: int| 0 <= i < hex_of(bytes).len() ==> is_hex_digit(#[trigger] hex_of(bytes)[i]),
    decreases bytes.len(),
{
    if bytes.len() > 0 {
        hex_is_digits(bytes.drop_last());
        let n = bytes.last() as nat;
        let before = hex_of(bytes.drop_last());
        let pair = hex_padded(n, 2);
        reveal_with_fuel(hex_padded, 3);
        assert(pair =~= seq![hex_digit(n / 16 % 16), hex_digit(n % 16)]);
        assert forall|i: int| 0 <= i < hex_of(bytes).len() implies is_hex_digit(
            #[trigger] hex_of(bytes)[i],
        ) by {
            if i < before.len() {
                assert(hex_of(bytes)[i] == before[i]);
            } else {
                assert(hex_of(bytes)[i] == pair[i - before.len()]);
            }
        }
    }
}

/// The last `width` hexadecimal digits of `n`.
pub fn format_hex(n: u64, width: u8) -> (r: String)
    ensures
        r@ == hex_padded(n as nat, width as nat),
    decreases width,
{
    if width == 0 {
        String::new()
    } else {
        let mut s = format_hex(n / 16, width - 1);
        let d = (n % 16) as u8;
        let c = if d < 10 {
            (48 + d) as char
        } else {
            (87 + d) as char
        };
        s.push(c);
        s
    }
}

/// A line without the carriage return that ends it.
pub open spec fn without_return(s: Seq<char>) -> Seq<char> {
    if s.len() > 0 && s.last() == '\r' {
        s.drop_last()
    } else {
        s
    }
}

/// The lines of `s`. A line feed ends a line, a carriage return before it is
/// no part of the line, and nothing after the last line feed is no line.
pub open spec fn lines_of(s: Seq<char>) -> Seq<Seq<char>> {
    let pieces = seqs::split(s, '\n');
    let whole = pieces.drop_last().map_values(|p: Seq<char>| without_return(p));
    if pieces.last().len() == 0 {
        whole
    } else {
        whole.push(pieces.last())
    }
}

pub fn lines(s: &str) -> (r: Vec<String>)
    ensures
        texts(r@) == lines_of(s@),
{
    let pieces = split_on(s, '\n');
    let ghost all = seqs::split(s@, '\n');
    let last = pieces.len() - 1;
    let mut out: Vec<String> = Vec::new();
    let ghost whole = all.drop_last().map_values(|p: Seq<char>| without_return(p));
    for i in 0..last
        invariant
            texts(pieces@) == all,
            last == pieces@.len() - 1,
            whole == all.drop_last().map_values(|p: Seq<char>| without_return(p)),
            texts(out@) == whole.take(i as int),
    {
        let cs = chars_of(pieces[i].as_str());
        let n = cs.len();
        assert(all[i as int] == pieces@[i as int]@);
        let line = if n > 0 && cs[n - 1] == '\r' {
            text_of(&cs, 0, n - 1)
        } else {
            pieces[i].clone()
        };
        assert(line@ =~= without_return(all[i as int]));
        let ghost held = texts(out@);
        out.push(line);
        assert(texts(out@) =~= held.push(line@));
        assert(whole[i as int] == without_return(all.drop_last()[i as int]));
        assert(whole.take(i as int + 1) =~= whole.take(i as int).push(whole[i as int]));
    }
    assert(whole.take(last as int) =~= whole);
    assert(all.last() == pieces@[last as int]@);
    if pieces[last].as_str().is_empty() {
    } else {
        out.push(pieces[last].clone());
        assert(texts(out@) =~= whole.push(all.last()));
    }
    out
}

/// The runs of characters that are not white space.
pub open spec fn words_of(s: Seq<char>) -> Seq<Seq<char>>
    decreases s.len(),
{
    if s.len() == 0 {
        Seq::<Seq<char>>::empty()
    } else {
        let before = words_of(s.drop_last());
        if is_space(s.last()) {
            before
        } else if s.len() > 1 && !is_space(s[s.len() - 2]) {
            before.update(before.len() - 1, before.last().push(s.last()))
        } else {
            before.push(seq![s.last()])
        }
    }
}

pub proof fn lemma_words_open(s: Seq<char>)
    ensures
        s.len() > 0 && !is_space(s.last()) ==> words_of(s).len() > 0,
    decreases s.len(),
{
    if s.len() > 1 && !is_space(s.last()) && !is_space(s[s.len() - 2]) {
        lemma_words_open(s.drop_last());
    }
}

pub fn words(s: &str) -> (r: Vec<String>)
    ensures
        texts(r@) == words_of(s@),
{
    let cs = chars_of(s);
    let mut out: Vec<String> = Vec::new();
    for i in 0..cs.len()
        invariant
            cs@ == s@,
            texts(out@) == words_of(s@.take(i as int)),
    {
        let ghost t = s@.take(i as int + 1);
        let ghost before = words_of(s@.take(i as int));
        assert(t.drop_last() =~= s@.take(i as int));
        assert(t.last() == s@[i as int]);
        let c = cs[i];
        if !white(c) {
            if i > 0 && !white(cs[i - 1]) {
                proof {
                    assert(t[t.len() - 2] == s@[i - 1]);
                    assert(s@.take(i as int).last() == s@[i - 1]);
                    lemma_words_open(s@.take(i as int));
                }
                let k = out.len() - 1;
                let mut w = out[k].clone();
                w.push(c);
                out.set(k, w);
                assert(texts(out@) =~= before.update(before.len() - 1, before.last().push(c)));
            } else {
                if i > 0 {
                    assert(t[t.len() - 2] == s@[i - 1]);
                }
                let mut w = String::new();
                w.push(c);
                assert(w@ =~= seq![c]);
                out.push(w);
                assert(texts(out@) =~= before.push(seq![c]));
            }
        }
    }
    assert(s@.take(s@.len() as int) =~= s@);
    out
}

/// `p` stands somewhere in `s`.
pub open spec fn holds(s: Seq<char>, p: Seq<char>) -> bool {
    exists|i: int| 0 <= i <= s.len() - p.len() && #[trigger] s.subrange(i, i + p.len()) == p
}

pub fn contains(s: &str, p: &str) -> (r: bool)
    ensures
        r == holds(s@, p@),
{
    let a = chars_of(s);
    let b = chars_of(p);
    if b.len() > a.len() {
        return false;
    }
    let n = a.len();
    let last = n - b.len();
    let mut i: usize = 0;
    while i <= last
        invariant
            a@ == s@,
            b@ == p@,
            n == a@.len(),
            b@.len() <= n,
            last == n - b@.len(),
            i <= last + 1,
            forall|k: int| 0 <= k < i ==> #[trigger] s@.subrange(k, k + p@.len()) != p@,
        decreases last + 1 - i,
    {
        let mut j: usize = 0;
        while j < b.len() && a[i + j] == b[j]
            invariant
                a@ == s@,
                b@ == p@,
                n == a@.len(),
                b@.len() <= n,
                last == n - b@.len(),
                i <= last,
                j <= b@.len(),
                forall|m: int| 0 <= m < j ==> s@[i + m] == p@[m],
            decreases b@.len() - j,
        {
            j = j + 1;
        }
        if j == b.len() {
            assert(s@.subrange(i as int, i + p@.len()) =~= p@);
            return true;
        }
        assert(s@.subrange(i as int, i + p@.len())[j as int] != p@[j as int]);
        if i == last {
            return false;
        }
        i = i + 1;
    }
    false
}

/// `s` without any `p` at its start.
pub open spec fn without_prefixes(s: Seq<char>, p: Seq<char>) -> Seq<char>
    decreases s.len(),
{
    if p.len() > 0 && p.is_prefix_of(s) {
        without_prefixes(s.skip(p.len() as int), p)
    } else {
        s
    }
}

pub fn strip_prefixes(s: &str, p: &str) -> (r: String)
    requires
        p@.len() > 0,
    ensures
        r@ == without_prefixes(s@, p@),
{
    let mut t = s.to_owned();
    loop
        invariant
            p@.len() > 0,
            without_prefixes(s@, p@) == without_prefixes(t@, p@),
        decreases t@.len(),
    {
        match strip_prefix(t.as_str(), p) {
            Some(u) => {
                t = u;
            },
            None => {
                return t;
            },
        }
    }
}

/// `s` without any `c` at its start.
pub open spec fn without_leading(s: Seq<char>, c: char) -> Seq<char>
    decreases s.len(),
{
    if s.len() > 0 && s[0] == c {
        without_leading(s.skip(1), c)
    } else {
        s
    }
}

/// `s` without any `c` at its end.
pub open spec fn without_trailing(s: Seq<char>, c: char) -> Seq<char>
    decreases s.len(),
{
    if s.len() > 0 && s.last() == c {
        without_trailing(s.drop_last(), c)
    } else {
        s
    }
}

/// `s` without any `c` at its ends.
pub open spec fn stripped(s: Seq<char>, c: char) -> Seq<char> {
    without_trailing(without_leading(s, c), c)
}

pub fn strip_trailing(s: &str, c: char) -> (r: String)
    ensures
        r@ == without_trailing(s@, c),
{
    let cs = chars_of(s);
    let mut n: usize = cs.len();
    assert(s@.take(n as int) =~= s@);
    while n > 0 && cs[n - 1] == c
        invariant
            cs@ == s@,
            n <= cs@.len(),
            without_trailing(s@, c) == without_trailing(s@.take(n as int), c),
        decreases n,
    {
        assert(s@.take(n as int).last() == s@[n - 1]);
        assert(s@.take(n as int).drop_last() =~= s@.take(n - 1));
        n = n - 1;
    }
    proof {
        let t = s@.take(n as int);
        if n > 0 {
            assert(t.last() == s@[n - 1]);
        }
    }
    let r = text_of(&cs, 0, n);
    assert(r@ =~= s@.take(n as int));
    r
}

pub fn strip_leading(s: &str, c: char) -> (r: String)
    ensures
        r@ == without_leading(s@, c),
{
    let cs = chars_of(s);
    let mut i: usize = 0;
    assert(s@.skip(0) =~= s@);
    while i < cs.len() && cs[i] == c
        invariant
            cs@ == s@,
            i <= cs@.len(),
            without_leading(s@, c) == without_leading(s@.skip(i as int), c),
        decreases cs@.len() - i,
    {
        assert(s@.skip(i as int)[0] == s@[i as int]);
        assert(s@.skip(i as int).skip(1) =~= s@.skip(i as int + 1));
        i = i + 1;
    }
    proof {
        let t = s@.skip(i as int);
        if t.len() > 0 {
            assert(t[0] == s@[i as int]);
        }
    }
    let r = text_of(&cs, i, cs.len());
    assert(r@ =~= s@.skip(i as int));
    r
}

pub fn strip(s: &str, c: char) -> (r: String)
    ensures
        r@ == stripped(s@, c),
{
    strip_trailing(strip_leading(s, c).as_str(), c)
}

/// `core::str::from_utf8`: the text that valid UTF-8 encodes, and nothing for other bytes.
#[verifier::external_body]
pub(crate) fn utf8_text(bytes: &[u8]) -> (r: Option<String>)
    ensures
        match r {
            Some(s) => vstd::utf8::valid_utf8(bytes@) && s@ == vstd::utf8::decode_utf8(bytes@),
            None => !vstd::utf8::valid_utf8(bytes@),
        },
{
    match core::str::from_utf8(bytes) {
        Ok(s) => Some(s.to_string()),
        Err(_) => None,
    }
}

/// What `String::from_utf8_lossy` makes of bytes.
pub uninterp spec fn lossy_of(bytes: Seq<u8>) -> Seq<char>;

/// `String::from_utf8_lossy`: valid UTF-8 decoded. Of other bytes only that
/// the same bytes give the same text: each invalid run in them is replaced
/// by U+FFFD, and which bytes make up one run is not stated.
#[verifier::external_body]
pub(crate) fn lossy_text(bytes: &[u8]) -> (r: String)
    ensures
        r@ == lossy_of(bytes@),
        vstd::utf8::valid_utf8(bytes@) ==> r@ == vstd::utf8::decode_utf8(bytes@),
{
    String::from_utf8_lossy(bytes).into_owned()
}

/// The text of the first `n` bytes of `s`; all of `s` where it is no longer.
pub open spec fn byte_prefix(s: Seq<char>, n: int) -> Seq<char> {
    let bytes = vstd::utf8::encode_utf8(s);
    if n >= bytes.len() {
        s
    } else {
        vstd::utf8::decode_utf8(bytes.take(n))
    }
}

/// Cutting `s` after `n` bytes splits no character.
pub open spec fn cuts_cleanly(s: Seq<char>, n: int) -> bool {
    let bytes = vstd::utf8::encode_utf8(s);
    n >= bytes.len() || vstd::utf8::is_char_boundary(bytes, n)
}

pub fn cut(s: &str, n: usize) -> (r: String)
    requires
        cuts_cleanly(s@, n as int),
    ensures
        r@ == byte_prefix(s@, n as int),
{
    if n >= s.as_bytes().len() {
        return s.to_owned();
    }
    let (head, tail) = s.split_at(n);
    proof {
        vstd::utf8::encode_utf8_decode_utf8(head@);
        let bytes = vstd::utf8::encode_utf8(s@);
        assert(bytes.subrange(0, n as int) =~= bytes.take(n as int));
    }
    head.to_owned()
}

/// In ASCII text every byte is a character.
pub proof fn ascii_prefix(s: Seq<char>, n: int)
    requires
        vstd::utf8::is_ascii_chars(s),
        0 <= n,
    ensures
        cuts_cleanly(s, n),
        n <= s.len() ==> byte_prefix(s, n) == s.take(n),
{
    vstd::utf8::is_ascii_chars_encode_utf8(s);
    let bytes = vstd::utf8::encode_utf8(s);
    if n < bytes.len() {
        let t = s.take(n);
        assert(vstd::utf8::is_ascii_chars(t));
        vstd::utf8::is_ascii_chars_encode_utf8(t);
        assert(vstd::utf8::encode_utf8(t) =~= bytes.take(n));
        vstd::utf8::encode_utf8_decode_utf8(t);
        vstd::utf8::encode_utf8_valid_utf8(s);
        vstd::utf8::is_char_boundary_iff_not_is_continuation_byte(bytes, n);
        assert(s[n] as u8 == bytes[n]);
    } else {
        assert(s.take(s.len() as int) =~= s);
    }
}

} // verus!
