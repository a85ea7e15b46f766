//! Quoting for the guest's shell.
use crate::seqs;
use crate::text;
use vstd::prelude::*;

verus! {

/// A character that means itself to a shell.
pub open spec fn is_plain(c: char) -> bool {
    ||| 'a' <= c && c <= 'z'
    ||| 'A' <= c && c <= 'Z'
    ||| '0' <= c && c <= '9'
    ||| c == '_'
    ||| c == '-'
    ||| c == '.'
    ||| c == '/'
    ||| c == ':'
    ||| c == '='
    ||| c == ','
    ||| c == '@'
    ||| c == '+'
    ||| c == '%'
}

fn plain(c: char) -> (r: bool)
    ensures
        r == is_plain(c),
{
    ('a' <= c && c <= 'z') || ('A' <= c && c <= 'Z') || ('0' <= c && c <= '9') || c == '_' || c
        == '-' || c == '.' || c == '/' || c == ':' || c == '=' || c == ',' || c == '@' || c == '+'
        || c == '%'
}

/// A word that a shell reads as it stands.
pub open spec fn is_safe(s: Seq<char>) -> bool {
    s.len() > 0 && forall|i: int| 0 <= i < s.len() ==> is_plain(#[trigger] s[i])
}

/// A word as it is written for a shell.
pub open spec fn quoted(s: Seq<char>) -> Seq<char> {
    if is_safe(s) {
        s
    } else {
        "'"@ + text::replaced(s, '\'', "'\\''"@) + "'"@
    }
}

/// Quotes one word for a POSIX shell, unless it is safe as it is.
pub fn shell_quote(s: &str) -> (r: String)
    ensures
        r@ == quoted(s@),
{
    let cs = text::chars_of(s);
    let mut safe = cs.len() > 0;
    for i in 0..cs.len()
        invariant
            cs@ == s@,
            safe == (s@.len() > 0 && forall|j: int| 0 <= j < i ==> is_plain(#[trigger] s@[j])),
    {
        if !plain(cs[i]) {
            safe = false;
        }
    }
    if safe {
        s.to_owned()
    } else {
        let inner = text::replace_char(s, '\'', "'\\''");
        text::concat3("'", inner.as_str(), "'")
    }
}

/// The words of a command, each quoted, with blanks between them. A single
/// word is left as it is, so that it can be a command line of its own.
pub open spec fn command_of(words: Seq<Seq<char>>) -> Seq<char> {
    if words.len() == 1 {
        words[0]
    } else {
        seqs::join(words.map_values(|w: Seq<char>| quoted(w)), " "@)
    }
}

/// The command line for the guest's shell.
pub fn command_line(words: &[String]) -> (r: String)
    ensures
        r@ == command_of(text::texts(words@)),
{
    if words.len() == 1 {
        assert(text::texts(words@)[0] == words@[0]@);
        return words[0].clone();
    }
    let mut parts: Vec<String> = Vec::new();
    let ghost shown = text::texts(words@).map_values(|w: Seq<char>| quoted(w));
    for i in 0..words.len()
        invariant
            shown == text::texts(words@).map_values(|w: Seq<char>| quoted(w)),
            text::texts(parts@) == shown.take(i as int),
    {
        let part = shell_quote(words[i].as_str());
        let ghost held = text::texts(parts@);
        parts.push(part);
        assert(text::texts(parts@) =~= held.push(part@));
        assert(shown[i as int] == part@);
        assert(shown.take(i as int + 1) =~= held.push(shown[i as int]));
    }
    assert(shown.take(shown.len() as int) =~= shown);
    text::join_with(&parts, " ")
}

/// How a shell reads the next character.
pub enum Mode {
    Plain,
    /// Between single quotes.
    Quoted,
    /// Behind a backslash.
    Escaped,
}

/// How far a shell has come in reading a command: the words that are
/// finished, the one it is in, and whether it met anything that does more
/// than name words.
pub struct Reading {
    pub words: Seq<Seq<char>>,
    pub word: Option<Seq<char>>,
    pub mode: Mode,
    pub special: bool,
}

pub open spec fn start() -> Reading {
    Reading {
        words: Seq::<Seq<char>>::empty(),
        word: None,
        mode: Mode::Plain,
        special: false,
    }
}

/// The part of the word so far.
pub open spec fn so_far(r: Reading) -> Seq<char> {
    match r.word {
        Some(w) => w,
        None => Seq::<char>::empty(),
    }
}

/// A POSIX shell reads one more character: blanks end words, between single
/// quotes every character means itself, and so does one behind a backslash.
pub open spec fn read_char(r: Reading, c: char) -> Reading {
    match r.mode {
        Mode::Quoted => if c == '\'' {
            Reading { mode: Mode::Plain, ..r }
        } else {
            Reading { word: Some(so_far(r).push(c)), ..r }
        },
        Mode::Escaped => Reading { word: Some(so_far(r).push(c)), mode: Mode::Plain, ..r },
        Mode::Plain => if c == ' ' {
            match r.word {
                Some(w) => Reading { words: r.words.push(w), word: None, ..r },
                None => r,
            }
        } else if c == '\'' {
            Reading { word: Some(so_far(r)), mode: Mode::Quoted, ..r }
        } else if c == '\\' {
            Reading { mode: Mode::Escaped, ..r }
        } else if is_plain(c) {
            Reading { word: Some(so_far(r).push(c)), ..r }
        } else {
            Reading { special: true, ..r }
        },
    }
}

/// A shell reads a text.
pub open spec fn read_text(r: Reading, s: Seq<char>) -> Reading
    decreases s.len(),
{
    if s.len() == 0 {
        r
    } else {
        read_char(read_text(r, s.drop_last()), s.last())
    }
}

/// The words of a command, where it does nothing but name words.
pub open spec fn shell_words(s: Seq<char>) -> Option<Seq<Seq<char>>> {
    let r = read_text(start(), s);
    if r.special || !(r.mode is Plain) {
        None
    } else {
        match r.word {
            Some(w) => Some(r.words.push(w)),
            None => Some(r.words),
        }
    }
}

proof fn lemma_read_append(r: Reading, a: Seq<char>, b: Seq<char>)
    ensures
        read_text(r, a + b) == read_text(read_text(r, a), b),
    decreases b.len(),
{
    if b.len() == 0 {
        assert(a + b =~= a);
    } else {
        assert((a + b).drop_last() =~= a + b.drop_last());
        lemma_read_append(r, a, b.drop_last());
    }
}

proof fn lemma_read_plain(r: Reading, s: Seq<char>)
    requires
        r.mode is Plain,
        forall|i: int| 0 <= i < s.len() ==> is_plain(#[trigger] s[i]),
        s.len() > 0,
    ensures
        read_text(r, s) == (Reading { word: Some(so_far(r) + s), ..r }),
    decreases s.len(),
{
    let t = s.drop_last();
    assert(is_plain(s[s.len() - 1]));
    if t.len() == 0 {
        assert(read_text(r, t) == r);
        assert(so_far(r) + s =~= so_far(r).push(s.last()));
    } else {
        assert forall|i: int| 0 <= i < t.len() implies is_plain(#[trigger] t[i]) by {
            assert(t[i] == s[i]);
        }
        lemma_read_plain(r, t);
        assert((so_far(r) + t).push(s.last()) =~= so_far(r) + s);
    }
}

/// Between single quotes a shell reads the replaced text as the text itself.
proof fn lemma_read_inner(r: Reading, s: Seq<char>)
    requires
        r.mode is Quoted,
        r.word is Some,
    ensures
        read_text(r, text::replaced(s, '\'', "'\\''"@)) == (Reading {
            word: Some(r.word->0 + s),
            ..r
        }),
    decreases s.len(),
{
    reveal_strlit("'\\''");
    if s.len() == 0 {
        assert(r.word->0 + s =~= r.word->0);
    } else {
        let t = s.drop_last();
        let before = text::replaced(t, '\'', "'\\''"@);
        lemma_read_inner(r, t);
        let mid = read_text(r, before);
        assert((r.word->0 + t).push(s.last()) =~= r.word->0 + s);
        if s.last() == '\'' {
            let q = "'\\''"@;
            lemma_read_append(r, before, q);
            reveal_with_fuel(read_text, 5);
            let q3 = q.drop_last();
            let q2 = q3.drop_last();
            let q1 = q2.drop_last();
            assert(q1.drop_last() =~= Seq::<char>::empty());
            assert(q1.last() == '\'' && q2.last() == '\\' && q3.last() == '\'' && q.last() == '\'');
            let r1 = read_text(mid, q1);
            assert(r1 == (Reading { mode: Mode::Plain, ..mid }));
            let r2 = read_text(mid, q2);
            assert(r2 == (Reading { mode: Mode::Escaped, ..mid }));
            let r3 = read_text(mid, q3);
            assert(r3 == (Reading {
                word: Some(so_far(mid).push('\'')),
                mode: Mode::Plain,
                ..mid
            }));
            assert(read_text(mid, q) == (Reading {
                word: Some(so_far(mid).push('\'')),
                mode: Mode::Quoted,
                ..mid
            }));
        } else {
            assert(before.push(s.last()).drop_last() =~= before);
        }
    }
}

/// At the start of a word, a shell reads a quoted word as the word.
proof fn lemma_read_quoted(r: Reading, s: Seq<char>)
    requires
        r.mode is Plain,
        r.word is None,
    ensures
        read_text(r, quoted(s)) == (Reading { word: Some(s), ..r }),
{
    let none = Seq::<char>::empty();
    if is_safe(s) {
        lemma_read_plain(r, s);
        assert(none + s =~= s);
    } else {
        reveal_strlit("'");
        let inner = text::replaced(s, '\'', "'\\''"@);
        let open = read_text(r, "'"@);
        assert("'"@.drop_last() =~= none);
        assert(read_text(r, "'"@.drop_last()) == r);
        assert(open == (Reading { word: Some(none), mode: Mode::Quoted, ..r }));
        lemma_read_append(r, "'"@, inner);
        lemma_read_inner(open, s);
        assert(none + s =~= s);
        lemma_read_append(r, "'"@ + inner, "'"@);
        let mid = read_text(r, "'"@ + inner);
        assert(read_text(mid, "'"@.drop_last()) == mid);
        assert(read_text(mid, "'"@) == read_char(mid, '\''));
    }
}

/// Quoting is faithful: the guest's shell reads exactly the words that were
/// given, whatever characters they hold.
pub proof fn shell_reads_the_words(words: Seq<Seq<char>>)
    requires
        words.len() != 1,
    ensures
        shell_words(command_of(words)) == Some(words),
{
    let shown = words.map_values(|w: Seq<char>| quoted(w));
    if words.len() == 0 {
        assert(seqs::join(shown, " "@) =~= Seq::<char>::empty());
        assert(words =~= start().words);
    } else {
        lemma_read_joined(words);
        assert(words.drop_last().push(words.last()) =~= words);
    }
}

proof fn lemma_read_joined(words: Seq<Seq<char>>)
    requires
        words.len() > 0,
    ensures
        read_text(
            start(),
            seqs::join(words.map_values(|w: Seq<char>| quoted(w)), " "@),
        ) == (Reading {
            words: words.drop_last(),
            word: Some(words.last()),
            mode: Mode::Plain,
            special: false,
        }),
    decreases words.len(),
{
    reveal_strlit(" ");
    let shown = words.map_values(|w: Seq<char>| quoted(w));
    assert(shown.last() == quoted(words.last()));
    if words.len() == 1 {
        lemma_read_quoted(start(), words[0]);
        assert(shown[0] == quoted(words[0]));
        assert(words.drop_last() =~= start().words);
    } else {
        let t = words.drop_last();
        lemma_read_joined(t);
        assert(shown.drop_last() =~= t.map_values(|w: Seq<char>| quoted(w)));
        let head = seqs::join(shown.drop_last(), " "@);
        let mid = read_text(start(), head);
        lemma_read_append(start(), head, " "@);
        assert(" "@.drop_last() =~= Seq::<char>::empty());
        assert(read_text(mid, " "@.drop_last()) == mid);
        let next = read_text(mid, " "@);
        assert(t.drop_last().push(t.last()) =~= t);
        assert(next == (Reading { words: t, word: None, mode: Mode::Plain, special: false }));
        lemma_read_append(start(), head + " "@, shown.last());
        lemma_read_quoted(next, words.last());
    }
}

} // verus!
