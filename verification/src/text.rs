//! Character-level text handling shared by the dictionary file format, the
//! search-path list and the context trimming of the conversion service.
//!
//! Each executable function here is proved equal to a spec function over
//! `Seq<char>`, so the formats built on top of them can be reasoned about as
//! sequences of characters.
use vstd::prelude::*;

verus! {

/// The Unicode `White_Space` property: exactly the characters for which
/// `char::is_whitespace` returns `true`.
pub open spec fn is_ws(c: char) -> bool {
    let u = c as u32;
    ||| 0x09 <= u <= 0x0D
    ||| u == 0x20
    ||| u == 0x85
    ||| u == 0xA0
    ||| u == 0x1680
    ||| 0x2000 <= u <= 0x200A
    ||| u == 0x2028
    ||| u == 0x2029
    ||| u == 0x202F
    ||| u == 0x205F
    ||| u == 0x3000
}

/// A text is blank when trimming its whitespace leaves nothing, that is,
/// when every one of its characters is whitespace.
pub open spec fn is_blank(s: Seq<char>) -> bool {
    forall|i: int| 0 <= i < s.len() ==> is_ws(#[trigger] s[i])
}

/// `c` does not occur in `s`.
pub open spec fn lacks(s: Seq<char>, c: char) -> bool {
    forall|i: int| 0 <= i < s.len() ==> #[trigger] s[i] != c
}

/// Index of the first occurrence of `c` in `s`, or `s.len()` when there is none.
pub open spec fn char_pos(s: Seq<char>, c: char) -> nat
    decreases s.len(),
{
    if s.len() == 0 {
        0
    } else if s[0] == c {
        0
    } else {
        1 + char_pos(s.drop_first(), c)
    }
}

/// The pieces of `s` between occurrences of `sep`, as `str::split` with a
/// `char` pattern yields them: there is always at least one piece, and two
/// adjacent separators give an empty piece.
pub open spec fn split_at_char(s: Seq<char>, sep: char) -> Seq<Seq<char>>
    decreases s.len(),
{
    let p = char_pos(s, sep);
    if p >= s.len() {
        seq![s]
    } else {
        seq![s.take(p as int)] + split_at_char(s.skip(p as int + 1), sep)
    }
}

/// Drops one carriage return at the end of a line.
pub open spec fn strip_cr(s: Seq<char>) -> Seq<char> {
    if s.len() > 0 && s.last() == '\r' {
        s.drop_last()
    } else {
        s
    }
}

/// The lines of `s`, as `str::lines` yields them: split at each `'\n'`, a
/// `'\r'` right before a `'\n'` is dropped, and a final line ending adds no
/// empty line.
pub open spec fn lines_of(s: Seq<char>) -> Seq<Seq<char>>
    decreases s.len(),
{
    let p = char_pos(s, '\n');
    if s.len() == 0 {
        seq![]
    } else if p >= s.len() {
        seq![s]
    } else {
        seq![strip_cr(s.take(p as int))] + lines_of(s.skip(p as int + 1))
    }
}

pub proof fn lemma_char_pos_bounds(s: Seq<char>, c: char)
    ensures
        char_pos(s, c) <= s.len(),
        char_pos(s, c) < s.len() ==> s[char_pos(s, c) as int] == c,
        forall|i: int| 0 <= i < char_pos(s, c) ==> #[trigger] s[i] != c,
    decreases s.len(),
{
    if s.len() > 0 && s[0] != c {
        lemma_char_pos_bounds(s.drop_first(), c);
        assert forall|i: int| 0 <= i < char_pos(s, c) implies #[trigger] s[i] != c by {
            if i > 0 {
                assert(s[i] == s.drop_first()[i - 1]);
            }
        }
    }
}

pub proof fn lemma_char_pos_absent(s: Seq<char>, c: char)
    requires
        lacks(s, c),
    ensures
        char_pos(s, c) == s.len(),
{
    lemma_char_pos_bounds(s, c);
}

pub proof fn lemma_char_pos_concat(a: Seq<char>, b: Seq<char>, c: char)
    requires
        lacks(a, c),
    ensures
        char_pos(a + b, c) == a.len() + char_pos(b, c),
    decreases a.len(),
{
    if a.len() > 0 {
        assert((a + b)[0] == a[0]);
        assert((a + b).drop_first() =~= a.drop_first() + b);
        lemma_char_pos_concat(a.drop_first(), b, c);
    } else {
        assert(a + b =~= b);
    }
}

/// Splitting a text that starts with a separator-free piece and a separator.
pub proof fn lemma_split_step(cur: Seq<char>, rest: Seq<char>, sep: char)
    requires
        lacks(cur, sep),
    ensures
        split_at_char(cur + seq![sep] + rest, sep) == seq![cur] + split_at_char(rest, sep),
{
    let s = cur + seq![sep] + rest;
    assert(s =~= cur + (seq![sep] + rest));
    lemma_char_pos_concat(cur, seq![sep] + rest, sep);
    assert(char_pos(seq![sep] + rest, sep) == 0);
    assert(s.take(cur.len() as int) =~= cur);
    assert(s.skip(cur.len() as int + 1) =~= rest);
}

/// A text without separators is a single piece.
pub proof fn lemma_split_single(s: Seq<char>, sep: char)
    requires
        lacks(s, sep),
    ensures
        split_at_char(s, sep) == seq![s],
{
    lemma_char_pos_absent(s, sep);
}

/// Line splitting of a text that starts with a line and its line feed.
pub proof fn lemma_lines_step(cur: Seq<char>, rest: Seq<char>)
    requires
        lacks(cur, '\n'),
    ensures
        lines_of(cur + seq!['\n'] + rest) == seq![strip_cr(cur)] + lines_of(rest),
{
    let s = cur + seq!['\n'] + rest;
    assert(s =~= cur + (seq!['\n'] + rest));
    lemma_char_pos_concat(cur, seq!['\n'] + rest, '\n');
    assert(char_pos(seq!['\n'] + rest, '\n') == 0);
    assert(s.take(cur.len() as int) =~= cur);
    assert(s.skip(cur.len() as int + 1) =~= rest);
}

/// A text without line feeds is one line, or none when it is empty.
pub proof fn lemma_lines_last(s: Seq<char>)
    requires
        lacks(s, '\n'),
    ensures
        lines_of(s) == (if s.len() == 0 {
            Seq::<Seq<char>>::empty()
        } else {
            seq![s]
        }),
{
    lemma_char_pos_absent(s, '\n');
}

/// The lines of two texts laid end to end, where the first one is empty or
/// ends with a line feed.
pub proof fn lemma_lines_concat(a: Seq<char>, b: Seq<char>)
    requires
        a.len() == 0 || a.last() == '\n',
    ensures
        lines_of(a + b) == lines_of(a) + lines_of(b),
    decreases a.len(),
{
    if a.len() == 0 {
        assert(a + b =~= b);
        assert(lines_of(a) + lines_of(b) =~= lines_of(b));
    } else {
        let p = char_pos(a, '\n');
        lemma_char_pos_bounds(a, '\n');
        let cur = a.take(p as int);
        let tail = a.skip(p as int + 1);
        assert(lacks(cur, '\n'));
        assert(a =~= cur + seq!['\n'] + tail);
        assert(a + b =~= cur + seq!['\n'] + (tail + b));
        lemma_lines_step(cur, tail);
        lemma_lines_step(cur, tail + b);
        if tail.len() > 0 {
            assert(tail.last() == a.last());
        }
        lemma_lines_concat(tail, b);
        assert(lines_of(a + b) =~= lines_of(a) + lines_of(b));
    }
}

#[verifier::external_body]
/// Appends one character, as `String::push` does.
pub(crate) fn push_char(s: &mut String, c: char)
    ensures
        final(s)@ == old(s)@.push(c),
{
    s.push(c);
}

#[verifier::external_body]
/// Removes the last character, as `String::pop` does.
fn pop_char(s: &mut String) -> (r: Option<char>)
    ensures
        old(s)@.len() == 0 ==> r is None && final(s)@ == old(s)@,
        old(s)@.len() > 0 ==> r == Some(old(s)@.last()) && final(s)@ == old(s)@.drop_last(),
{
    s.pop()
}

/// Appends a whole text to a string.
pub fn push_text(s: &mut String, t: &str)
    ensures
        final(s)@ == old(s)@ + t@,
{
    for c in it: t.chars()
        invariant
            it.seq() == t@,
            s@ == old(s)@ + t@.take(it.index() as int),
    {
        proof {
            assert(t@.take(it.index() + 1) =~= t@.take(it.index() as int).push(c));
        }
        push_char(s, c);
    }
    proof {
        assert(t@.take(t@.len() as int) =~= t@);
    }
}

/// Whether `c` is whitespace, as `char::is_whitespace` decides it.
pub fn is_whitespace(c: char) -> (r: bool)
    ensures
        r == is_ws(c),
{
    let u = c as u32;
    (0x09 <= u && u <= 0x0D) || u == 0x20 || u == 0x85 || u == 0xA0 || u == 0x1680 || (0x2000
        <= u && u <= 0x200A) || u == 0x2028 || u == 0x2029 || u == 0x202F || u == 0x205F || u
        == 0x3000
}

/// Whether `s.trim()` is empty.
pub fn is_blank_text(s: &str) -> (r: bool)
    ensures
        r == is_blank(s@),
{
    for c in it: s.chars()
        invariant
            it.seq() == s@,
            forall|i: int| 0 <= i < it.index() ==> is_ws(#[trigger] s@[i]),
    {
        if !is_whitespace(c) {
            return false;
        }
    }
    true
}

/// Whether `s` starts with `c`.
pub fn starts_with_char(s: &str, c: char) -> (r: bool)
    ensures
        r == (s@.len() > 0 && s@[0] == c),
{
    for d in it: s.chars()
        invariant
            it.seq() == s@,
            it.index() == 0,
    {
        return d == c;
    }
    false
}

/// The characters of `s` in order.
pub fn chars_of(s: &str) -> (r: Vec<char>)
    ensures
        r@ == s@,
{
    let mut r: Vec<char> = Vec::new();
    for c in it: s.chars()
        invariant
            it.seq() == s@,
            r@ == s@.take(it.index() as int),
    {
        proof {
            assert(s@.take(it.index() + 1) =~= s@.take(it.index() as int).push(c));
        }
        r.push(c);
    }
    proof {
        assert(s@.take(s@.len() as int) =~= s@);
    }
    r
}

/// `s.split(sep)`, collected.
pub fn split_char(s: &str, sep: char) -> (r: Vec<String>)
    ensures
        r.deep_view() == split_at_char(s@, sep),
{
    let mut parts: Vec<String> = Vec::new();
    let mut cur = String::new();
    proof {
        assert(cur@ + s@.skip(0) =~= s@);
        assert(parts.deep_view() + split_at_char(s@, sep) =~= split_at_char(s@, sep));
    }
    for c in it: s.chars()
        invariant
            it.seq() == s@,
            lacks(cur@, sep),
            split_at_char(s@, sep) == parts.deep_view() + split_at_char(
                cur@ + s@.skip(it.index() as int),
                sep,
            ),
    {
        let ghost k = it.index() as int;
        let ghost before = parts.deep_view();
        if c == sep {
            proof {
                assert(cur@ + s@.skip(k) =~= cur@ + seq![sep] + s@.skip(k + 1));
                lemma_split_step(cur@, s@.skip(k + 1), sep);
                assert(Seq::<char>::empty() + s@.skip(k + 1) =~= s@.skip(k + 1));
            }
            let ghost piece = cur@;
            parts.push(cur);
            cur = String::new();
            proof {
                assert(parts.deep_view() =~= before + seq![piece]);
            }
        } else {
            proof {
                assert(cur@.push(c) + s@.skip(k + 1) =~= cur@ + s@.skip(k));
            }
            push_char(&mut cur, c);
        }
    }
    proof {
        assert(cur@ + s@.skip(s@.len() as int) =~= cur@);
        lemma_split_single(cur@, sep);
    }
    let ghost before = parts.deep_view();
    let ghost piece = cur@;
    parts.push(cur);
    proof {
        assert(parts.deep_view() =~= before + seq![piece]);
    }
    parts
}

/// `s.lines()`, collected.
pub fn split_lines(s: &str) -> (r: Vec<String>)
    ensures
        r.deep_view() == lines_of(s@),
{
    let mut lines: Vec<String> = Vec::new();
    let mut cur = String::new();
    let mut ends_with_cr = false;
    proof {
        assert(cur@ + s@.skip(0) =~= s@);
        assert(lines.deep_view() + lines_of(s@) =~= lines_of(s@));
    }
    for c in it: s.chars()
        invariant
            it.seq() == s@,
            lacks(cur@, '\n'),
            ends_with_cr == (cur@.len() > 0 && cur@.last() == '\r'),
            lines_of(s@) == lines.deep_view() + lines_of(cur@ + s@.skip(it.index() as int)),
    {
        let ghost k = it.index() as int;
        let ghost before = lines.deep_view();
        if c == '\n' {
            proof {
                assert(cur@ + s@.skip(k) =~= cur@ + seq!['\n'] + s@.skip(k + 1));
                lemma_lines_step(cur@, s@.skip(k + 1));
                assert(Seq::<char>::empty() + s@.skip(k + 1) =~= s@.skip(k + 1));
            }
            let ghost unstripped = cur@;
            if ends_with_cr {
                pop_char(&mut cur);
            }
            let ghost line = cur@;
            assert(line == strip_cr(unstripped));
            lines.push(cur);
            cur = String::new();
            ends_with_cr = false;
            proof {
                assert(lines.deep_view() =~= before + seq![line]);
            }
        } else {
            proof {
                assert(cur@.push(c) + s@.skip(k + 1) =~= cur@ + s@.skip(k));
            }
            push_char(&mut cur, c);
            ends_with_cr = c == '\r';
        }
    }
    proof {
        assert(cur@ + s@.skip(s@.len() as int) =~= cur@);
        lemma_lines_last(cur@);
    }
    if cur.as_str().is_empty() {
        proof {
            assert(lines.deep_view() + Seq::<Seq<char>>::empty() =~= lines.deep_view());
        }
    } else {
        let ghost before = lines.deep_view();
        let ghost line = cur@;
        lines.push(cur);
        proof {
            assert(lines.deep_view() =~= before + seq![line]);
        }
    }
    lines
}

/// `s` holds a tab, a line feed or a carriage return.
pub open spec fn has_break_or_tab(s: Seq<char>) -> bool {
    !lacks(s, '\t') || !lacks(s, '\n') || !lacks(s, '\r')
}

/// Whether `s` holds a tab, a line feed or a carriage return.
pub fn contains_break_or_tab(s: &str) -> (r: bool)
    ensures
        r == has_break_or_tab(s@),
{
    for c in it: s.chars()
        invariant
            it.seq() == s@,
            forall|i: int| 0 <= i < it.index() ==> #[trigger] s@[i] != '\t' && s@[i] != '\n' && s@[i] != '\r',
    {
        if c == '\t' || c == '\n' || c == '\r' {
            assert(s@[it.index() as int] == c);
            return true;
        }
    }
    false
}

/// Whether two texts are the same.
pub fn same_text(a: &str, b: &str) -> (r: bool)
    ensures
        r == (a@ == b@),
{
    let x = chars_of(a);
    let y = chars_of(b);
    if x.len() != y.len() {
        return false;
    }
    let n = x.len();
    for i in 0..n
        invariant
            n == x.len(),
            n == y.len(),
            x@ == a@,
            y@ == b@,
            forall|k: int| 0 <= k < i ==> x@[k] == y@[k],
    {
        if x[i] != y[i] {
            return false;
        }
    }
    assert(a@ =~= b@);
    true
}

} // verus!
