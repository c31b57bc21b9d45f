//! The dotenv codec: identifier checks, value escaping, quote- and
//! comment-aware parsing of `KEY=VALUE` lines, and serialisation.

use vstd::prelude::*;
use crate::items::{line_views, present};
use crate::text::{
    chars_of, find_char, lines_of, split_lines, views, find_from, is_ws, is_ws_char, push_all, slice_chars, string_of, trim,
    trim_chars, trim_start, trim_start_chars,
};

verus! {

/// A character that may start an environment variable name.
pub open spec fn is_label_start(c: char) -> bool {
    ('A' <= c && c <= 'Z') || ('a' <= c && c <= 'z') || c == '_'
}

/// A character that may follow the first one in an environment variable name.
pub open spec fn is_label_char(c: char) -> bool {
    is_label_start(c) || ('0' <= c && c <= '9')
}

/// `s` matches `^[A-Za-z_][A-Za-z0-9_]*$`.
pub open spec fn is_identifier(s: Seq<char>) -> bool {
    s.len() > 0 && is_label_start(s[0]) && forall|i: int|
        1 <= i < s.len() ==> is_label_char(#[trigger] s[i])
}

pub(crate) fn is_name_char(c: char) -> (r: bool)
    ensures
        r == is_label_char(c),
{
    ('A' <= c && c <= 'Z') || ('a' <= c && c <= 'z') || c == '_' || ('0' <= c && c <= '9')
}

pub(crate) fn is_identifier_chars(v: &Vec<char>) -> (r: bool)
    ensures
        r == is_identifier(v@),
{
    if v.len() == 0 {
        return false;
    }
    let c0 = v[0];
    if !(('A' <= c0 && c0 <= 'Z') || ('a' <= c0 && c0 <= 'z') || c0 == '_') {
        return false;
    }
    let mut i: usize = 1;
    while i < v.len()
        invariant
            1 <= i <= v@.len(),
            forall|k: int| 1 <= k < i ==> is_label_char(#[trigger] v@[k]),
        decreases v@.len() - i,
    {
        if !is_name_char(v[i]) {
            assert(!is_label_char(v@[i as int]));
            return false;
        }
        i = i + 1;
    }
    true
}

/// Whether `label` is a legal environment variable name.
pub fn is_valid_label(label: &str) -> (r: bool)
    ensures
        r == is_identifier(label@),
{
    let v = chars_of(label);
    is_identifier_chars(&v)
}

/// How one character is written inside a double-quoted value.
pub open spec fn escape_char(c: char) -> Seq<char> {
    if c == '\\' {
        seq!['\\', '\\']
    } else if c == '"' {
        seq!['\\', '"']
    } else if c == '\n' {
        seq!['\\', 'n']
    } else if c == '\r' {
        seq!['\\', 'r']
    } else {
        seq![c]
    }
}

/// `s` with backslash, double quote, line feed and carriage return escaped.
pub open spec fn escape(s: Seq<char>) -> Seq<char>
    decreases s.len(),
{
    if s.len() == 0 {
        Seq::empty()
    } else {
        escape(s.drop_last()) + escape_char(s.last())
    }
}

pub(crate) fn escape_chars(v: &Vec<char>) -> (r: Vec<char>)
    ensures
        r@ == escape(v@),
{
    let mut out: Vec<char> = Vec::new();
    let mut i: usize = 0;
    while i < v.len()
        invariant
            i <= v@.len(),
            out@ == escape(v@.subrange(0, i as int)),
        decreases v@.len() - i,
    {
        let c = v[i];
        if c == '\\' {
            out.push('\\');
            out.push('\\');
        } else if c == '"' {
            out.push('\\');
            out.push('"');
        } else if c == '\n' {
            out.push('\\');
            out.push('n');
        } else if c == '\r' {
            out.push('\\');
            out.push('r');
        } else {
            out.push(c);
        }
        assert(v@.subrange(0, i + 1 as int).drop_last() == v@.subrange(0, i as int));
        i = i + 1;
        assert(out@ == escape(v@.subrange(0, i as int)));
    }
    assert(v@.subrange(0, v@.len() as int) == v@);
    out
}

/// Escapes a value for a double-quoted dotenv line: backslash, double quote,
/// line feed and carriage return get a backslash form; nothing else changes.
pub fn escape_env_value(s: &str) -> (r: String)
    ensures
        r@ == escape(s@),
{
    let v = chars_of(s);
    let e = escape_chars(&v);
    string_of(&e)
}


/// Where a scan of a value stands with respect to quotes.
#[derive(Clone, Copy, PartialEq, Eq, Structural)]
pub enum QuoteState {
    Plain,
    Single,
    Double,
    DoubleEscaped,
}

/// The quote state after reading `c` in state `q`. Inside double quotes a
/// backslash escapes the next character; inside single quotes nothing does.
pub open spec fn next_quote(q: QuoteState, c: char) -> QuoteState {
    match q {
        QuoteState::Plain => if c == '"' {
            QuoteState::Double
        } else if c == '\'' {
            QuoteState::Single
        } else {
            QuoteState::Plain
        },
        QuoteState::Single => if c == '\'' {
            QuoteState::Plain
        } else {
            QuoteState::Single
        },
        QuoteState::Double => if c == '\\' {
            QuoteState::DoubleEscaped
        } else if c == '"' {
            QuoteState::Plain
        } else {
            QuoteState::Double
        },
        QuoteState::DoubleEscaped => QuoteState::Double,
    }
}

fn step_quote(q: QuoteState, c: char) -> (r: QuoteState)
    ensures
        r == next_quote(q, c),
{
    match q {
        QuoteState::Plain => if c == '"' {
            QuoteState::Double
        } else if c == '\'' {
            QuoteState::Single
        } else {
            QuoteState::Plain
        },
        QuoteState::Single => if c == '\'' {
            QuoteState::Plain
        } else {
            QuoteState::Single
        },
        QuoteState::Double => if c == '\\' {
            QuoteState::DoubleEscaped
        } else if c == '"' {
            QuoteState::Plain
        } else {
            QuoteState::Double
        },
        QuoteState::DoubleEscaped => QuoteState::Double,
    }
}

/// Whether position `i` of `s`, read in state `q`, starts a comment: a `#`
/// outside quotes, at the start or right after whitespace.
pub open spec fn starts_comment(s: Seq<char>, i: int, q: QuoteState) -> bool {
    q == QuoteState::Plain && s[i] == '#' && (i == 0 || is_ws(s[i - 1]))
}

/// Where the comment of `s` begins, scanning from `i` in state `q`; the
/// length of `s` where there is none.
pub open spec fn comment_cut(s: Seq<char>, i: int, q: QuoteState) -> int
    decreases s.len() - i,
{
    if i < 0 || i >= s.len() {
        s.len() as int
    } else if starts_comment(s, i, q) {
        i
    } else {
        comment_cut(s, i + 1, next_quote(q, s[i]))
    }
}

/// `s` without its inline comment.
pub open spec fn strip_comment(s: Seq<char>) -> Seq<char> {
    s.subrange(0, comment_cut(s, 0, QuoteState::Plain))
}

pub(crate) proof fn lemma_comment_cut_bounds(s: Seq<char>, i: int, q: QuoteState)
    requires
        0 <= i,
    ensures
        0 <= comment_cut(s, i, q) <= s.len(),
    decreases s.len() - i,
{
    if i < s.len() && !starts_comment(s, i, q) {
        lemma_comment_cut_bounds(s, i + 1, next_quote(q, s[i]));
    }
}

pub(crate) fn strip_comment_chars(v: &Vec<char>) -> (r: Vec<char>)
    ensures
        r@ == strip_comment(v@),
{
    let mut q = QuoteState::Plain;
    let mut i: usize = 0;
    while i < v.len()
        invariant
            i <= v@.len(),
            comment_cut(v@, i as int, q) == comment_cut(v@, 0, QuoteState::Plain),
        decreases v@.len() - i,
    {
        let c = v[i];
        if q == QuoteState::Plain && c == '#' && (i == 0 || is_ws_char(v[i - 1])) {
            return slice_chars(v, 0, i);
        }
        q = step_quote(q, c);
        i = i + 1;
    }
    slice_chars(v, 0, v.len())
}

/// `t` without one matching pair of outer quotes, if it has one.
pub open spec fn unquote(t: Seq<char>) -> Seq<char> {
    if t.len() >= 2 && (t[0] == '"' || t[0] == '\'') && t.last() == t[0] {
        t.subrange(1, t.len() - 1)
    } else {
        t
    }
}

pub(crate) fn unquote_chars(v: &Vec<char>) -> (r: Vec<char>)
    ensures
        r@ == unquote(v@),
{
    let n = v.len();
    if n >= 2 && (v[0] == '"' || v[0] == '\'') && v[n - 1] == v[0] {
        slice_chars(v, 1, n - 1)
    } else {
        slice_chars(v, 0, n)
    }
}

/// `t` without a leading `export` word that whitespace follows.
pub open spec fn strip_export(t: Seq<char>) -> Seq<char> {
    if t.len() > 6 && t.subrange(0, 6) == seq!['e', 'x', 'p', 'o', 'r', 't'] && is_ws(t[6]) {
        trim_start(t.subrange(6, t.len() as int))
    } else {
        t
    }
}

pub(crate) fn strip_export_chars(v: &Vec<char>) -> (r: Vec<char>)
    ensures
        r@ == strip_export(v@),
{
    if v.len() > 6 && v[0] == 'e' && v[1] == 'x' && v[2] == 'p' && v[3] == 'o' && v[4] == 'r'
        && v[5] == 't' && is_ws_char(v[6]) {
        assert(v@.subrange(0, 6) == seq!['e', 'x', 'p', 'o', 'r', 't']);
        let rest = slice_chars(v, 6, v.len());
        trim_start_chars(&rest)
    } else {
        proof {
            if v@.len() > 6 && v@.subrange(0, 6) == seq!['e', 'x', 'p', 'o', 'r', 't'] {
                assert(v@[0] == v@.subrange(0, 6)[0]);
                assert(v@[1] == v@.subrange(0, 6)[1]);
                assert(v@[2] == v@.subrange(0, 6)[2]);
                assert(v@[3] == v@.subrange(0, 6)[3]);
                assert(v@[4] == v@.subrange(0, 6)[4]);
                assert(v@[5] == v@.subrange(0, 6)[5]);
            }
        }
        slice_chars(v, 0, v.len())
    }
}

/// What one dotenv line declares: `None` for a blank line, a comment, a
/// line without `=` or one whose key is not an identifier.
pub open spec fn parse_line(line: Seq<char>) -> Option<(Seq<char>, Seq<char>)> {
    let t = trim(line);
    if t.len() == 0 || t[0] == '#' {
        None
    } else {
        let u = strip_export(t);
        let e = find_from(u, '=', 0);
        if e < 0 {
            None
        } else {
            let key = u.subrange(0, e);
            if !is_identifier(key) {
                None
            } else {
                Some((key, unquote(trim(strip_comment(u.subrange(e + 1, u.len() as int))))))
            }
        }
    }
}

pub(crate) proof fn lemma_find_from_bounds(s: Seq<char>, c: char, i: int)
    requires
        0 <= i,
    ensures
        find_from(s, c, i) == -1 || (i <= find_from(s, c, i) < s.len() && s[find_from(s, c, i)]
            == c),
    decreases s.len() - i,
{
    if i < s.len() && s[i] != c {
        lemma_find_from_bounds(s, c, i + 1);
    }
}

pub(crate) fn parse_line_chars(line: &Vec<char>) -> (r: Option<(Vec<char>, Vec<char>)>)
    ensures
        match r {
            Some(kv) => parse_line(line@) == Some((kv.0@, kv.1@)),
            None => parse_line(line@).is_none(),
        },
{
    let t = trim_chars(line);
    if t.len() == 0 || t[0] == '#' {
        return None;
    }
    let u = strip_export_chars(&t);
    match find_char(&u, '=') {
        None => None,
        Some(e) => {
            proof {
                lemma_find_from_bounds(u@, '=', 0);
            }
            let key = slice_chars(&u, 0, e);
            if !is_identifier_chars(&key) {
                return None;
            }
            let rest = slice_chars(&u, e + 1, u.len());
            let body = strip_comment_chars(&rest);
            let trimmed = trim_chars(&body);
            let value = unquote_chars(&trimmed);
            Some((key, value))
        },
    }
}

/// Parses one dotenv line into its key and value, or `None` where the line
/// declares nothing (blank, comment, no `=`, key not an identifier).
pub fn parse_dotenv_line(line: &str) -> (r: Option<(String, String)>)
    ensures
        match r {
            Some(kv) => parse_line(line@) == Some((kv.0@, kv.1@)),
            None => parse_line(line@).is_none(),
        },
{
    let v = chars_of(line);
    match parse_line_chars(&v) {
        Some(kv) => Some((string_of(&kv.0), string_of(&kv.1))),
        None => None,
    }
}


/// The character views of a sequence of string pairs.
pub open spec fn pairs_view(v: Seq<(String, String)>) -> Seq<(Seq<char>, Seq<char>)> {
    Seq::new(v.len(), |i: int| (v[i].0@, v[i].1@))
}

/// `acc` without the pairs whose key is `k`, the others in order.
pub open spec fn without_key(acc: Seq<(Seq<char>, Seq<char>)>, k: Seq<char>) -> Seq<
    (Seq<char>, Seq<char>),
>
    decreases acc.len(),
{
    if acc.len() == 0 {
        acc
    } else if acc.last().0 == k {
        without_key(acc.drop_last(), k)
    } else {
        without_key(acc.drop_last(), k).push(acc.last())
    }
}

/// The pairs declared by `lines`, read after `acc`: a key declared again
/// loses its earlier pair and its new pair goes to the end.
pub open spec fn parse_lines(acc: Seq<(Seq<char>, Seq<char>)>, lines: Seq<Seq<char>>) -> Seq<
    (Seq<char>, Seq<char>),
>
    decreases lines.len(),
{
    if lines.len() == 0 {
        acc
    } else {
        let next = match parse_line(lines[0]) {
            Some(kv) => without_key(acc, kv.0).push(kv),
            None => acc,
        };
        parse_lines(next, lines.drop_first())
    }
}

/// The key/value pairs of a dotenv text, in order, each key once.
pub open spec fn dotenv_pairs(text: Seq<char>) -> Seq<(Seq<char>, Seq<char>)> {
    parse_lines(Seq::empty(), lines_of(text))
}

proof fn lemma_pairs_view_push(v: Seq<(String, String)>, p: (String, String))
    ensures
        pairs_view(v.push(p)) == pairs_view(v).push((p.0@, p.1@)),
{
    assert(pairs_view(v.push(p)) =~= pairs_view(v).push((p.0@, p.1@)));
}

fn remove_key(acc: &Vec<(String, String)>, k: &String) -> (r: Vec<(String, String)>)
    ensures
        pairs_view(r@) == without_key(pairs_view(acc@), k@),
{
    let mut out: Vec<(String, String)> = Vec::new();
    let mut i: usize = 0;
    assert(pairs_view(out@) =~= Seq::empty());
    while i < acc.len()
        invariant
            i <= acc@.len(),
            pairs_view(out@) == without_key(pairs_view(acc@).subrange(0, i as int), k@),
        decreases acc@.len() - i,
    {
        assert(pairs_view(acc@).subrange(0, i + 1 as int).drop_last() == pairs_view(
            acc@,
        ).subrange(0, i as int));
        if acc[i].0 == *k {
        } else {
            let p = (acc[i].0.clone(), acc[i].1.clone());
            proof {
                lemma_pairs_view_push(out@, p);
            }
            out.push(p);
        }
        i = i + 1;
    }
    assert(pairs_view(acc@).subrange(0, acc@.len() as int) == pairs_view(acc@));
    out
}

/// Parses a dotenv text into its key/value pairs. Blank lines, comments and
/// lines whose key is not an identifier declare nothing; where a key is
/// declared again the last declaration wins and moves to the end.
pub fn parse_dotenv(text: &str) -> (r: Vec<(String, String)>)
    ensures
        pairs_view(r@) == dotenv_pairs(text@),
{
    let v = chars_of(text);
    let lines = split_lines(&v);
    let mut acc: Vec<(String, String)> = Vec::new();
    let mut i: usize = 0;
    assert(pairs_view(acc@) =~= Seq::empty());
    assert(views(lines@).subrange(0, lines@.len() as int) == views(lines@));
    while i < lines.len()
        invariant
            i <= lines@.len(),
            views(lines@) == lines_of(text@),
            parse_lines(pairs_view(acc@), views(lines@).subrange(i as int, lines@.len() as int))
                == dotenv_pairs(text@),
        decreases lines@.len() - i,
    {
        let ghost rest = views(lines@).subrange(i as int, lines@.len() as int);
        assert(rest.drop_first() == views(lines@).subrange(i + 1 as int, lines@.len() as int));
        assert(rest[0] == lines@[i as int]@);
        match parse_line_chars(&lines[i]) {
            Some(kv) => {
                let k = string_of(&kv.0);
                let val = string_of(&kv.1);
                let mut next = remove_key(&acc, &k);
                proof {
                    lemma_pairs_view_push(next@, (k, val));
                }
                next.push((k, val));
                acc = next;
            },
            None => {},
        }
        i = i + 1;
    }
    acc
}

/// How one pair is written: `KEY=VALUE`, the value bare or double-quoted
/// and escaped.
pub open spec fn render_pair(k: Seq<char>, v: Seq<char>, quoted: bool) -> Seq<char> {
    if quoted {
        k + seq!['='] + seq!['"'] + escape(v) + seq!['"']
    } else {
        k + seq!['='] + v
    }
}

/// The dotenv text of `pairs`: one line for each, each ending in a line feed.
pub open spec fn serialize_pairs(pairs: Seq<(Seq<char>, Seq<char>)>, quoted: bool) -> Seq<char>
    decreases pairs.len(),
{
    if pairs.len() == 0 {
        Seq::empty()
    } else {
        serialize_pairs(pairs.drop_last(), quoted) + render_pair(
            pairs.last().0,
            pairs.last().1,
            quoted,
        ) + seq!['\n']
    }
}

/// Writes `pairs` as dotenv text, one `KEY=VALUE` line each; with `quoted`
/// each value is double-quoted and escaped, otherwise written as it is.
pub fn serialize_dotenv(pairs: &Vec<(String, String)>, quoted: bool) -> (r: String)
    ensures
        r@ == serialize_pairs(pairs_view(pairs@), quoted),
{
    let mut out: Vec<char> = Vec::new();
    let mut i: usize = 0;
    while i < pairs.len()
        invariant
            i <= pairs@.len(),
            out@ == serialize_pairs(pairs_view(pairs@).subrange(0, i as int), quoted),
        decreases pairs@.len() - i,
    {
        assert(pairs_view(pairs@).subrange(0, i + 1 as int).drop_last() == pairs_view(
            pairs@,
        ).subrange(0, i as int));
        let k = chars_of(pairs[i].0.as_str());
        let v = chars_of(pairs[i].1.as_str());
        push_all(&mut out, &k);
        out.push('=');
        if quoted {
            out.push('"');
            let e = escape_chars(&v);
            push_all(&mut out, &e);
            out.push('"');
        } else {
            push_all(&mut out, &v);
        }
        out.push('\n');
        i = i + 1;
        assert(out@ =~= serialize_pairs(pairs_view(pairs@).subrange(0, i as int), quoted));
    }
    assert(pairs_view(pairs@).subrange(0, pairs@.len() as int) == pairs_view(pairs@));
    string_of(&out)
}

/// The key that a line tries to declare and that is not an identifier: the
/// text before the first `=` of a line that is neither blank nor a comment.
pub open spec fn rejected_key(line: Seq<char>) -> Option<Seq<char>> {
    let t = trim(line);
    if t.len() == 0 || t[0] == '#' {
        None
    } else {
        let u = strip_export(t);
        let e = find_from(u, '=', 0);
        if e < 0 || is_identifier(u.subrange(0, e)) {
            None
        } else {
            Some(u.subrange(0, e))
        }
    }
}

/// The keys that the lines of a dotenv text try to declare and that are not
/// identifiers, in line order.
pub open spec fn rejected_keys(text: Seq<char>) -> Seq<Seq<char>> {
    let lines = lines_of(text);
    present(Seq::new(lines.len(), |i: int| rejected_key(lines[i])))
}

fn rejected_key_chars(line: &Vec<char>) -> (r: Option<Vec<char>>)
    ensures
        match r {
            Some(k) => rejected_key(line@) == Some(k@),
            None => rejected_key(line@).is_none(),
        },
{
    let t = trim_chars(line);
    if t.len() == 0 || t[0] == '#' {
        return None;
    }
    let u = strip_export_chars(&t);
    match find_char(&u, '=') {
        None => None,
        Some(e) => {
            proof {
                lemma_find_from_bounds(u@, '=', 0);
            }
            let key = slice_chars(&u, 0, e);
            if is_identifier_chars(&key) {
                None
            } else {
                Some(key)
            }
        },
    }
}

/// The keys of `text` that parsing skips for not being identifiers, in line
/// order, so that a caller can report them.
pub fn rejected_dotenv_keys(text: &str) -> (r: Vec<String>)
    ensures
        line_views(r@) == rejected_keys(text@),
{
    let v = chars_of(text);
    let lines = split_lines(&v);
    let ghost lv = views(lines@);
    let ghost all = Seq::new(lv.len(), |i: int| rejected_key(lv[i]));
    let mut out: Vec<String> = Vec::new();
    let mut i: usize = 0;
    assert(line_views(out@) =~= Seq::empty());
    while i < lines.len()
        invariant
            i <= lines@.len(),
            lv == views(lines@),
            lv == lines_of(text@),
            all == Seq::new(lv.len(), |i: int| rejected_key(lv[i])),
            line_views(out@) == present(all.subrange(0, i as int)),
        decreases lines@.len() - i,
    {
        assert(all.subrange(0, i + 1 as int).drop_last() == all.subrange(0, i as int));
        assert(lv[i as int] == lines@[i as int]@);
        let ghost before = out@;
        match rejected_key_chars(&lines[i]) {
            Some(k) => {
                let ks = string_of(&k);
                out.push(ks);
                assert(line_views(out@) =~= line_views(before).push(k@));
            },
            None => {},
        }
        i = i + 1;
    }
    assert(all.subrange(0, all.len() as int) == all);
    out
}

} // verus!
