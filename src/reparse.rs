//! What survives a round trip through the dotenv codec: parsing the
//! serialisation of a text's pairs gives back the same keys, in order.

use vstd::prelude::*;
use crate::dotenv::{
    dotenv_pairs, escape, escape_char, is_identifier, is_label_char, is_label_start, parse_line,
    parse_lines, render_pair, serialize_pairs, strip_comment, strip_export, unquote, without_key,
};
use crate::env_file::{lemma_lines_from_single, lemma_lines_of_render, render, single_line};
use crate::text::{find_from, is_ws, lines_of, trim, trim_end, trim_start};

verus! {

/// The keys of a sequence of pairs, in order.
pub open spec fn keys_of(p: Seq<(Seq<char>, Seq<char>)>) -> Seq<Seq<char>> {
    Seq::new(p.len(), |i: int| p[i].0)
}

/// Pairs as parsing yields them: identifier keys, values without a line
/// feed, each key once.
pub open spec fn well_formed_pairs(p: Seq<(Seq<char>, Seq<char>)>) -> bool {
    &&& forall|i: int| 0 <= i < p.len() ==> is_identifier(#[trigger] p[i].0) && single_line(p[i].1)
    &&& forall|i: int, j: int| 0 <= i < j < p.len() ==> (#[trigger] p[i].0) != (#[trigger] p[j].0)
}

/// The lines that serialising `p` writes, without their line feeds.
pub open spec fn rendered(p: Seq<(Seq<char>, Seq<char>)>, quoted: bool) -> Seq<Seq<char>> {
    Seq::new(p.len(), |i: int| render_pair(p[i].0, p[i].1, quoted))
}

proof fn lemma_single_subrange(s: Seq<char>, a: int, b: int)
    requires
        single_line(s),
        0 <= a <= b <= s.len(),
    ensures
        single_line(s.subrange(a, b)),
{
    assert forall|i: int| 0 <= i < s.subrange(a, b).len() implies s.subrange(a, b)[i] != '\n' by {
        assert(s.subrange(a, b)[i] == s[a + i]);
    }
}

proof fn lemma_trim_start_single(s: Seq<char>)
    requires
        single_line(s),
    ensures
        single_line(trim_start(s)),
    decreases s.len(),
{
    if s.len() > 0 && is_ws(s[0]) {
        lemma_single_subrange(s, 1, s.len() as int);
        assert(s.drop_first() == s.subrange(1, s.len() as int));
        lemma_trim_start_single(s.drop_first());
    }
}

proof fn lemma_trim_end_single(s: Seq<char>)
    requires
        single_line(s),
    ensures
        single_line(trim_end(s)),
    decreases s.len(),
{
    if s.len() > 0 && is_ws(s.last()) {
        lemma_single_subrange(s, 0, s.len() - 1);
        assert(s.drop_last() == s.subrange(0, s.len() - 1));
        lemma_trim_end_single(s.drop_last());
    }
}

proof fn lemma_trim_single(s: Seq<char>)
    requires
        single_line(s),
    ensures
        single_line(trim(s)),
{
    lemma_trim_start_single(s);
    lemma_trim_end_single(trim_start(s));
}

proof fn lemma_comment_cut_le(s: Seq<char>)
    ensures
        0 <= crate::dotenv::comment_cut(s, 0, crate::dotenv::QuoteState::Plain) <= s.len(),
{
    crate::dotenv::lemma_comment_cut_bounds(s, 0, crate::dotenv::QuoteState::Plain);
}

proof fn lemma_parse_line_single(line: Seq<char>)
    requires
        single_line(line),
    ensures
        parse_line(line) matches Some(kv) ==> single_line(kv.1),
{
    let t = trim(line);
    lemma_trim_single(line);
    if t.len() > 0 && t[0] != '#' {
        let u = strip_export(t);
        if t.len() > 6 && t.subrange(0, 6) == seq!['e', 'x', 'p', 'o', 'r', 't'] && is_ws(t[6]) {
            lemma_single_subrange(t, 6, t.len() as int);
            lemma_trim_start_single(t.subrange(6, t.len() as int));
        }
        assert(single_line(u));
        let e = find_from(u, '=', 0);
        crate::dotenv::lemma_find_from_bounds(u, '=', 0);
        if e >= 0 {
            let rest = u.subrange(e + 1, u.len() as int);
            lemma_single_subrange(u, e + 1, u.len() as int);
            lemma_comment_cut_le(rest);
            let c = crate::dotenv::comment_cut(rest, 0, crate::dotenv::QuoteState::Plain);
            lemma_single_subrange(rest, 0, c);
            assert(strip_comment(rest) == rest.subrange(0, c));
            let tr = trim(strip_comment(rest));
            lemma_trim_single(strip_comment(rest));
            if tr.len() >= 2 && (tr[0] == '"' || tr[0] == '\'') && tr.last() == tr[0] {
                lemma_single_subrange(tr, 1, tr.len() - 1);
            }
            assert(single_line(unquote(tr)));
        }
    }
}

proof fn lemma_label_char_plain(c: char)
    requires
        is_label_char(c),
    ensures
        !is_ws(c),
        c != '=',
        c != '#',
        c != '\n',
{
}

proof fn lemma_identifier_single(k: Seq<char>)
    requires
        is_identifier(k),
    ensures
        single_line(k),
        forall|i: int| 0 <= i < k.len() ==> is_label_char(#[trigger] k[i]),
{
    assert forall|i: int| 0 <= i < k.len() implies is_label_char(#[trigger] k[i]) by {
        if i > 0 {
            assert(is_label_char(k[i]));
        }
    }
    assert forall|i: int| 0 <= i < k.len() implies k[i] != '\n' by {
        lemma_label_char_plain(k[i]);
    }
}

proof fn lemma_without_key(acc: Seq<(Seq<char>, Seq<char>)>, k: Seq<char>)
    ensures
        forall|i: int|
            0 <= i < without_key(acc, k).len() ==> (#[trigger] without_key(acc, k)[i]).0 != k
                && acc.contains(without_key(acc, k)[i]),
        well_formed_pairs(acc) ==> well_formed_pairs(without_key(acc, k)),
    decreases acc.len(),
{
    if acc.len() > 0 {
        let d = acc.drop_last();
        lemma_without_key(d, k);
        let wd = without_key(d, k);
        assert forall|i: int| 0 <= i < wd.len() implies acc.contains(#[trigger] wd[i]) by {
            let j = choose|j: int| 0 <= j < d.len() && d[j] == wd[i];
            assert(acc[j] == d[j]);
        }
        if well_formed_pairs(acc) {
            assert forall|i: int, j: int| 0 <= i < j < d.len() implies (#[trigger] d[i].0) != (
            #[trigger] d[j].0) by {
                assert(d[i] == acc[i] && d[j] == acc[j]);
            }
            assert forall|i: int| 0 <= i < d.len() implies is_identifier(#[trigger] d[i].0)
                && single_line(d[i].1) by {
                assert(d[i] == acc[i]);
            }
        }
        if acc.last().0 != k {
            let w = wd.push(acc.last());
            assert(without_key(acc, k) == w);
            assert forall|i: int| 0 <= i < w.len() implies (#[trigger] w[i]).0 != k && acc.contains(
                w[i],
            ) by {
                if i == wd.len() {
                    assert(acc[acc.len() - 1] == acc.last());
                } else {
                    assert(w[i] == wd[i]);
                }
            }
            if well_formed_pairs(acc) {
                assert forall|i: int, j: int| 0 <= i < j < w.len() implies (#[trigger] w[i].0) != (
                #[trigger] w[j].0) by {
                    if j == wd.len() {
                        assert(w[i] == wd[i]);
                        let m = choose|m: int| 0 <= m < d.len() && d[m] == wd[i];
                        assert(d[m] == acc[m]);
                        assert(acc[m].0 != acc[acc.len() - 1].0);
                    } else {
                        assert(w[i] == wd[i] && w[j] == wd[j]);
                    }
                }
                assert forall|i: int| 0 <= i < w.len() implies is_identifier(#[trigger] w[i].0)
                    && single_line(w[i].1) by {
                    if i == wd.len() {
                        assert(acc[acc.len() - 1] == acc.last());
                    } else {
                        assert(w[i] == wd[i]);
                    }
                }
            }
        }
    }
}

proof fn lemma_without_absent(acc: Seq<(Seq<char>, Seq<char>)>, k: Seq<char>)
    requires
        forall|i: int| 0 <= i < acc.len() ==> (#[trigger] acc[i]).0 != k,
    ensures
        without_key(acc, k) == acc,
    decreases acc.len(),
{
    if acc.len() > 0 {
        assert(acc[acc.len() - 1].0 != k);
        lemma_without_absent(acc.drop_last(), k);
        assert(acc.drop_last().push(acc.last()) =~= acc);
    }
}

proof fn lemma_parse_lines_wf(acc: Seq<(Seq<char>, Seq<char>)>, lines: Seq<Seq<char>>)
    requires
        well_formed_pairs(acc),
        forall|t: int| 0 <= t < lines.len() ==> single_line(#[trigger] lines[t]),
    ensures
        well_formed_pairs(parse_lines(acc, lines)),
    decreases lines.len(),
{
    if lines.len() > 0 {
        assert forall|t: int| 0 <= t < lines.drop_first().len() implies single_line(
            #[trigger] lines.drop_first()[t],
        ) by {
            assert(lines.drop_first()[t] == lines[t + 1]);
        }
        assert(single_line(lines[0]));
        lemma_parse_line_single(lines[0]);
        match parse_line(lines[0]) {
            Some(kv) => {
                lemma_without_key(acc, kv.0);
                let w = without_key(acc, kv.0);
                let next = w.push(kv);
                assert forall|i: int, j: int| 0 <= i < j < next.len() implies (
                #[trigger] next[i].0) != (#[trigger] next[j].0) by {
                    if j == w.len() {
                        assert(next[i] == w[i]);
                    } else {
                        assert(next[i] == w[i] && next[j] == w[j]);
                    }
                }
                assert forall|i: int| 0 <= i < next.len() implies is_identifier(#[trigger] next[i].0)
                    && single_line(next[i].1) by {
                    if i < w.len() {
                        assert(next[i] == w[i]);
                    }
                }
                lemma_parse_lines_wf(next, lines.drop_first());
            },
            None => {
                lemma_parse_lines_wf(acc, lines.drop_first());
            },
        }
    }
}

proof fn lemma_escape_single(v: Seq<char>)
    ensures
        single_line(escape(v)),
    decreases v.len(),
{
    if v.len() > 0 {
        lemma_escape_single(v.drop_last());
        let e = escape(v.drop_last());
        let c = escape_char(v.last());
        assert(single_line(c));
        assert forall|i: int| 0 <= i < (e + c).len() implies (e + c)[i] != '\n' by {
            if i < e.len() {
                assert((e + c)[i] == e[i]);
            } else {
                assert((e + c)[i] == c[i - e.len()]);
            }
        }
    }
}

/// The part of a rendered pair after its `=`.
pub open spec fn render_tail(v: Seq<char>, quoted: bool) -> Seq<char> {
    if quoted {
        seq!['"'] + escape(v) + seq!['"']
    } else {
        v
    }
}

proof fn lemma_render_pair_shape(k: Seq<char>, v: Seq<char>, quoted: bool)
    requires
        is_identifier(k),
        single_line(v),
    ensures
        render_pair(k, v, quoted) == k + seq!['='] + render_tail(v, quoted),
        single_line(render_pair(k, v, quoted)),
{
    assert(render_pair(k, v, quoted) =~= k + seq!['='] + render_tail(v, quoted));
    lemma_identifier_single(k);
    lemma_escape_single(v);
    let tail = render_tail(v, quoted);
    assert(single_line(tail));
    let s = k + seq!['='] + tail;
    assert forall|i: int| 0 <= i < s.len() implies s[i] != '\n' by {
        if i < k.len() {
            assert(s[i] == k[i]);
        } else if i == k.len() {
            assert(s[i] == '=');
        } else {
            assert(s[i] == tail[i - k.len() - 1]);
        }
    }
}

proof fn lemma_trim_end_prefix(s: Seq<char>, i: int)
    requires
        0 <= i < s.len(),
        !is_ws(s[i]),
    ensures
        i < trim_end(s).len() <= s.len(),
        trim_end(s) == s.subrange(0, trim_end(s).len() as int),
    decreases s.len(),
{
    if s.len() > 0 && is_ws(s.last()) {
        let d = s.drop_last();
        assert(i < d.len());
        assert(d[i] == s[i]);
        lemma_trim_end_prefix(d, i);
        assert(trim_end(s) == trim_end(d));
        assert(d.subrange(0, trim_end(d).len() as int) =~= s.subrange(
            0,
            trim_end(d).len() as int,
        ));
    } else {
        assert(s.subrange(0, s.len() as int) =~= s);
    }
}

proof fn lemma_find_first(s: Seq<char>, c: char, i: int, j: int)
    requires
        0 <= i <= j < s.len(),
        s[j] == c,
        forall|m: int| i <= m < j ==> s[m] != c,
    ensures
        find_from(s, c, i) == j,
    decreases j - i,
{
    if i < j {
        lemma_find_first(s, c, i + 1, j);
    }
}

pub(crate) proof fn lemma_parse_keyed_line(k: Seq<char>, tail: Seq<char>)
    requires
        is_identifier(k),
    ensures
        parse_line(k + seq!['='] + tail) matches Some(kv) && kv.0 == k,
{
    let line = k + seq!['='] + tail;
    let n = k.len() as int;
    lemma_identifier_single(k);
    assert(line[0] == k[0]);
    lemma_label_char_plain(k[0]);
    assert(trim_start(line) == line);
    assert(line[n] == '=');
    lemma_trim_end_prefix(line, n);
    let t = trim(line);
    assert(t == trim_end(line));
    assert(t.len() > n);
    assert forall|m: int| 0 <= m < t.len() implies t[m] == line[m] by {
        assert(t[m] == line.subrange(0, t.len() as int)[m]);
    }
    assert(t[0] == k[0]);
    assert(t[n] == '=');
    assert forall|m: int| 0 <= m < n implies t[m] == k[m] && is_label_char(k[m]) by {
        assert(line[m] == k[m]);
    }
    // no `export` word to strip
    if t.len() > 6 && t.subrange(0, 6) == seq!['e', 'x', 'p', 'o', 'r', 't'] && is_ws(t[6]) {
        if n >= 7 {
            lemma_label_char_plain(k[6]);
        } else if n == 6 {
        } else {
            assert(t.subrange(0, 6)[n] == t[n]);
        }
    }
    assert(strip_export(t) == t);
    assert forall|m: int| 0 <= m < n implies t[m] != '=' by {
        lemma_label_char_plain(k[m]);
    }
    lemma_find_first(t, '=', 0, n);
    assert(t.subrange(0, n) =~= k);
}

proof fn lemma_serialize_render(p: Seq<(Seq<char>, Seq<char>)>, quoted: bool)
    ensures
        serialize_pairs(p, quoted) == render(rendered(p, quoted)),
    decreases p.len(),
{
    if p.len() > 0 {
        lemma_serialize_render(p.drop_last(), quoted);
        assert(rendered(p.drop_last(), quoted) =~= rendered(p, quoted).drop_last());
    } else {
        assert(rendered(p, quoted) =~= Seq::<Seq<char>>::empty());
    }
}

proof fn lemma_parse_rendered(
    acc: Seq<(Seq<char>, Seq<char>)>,
    p: Seq<(Seq<char>, Seq<char>)>,
    quoted: bool,
)
    requires
        well_formed_pairs(p),
        forall|i: int, j: int| 0 <= i < acc.len() && 0 <= j < p.len() ==> (#[trigger] acc[i].0) != (
        #[trigger] p[j].0),
    ensures
        keys_of(parse_lines(acc, rendered(p, quoted).push(Seq::empty()))) == keys_of(acc)
            + keys_of(p),
    decreases p.len(),
{
    let lines = rendered(p, quoted).push(Seq::empty());
    if p.len() == 0 {
        assert(lines.drop_first() =~= Seq::<Seq<char>>::empty());
        assert(trim(lines[0]) =~= Seq::<char>::empty());
        assert(keys_of(p) =~= Seq::<Seq<char>>::empty());
        assert(keys_of(acc) + keys_of(p) =~= keys_of(acc));
        assert(parse_line(lines[0]).is_none());
        assert(parse_lines(acc, lines) == parse_lines(acc, lines.drop_first()));
        assert(parse_lines(acc, lines.drop_first()) == acc);
    } else {
        let k = p[0].0;
        lemma_render_pair_shape(k, p[0].1, quoted);
        lemma_parse_keyed_line(k, render_tail(p[0].1, quoted));
        assert(lines[0] == render_pair(k, p[0].1, quoted));
        let kv = parse_line(lines[0])->0;
        assert forall|i: int| 0 <= i < acc.len() implies (#[trigger] acc[i]).0 != k by {
            assert(acc[i].0 != p[0].0);
        }
        lemma_without_absent(acc, k);
        let next = acc.push(kv);
        let rest = p.drop_first();
        assert(lines.drop_first() =~= rendered(rest, quoted).push(Seq::empty()));
        assert forall|i: int, j: int| 0 <= i < rest.len() && 0 <= j < i implies (
        #[trigger] rest[j].0) != (#[trigger] rest[i].0) by {
            assert(rest[j] == p[j + 1] && rest[i] == p[i + 1]);
        }
        assert forall|i: int| 0 <= i < rest.len() implies is_identifier(#[trigger] rest[i].0)
            && single_line(rest[i].1) by {
            assert(rest[i] == p[i + 1]);
        }
        assert forall|i: int, j: int| 0 <= i < next.len() && 0 <= j < rest.len() implies (
        #[trigger] next[i].0) != (#[trigger] rest[j].0) by {
            assert(rest[j] == p[j + 1]);
            if i < acc.len() {
                assert(next[i] == acc[i]);
            } else {
                assert(next[i].0 == p[0].0);
            }
        }
        assert(kv.0 == k);
        assert(without_key(acc, kv.0).push(kv) == next);
        assert(parse_lines(acc, lines) == parse_lines(next, lines.drop_first()));
        lemma_parse_rendered(next, rest, quoted);
        assert(keys_of(next) =~= keys_of(acc).push(k));
        assert(keys_of(acc) + keys_of(p) =~= keys_of(acc).push(k) + keys_of(rest));
    }
}

/// The pairs parsed from any dotenv text have identifier keys, each key
/// once, and values without a line feed.
pub proof fn lemma_parsed_pairs_well_formed(text: Seq<char>)
    ensures
        well_formed_pairs(dotenv_pairs(text)),
{
    lemma_lines_from_single(text, Seq::empty());
    assert(single_line(Seq::<char>::empty()));
    let empty: Seq<(Seq<char>, Seq<char>)> = Seq::empty();
    lemma_parse_lines_wf(empty, lines_of(text));
}

/// Parsing the serialisation of the pairs of a dotenv text, bare or quoted,
/// yields the same keys in the same order: duplicate removal is stable
/// across re-parses.
pub proof fn lemma_reparse_keeps_keys(text: Seq<char>, quoted: bool)
    ensures
        keys_of(dotenv_pairs(serialize_pairs(dotenv_pairs(text), quoted))) == keys_of(
            dotenv_pairs(text),
        ),
{
    let p = dotenv_pairs(text);
    lemma_lines_from_single(text, Seq::empty());
    assert(single_line(Seq::<char>::empty()));
    let empty: Seq<(Seq<char>, Seq<char>)> = Seq::empty();
    lemma_parse_lines_wf(empty, lines_of(text));
    lemma_serialize_render(p, quoted);
    let r = rendered(p, quoted);
    assert forall|t: int| 0 <= t < r.len() implies single_line(#[trigger] r[t]) by {
        lemma_render_pair_shape(p[t].0, p[t].1, quoted);
    }
    lemma_lines_of_render(r);
    lemma_parse_rendered(empty, p, quoted);
    assert(keys_of(empty) + keys_of(p) =~= keys_of(p));
}

} // verus!
