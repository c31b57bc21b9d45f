//! Merging resolved lines into the text of an existing env file: lines that
//! declare a key being written are replaced in place, every other line is
//! kept as it stands, and keys not yet present are appended.

use vstd::prelude::*;
use crate::dotenv::{parse_line, parse_line_chars};
use crate::merge::strings_view;
use crate::text::{chars_of, lines_from, lines_of, push_all, split_lines, string_of, views};

verus! {

/// The lines of a file's text: the pieces between line feeds, without the
/// empty piece that follows a final line feed.
pub open spec fn file_lines(s: Seq<char>) -> Seq<Seq<char>> {
    let ls = lines_of(s);
    if ls.len() > 0 && ls.last().len() == 0 {
        ls.drop_last()
    } else {
        ls
    }
}

/// The key that a line declares, if any.
pub open spec fn decl_key(l: Seq<char>) -> Option<Seq<char>> {
    match parse_line(l) {
        Some(kv) => Some(kv.0),
        None => None,
    }
}

/// The first of `lines` that declares `k`.
pub open spec fn first_with_key(lines: Seq<Seq<char>>, k: Seq<char>) -> Option<Seq<char>>
    decreases lines.len(),
{
    if lines.len() == 0 {
        None
    } else if decl_key(lines[0]) == Some(k) {
        Some(lines[0])
    } else {
        first_with_key(lines.drop_first(), k)
    }
}

/// Whether some line of `lines` declares `k`.
pub open spec fn declares(lines: Seq<Seq<char>>, k: Seq<char>) -> bool {
    exists|i: int| 0 <= i < lines.len() && decl_key(#[trigger] lines[i]) == Some(k)
}

/// An existing line after the merge: the first new line with the same key,
/// or the line itself.
pub open spec fn replace_line(l: Seq<char>, new: Seq<Seq<char>>) -> Seq<char> {
    match decl_key(l) {
        Some(k) => match first_with_key(new, k) {
            Some(n) => n,
            None => l,
        },
        None => l,
    }
}

/// The new lines still to append after the existing lines `old`: a line
/// without a key, or the first line of a key that neither `old` nor an
/// earlier appended line (`seen`) declares.
pub open spec fn pending(new: Seq<Seq<char>>, old: Seq<Seq<char>>, seen: Seq<Seq<char>>) -> Seq<
    Seq<char>,
>
    decreases new.len(),
{
    if new.len() == 0 {
        Seq::empty()
    } else {
        match decl_key(new[0]) {
            None => seq![new[0]] + pending(new.drop_first(), old, seen),
            Some(k) => if seen.contains(k) || declares(old, k) {
                pending(new.drop_first(), old, seen)
            } else {
                seq![new[0]] + pending(new.drop_first(), old, seen.push(k))
            },
        }
    }
}

/// The lines of the file after the merge.
pub open spec fn merged_lines(old: Seq<Seq<char>>, new: Seq<Seq<char>>) -> Seq<Seq<char>> {
    Seq::new(old.len(), |i: int| replace_line(old[i], new)) + pending(new, old, Seq::empty())
}

/// The text of `lines`, each followed by a line feed.
pub open spec fn render(lines: Seq<Seq<char>>) -> Seq<char>
    decreases lines.len(),
{
    if lines.len() == 0 {
        Seq::empty()
    } else {
        render(lines.drop_last()) + lines.last() + seq!['\n']
    }
}

/// The text of an env file after merging `new` into its text `existing`.
pub open spec fn merged_text(existing: Seq<char>, new: Seq<Seq<char>>) -> Seq<char> {
    render(merged_lines(file_lines(existing), new))
}

fn decl_key_exec(l: &Vec<char>) -> (r: Option<String>)
    ensures
        match r {
            Some(k) => decl_key(l@) == Some(k@),
            None => decl_key(l@).is_none(),
        },
{
    match parse_line_chars(l) {
        Some(kv) => Some(string_of(&kv.0)),
        None => None,
    }
}

fn first_with_key_exec(new: &Vec<Vec<char>>, keys: &Vec<Option<String>>, k: &String) -> (r:
    Option<usize>)
    requires
        keys@.len() == new@.len(),
        forall|i: int|
            0 <= i < new@.len() ==> match #[trigger] keys@[i] {
                Some(kk) => decl_key(new@[i]@) == Some(kk@),
                None => decl_key(new@[i]@).is_none(),
            },
    ensures
        match r {
            Some(i) => i < new@.len() && first_with_key(views(new@), k@) == Some(new@[i as int]@),
            None => first_with_key(views(new@), k@).is_none(),
        },
{
    let ghost nv = views(new@);
    let mut i: usize = 0;
    assert(nv.subrange(0, nv.len() as int) == nv);
    while i < new.len()
        invariant
            i <= new@.len(),
            nv == views(new@),
            keys@.len() == new@.len(),
            forall|j: int|
                0 <= j < new@.len() ==> match #[trigger] keys@[j] {
                    Some(kk) => decl_key(new@[j]@) == Some(kk@),
                    None => decl_key(new@[j]@).is_none(),
                },
            first_with_key(nv, k@) == first_with_key(nv.subrange(i as int, nv.len() as int), k@),
        decreases new@.len() - i,
    {
        let ghost rest = nv.subrange(i as int, nv.len() as int);
        assert(rest.drop_first() == nv.subrange(i + 1 as int, nv.len() as int));
        assert(rest[0] == new@[i as int]@);
        match &keys[i] {
            Some(kk) => {
                if *kk == *k {
                    return Some(i);
                }
            },
            None => {},
        }
        i = i + 1;
    }
    None
}

fn contains_string(v: &Vec<String>, k: &String) -> (r: bool)
    ensures
        r == strings_view(v@).contains(k@),
{
    let mut i: usize = 0;
    while i < v.len()
        invariant
            i <= v@.len(),
            forall|j: int| 0 <= j < i ==> strings_view(v@)[j] != k@,
        decreases v@.len() - i,
    {
        if v[i] == *k {
            assert(strings_view(v@)[i as int] == k@);
            return true;
        }
        i = i + 1;
    }
    false
}

/// Merges `new_lines` into the text `existing` of an env file and returns
/// the new text. An existing line that declares a key which a new line also
/// declares becomes the first such new line; every other existing line,
/// comments and blank lines included, stays as it is. New lines whose key
/// is not yet in the file follow, the first one for each key, in order.
/// Every line of the result ends with a line feed.
pub fn merge_env_file(existing: &str, new_lines: &Vec<String>) -> (r: String)
    ensures
        r@ == merged_text(existing@, strings_view(new_lines@)),
{
    let text = chars_of(existing);
    let mut old = split_lines(&text);
    proof {
        lemma_lines_of_nonempty(text@);
    }
    if old[old.len() - 1].len() == 0 {
        let ghost before = views(old@);
        old.pop();
        assert(views(old@) =~= before.drop_last());
    }
    let ghost ov = views(old@);
    assert(ov == file_lines(existing@));
    let mut new: Vec<Vec<char>> = Vec::new();
    let mut keys: Vec<Option<String>> = Vec::new();
    let mut i: usize = 0;
    while i < new_lines.len()
        invariant
            i <= new_lines@.len(),
            new@.len() == i,
            keys@.len() == i,
            forall|j: int| 0 <= j < i ==> (#[trigger] new@[j])@ == new_lines@[j]@,
            forall|j: int|
                0 <= j < i ==> match #[trigger] keys@[j] {
                    Some(kk) => decl_key(new@[j]@) == Some(kk@),
                    None => decl_key(new@[j]@).is_none(),
                },
        decreases new_lines@.len() - i,
    {
        let l = chars_of(new_lines[i].as_str());
        let k = decl_key_exec(&l);
        new.push(l);
        keys.push(k);
        i = i + 1;
    }
    let ghost nv = views(new@);
    assert(nv =~= strings_view(new_lines@));
    let mut out: Vec<Vec<char>> = Vec::new();
    let mut i: usize = 0;
    while i < old.len()
        invariant
            i <= old@.len(),
            ov == views(old@),
            nv == views(new@),
            keys@.len() == new@.len(),
            forall|j: int|
                0 <= j < new@.len() ==> match #[trigger] keys@[j] {
                    Some(kk) => decl_key(new@[j]@) == Some(kk@),
                    None => decl_key(new@[j]@).is_none(),
                },
            views(out@) == Seq::new(i as nat, |j: int| replace_line(ov[j], nv)),
        decreases old@.len() - i,
    {
        let ghost before = views(out@);
        assert(ov[i as int] == old@[i as int]@);
        let line = match decl_key_exec(&old[i]) {
            Some(k) => match first_with_key_exec(&new, &keys, &k) {
                Some(n) => slice_all(&new[n]),
                None => slice_all(&old[i]),
            },
            None => slice_all(&old[i]),
        };
        assert(line@ == replace_line(ov[i as int], nv));
        out.push(line);
        assert(views(out@) =~= before.push(line@));
        assert(views(out@) =~= Seq::new((i + 1) as nat, |j: int| replace_line(ov[j], nv)));
        i = i + 1;
    }
    let ghost kept = views(out@);
    let mut seen: Vec<String> = Vec::new();
    let mut i: usize = 0;
    assert(strings_view(seen@) =~= Seq::empty());
    assert(nv.subrange(0, nv.len() as int) == nv);
    assert(pending(nv, ov, Seq::empty()) == pending(nv.subrange(0, nv.len() as int), ov, strings_view(seen@)));
    while i < new.len()
        invariant
            i <= new@.len(),
            ov == views(old@),
            nv == views(new@),
            keys@.len() == new@.len(),
            forall|j: int|
                0 <= j < new@.len() ==> match #[trigger] keys@[j] {
                    Some(kk) => decl_key(new@[j]@) == Some(kk@),
                    None => decl_key(new@[j]@).is_none(),
                },
            kept + pending(nv, ov, Seq::empty()) == views(out@) + pending(
                nv.subrange(i as int, nv.len() as int),
                ov,
                strings_view(seen@),
            ),
        decreases new@.len() - i,
    {
        let ghost rest = nv.subrange(i as int, nv.len() as int);
        assert(rest.drop_first() == nv.subrange(i + 1 as int, nv.len() as int));
        assert(rest[0] == new@[i as int]@);
        let ghost before = views(out@);
        match &keys[i] {
            None => {
                out.push(slice_all(&new[i]));
                assert(views(out@) =~= before + seq![nv[i as int]]);
            },
            Some(k) => {
                let skip = contains_string(&seen, k) || declares_exec(&old, k);
                if !skip {
                    out.push(slice_all(&new[i]));
                    assert(views(out@) =~= before + seq![nv[i as int]]);
                    let ghost sb = strings_view(seen@);
                    seen.push(k.clone());
                    assert(strings_view(seen@) =~= sb.push(k@));
                }
            },
        }
        i = i + 1;
    }
    assert(nv.subrange(nv.len() as int, nv.len() as int) == Seq::<Seq<char>>::empty());
    let mut r: Vec<char> = Vec::new();
    let ghost all = views(out@);
    let mut i: usize = 0;
    assert(all.subrange(0, 0) =~= Seq::<Seq<char>>::empty());
    while i < out.len()
        invariant
            i <= out@.len(),
            all == views(out@),
            r@ == render(all.subrange(0, i as int)),
        decreases out@.len() - i,
    {
        assert(all.subrange(0, i + 1 as int).drop_last() == all.subrange(0, i as int));
        push_all(&mut r, &out[i]);
        r.push('\n');
        i = i + 1;
    }
    assert(all.subrange(0, all.len() as int) == all);
    string_of(&r)
}

fn slice_all(v: &Vec<char>) -> (r: Vec<char>)
    ensures
        r@ == v@,
{
    let mut r: Vec<char> = Vec::new();
    push_all(&mut r, v);
    r
}

fn declares_exec(lines: &Vec<Vec<char>>, k: &String) -> (r: bool)
    ensures
        r == declares(views(lines@), k@),
{
    let mut i: usize = 0;
    while i < lines.len()
        invariant
            i <= lines@.len(),
            forall|j: int| 0 <= j < i ==> decl_key(#[trigger] views(lines@)[j]) != Some(k@),
        decreases lines@.len() - i,
    {
        match decl_key_exec(&lines[i]) {
            Some(kk) => {
                if kk == *k {
                    assert(decl_key(views(lines@)[i as int]) == Some(k@));
                    return true;
                }
            },
            None => {},
        }
        i = i + 1;
    }
    false
}

/// A line without a line feed.
pub open spec fn single_line(s: Seq<char>) -> bool {
    forall|i: int| 0 <= i < s.len() ==> s[i] != '\n'
}

pub(crate) proof fn lemma_lines_from_single(s: Seq<char>, cur: Seq<char>)
    requires
        single_line(cur),
    ensures
        forall|t: int| 0 <= t < lines_from(s, cur).len() ==> single_line(#[trigger] lines_from(s, cur)[t]),
    decreases s.len(),
{
    if s.len() > 0 {
        if s[0] == '\n' {
            lemma_lines_from_single(s.drop_first(), Seq::empty());
            let rest = lines_from(s.drop_first(), Seq::empty());
            assert forall|t: int| 0 <= t < lines_from(s, cur).len() implies single_line(
                #[trigger] lines_from(s, cur)[t],
            ) by {
                if t > 0 {
                    assert(lines_from(s, cur)[t] == rest[t - 1]);
                } else {
                    assert(lines_from(s, cur)[0] == cur);
                }
            }
        } else {
            assert(single_line(cur.push(s[0])));
            lemma_lines_from_single(s.drop_first(), cur.push(s[0]));
            let l2 = lines_from(s.drop_first(), cur.push(s[0]));
            assert(lines_from(s, cur) == l2);
            assert forall|t: int| 0 <= t < lines_from(s, cur).len() implies single_line(
                #[trigger] lines_from(s, cur)[t],
            ) by {
                assert(single_line(l2[t]));
            }
        }
    } else {
        assert(lines_from(s, cur) == seq![cur]);
        assert(lines_from(s, cur)[0] == cur);
    }
}

proof fn lemma_file_lines_single(s: Seq<char>)
    ensures
        forall|t: int| 0 <= t < file_lines(s).len() ==> single_line(#[trigger] file_lines(s)[t]),
{
    lemma_lines_from_single(s, Seq::empty());
    let ls = lines_of(s);
    if ls.len() > 0 && ls.last().len() == 0 {
        assert forall|t: int| 0 <= t < file_lines(s).len() implies single_line(
            #[trigger] file_lines(s)[t],
        ) by {
            assert(file_lines(s)[t] == ls[t]);
        }
    }
}

proof fn lemma_lines_from_line(x: Seq<char>, rest: Seq<char>, cur: Seq<char>)
    requires
        single_line(x),
    ensures
        lines_from(x + seq!['\n'] + rest, cur) == seq![cur + x] + lines_from(rest, Seq::empty()),
    decreases x.len(),
{
    let s = x + seq!['\n'] + rest;
    if x.len() == 0 {
        assert(s[0] == '\n');
        assert(s.drop_first() =~= rest);
        assert(cur + x =~= cur);
    } else {
        assert(s[0] == x[0]);
        assert(s.drop_first() =~= x.drop_first() + seq!['\n'] + rest);
        lemma_lines_from_line(x.drop_first(), rest, cur.push(x[0]));
        assert(cur.push(x[0]) + x.drop_first() =~= cur + x);
    }
}

proof fn lemma_render_front(l: Seq<Seq<char>>)
    requires
        l.len() > 0,
    ensures
        render(l) == l[0] + seq!['\n'] + render(l.drop_first()),
    decreases l.len(),
{
    if l.len() == 1 {
        assert(l.drop_first() =~= Seq::<Seq<char>>::empty());
        assert(l.drop_last() =~= Seq::<Seq<char>>::empty());
        assert(render(l) =~= l[0] + seq!['\n'] + render(l.drop_first()));
    } else {
        lemma_render_front(l.drop_last());
        assert(l.drop_last().drop_first() =~= l.drop_first().drop_last());
        assert(l.drop_first().last() == l.last());
        assert(render(l) =~= l[0] + seq!['\n'] + render(l.drop_first()));
    }
}

pub(crate) proof fn lemma_lines_of_render(l: Seq<Seq<char>>)
    requires
        forall|t: int| 0 <= t < l.len() ==> single_line(#[trigger] l[t]),
    ensures
        lines_of(render(l)) == l.push(Seq::empty()),
    decreases l.len(),
{
    if l.len() == 0 {
        assert(render(l) =~= Seq::<char>::empty());
        assert(l.push(Seq::empty()) =~= seq![Seq::<char>::empty()]);
    } else {
        lemma_render_front(l);
        assert(single_line(l[0]));
        lemma_lines_from_line(l[0], render(l.drop_first()), Seq::empty());
        assert(Seq::<char>::empty() + l[0] =~= l[0]);
        assert forall|t: int| 0 <= t < l.drop_first().len() implies single_line(
            #[trigger] l.drop_first()[t],
        ) by {
            assert(l.drop_first()[t] == l[t + 1]);
        }
        lemma_lines_of_render(l.drop_first());
        assert(seq![l[0]] + l.drop_first().push(Seq::empty()) =~= l.push(Seq::empty()));
    }
}

pub(crate) proof fn lemma_file_lines_render(l: Seq<Seq<char>>)
    requires
        forall|t: int| 0 <= t < l.len() ==> single_line(#[trigger] l[t]),
    ensures
        file_lines(render(l)) == l,
{
    lemma_lines_of_render(l);
    assert(l.push(Seq::empty()).drop_last() =~= l);
}

proof fn lemma_first_with_key_found(lines: Seq<Seq<char>>, k: Seq<char>)
    ensures
        match first_with_key(lines, k) {
            Some(n) => decl_key(n) == Some(k) && lines.contains(n),
            None => !declares(lines, k),
        },
    decreases lines.len(),
{
    if lines.len() > 0 {
        lemma_first_with_key_found(lines.drop_first(), k);
        if decl_key(lines[0]) == Some(k) {
            assert(lines[0] == lines[0]);
            assert(lines.contains(lines[0]));
        } else {
            match first_with_key(lines.drop_first(), k) {
                Some(n) => {
                    let j = choose|j: int| 0 <= j < lines.drop_first().len() && lines.drop_first()[j] == n;
                    assert(lines[j + 1] == n);
                },
                None => {
                    assert forall|i: int| 0 <= i < lines.len() implies decl_key(#[trigger] lines[i])
                        != Some(k) by {
                        if i > 0 {
                            assert(lines[i] == lines.drop_first()[i - 1]);
                        }
                    }
                },
            }
        }
    }
}

proof fn lemma_first_with_key_at(lines: Seq<Seq<char>>, k: Seq<char>, j: int)
    requires
        0 <= j < lines.len(),
        decl_key(lines[j]) == Some(k),
        forall|i: int| 0 <= i < j ==> decl_key(#[trigger] lines[i]) != Some(k),
    ensures
        first_with_key(lines, k) == Some(lines[j]),
    decreases j,
{
    if j > 0 {
        assert(decl_key(lines[0]) != Some(k));
        assert forall|i: int| 0 <= i < j - 1 implies decl_key(#[trigger] lines.drop_first()[i])
            != Some(k) by {
            assert(lines.drop_first()[i] == lines[i + 1]);
        }
        lemma_first_with_key_at(lines.drop_first(), k, j - 1);
    }
}

/// Every line that `pending` appends is keyed and the first of `all` with its key.
proof fn lemma_pending_first(all: Seq<Seq<char>>, old: Seq<Seq<char>>, seen: Seq<Seq<char>>, i: int)
    requires
        0 <= i <= all.len(),
        forall|j: int| 0 <= j < all.len() ==> (#[trigger] decl_key(all[j])).is_some(),
        forall|j: int|
            0 <= j < i ==> seen.contains(#[trigger] decl_key(all[j])->0) || declares(
                old,
                decl_key(all[j])->0,
            ),
    ensures
        ({
            let p = pending(all.subrange(i, all.len() as int), old, seen);
            forall|t: int|
                0 <= t < p.len() ==> (#[trigger] decl_key(p[t])).is_some() && first_with_key(
                    all,
                    decl_key(p[t])->0,
                ) == Some(p[t])
        }),
    decreases all.len() - i,
{
    let sub = all.subrange(i, all.len() as int);
    if i < all.len() {
        assert(sub.drop_first() =~= all.subrange(i + 1, all.len() as int));
        assert(sub[0] == all[i]);
        let k = decl_key(all[i])->0;
        if seen.contains(k) || declares(old, k) {
            lemma_pending_first(all, old, seen, i + 1);
        } else {
            assert forall|j: int|
                0 <= j < i + 1 implies seen.push(k).contains(#[trigger] decl_key(all[j])->0)
                || declares(old, decl_key(all[j])->0) by {
                if j < i {
                    if seen.contains(decl_key(all[j])->0) {
                        let w = choose|w: int| 0 <= w < seen.len() && seen[w] == decl_key(all[j])->0;
                        assert(seen.push(k)[w] == seen[w]);
                    }
                } else {
                    assert(seen.push(k)[seen.len() as int] == k);
                }
            }
            lemma_pending_first(all, old, seen.push(k), i + 1);
            assert forall|j: int| 0 <= j < i implies decl_key(#[trigger] all[j]) != Some(k) by {
                assert(seen.contains(decl_key(all[j])->0) || declares(old, decl_key(all[j])->0));
            }
            lemma_first_with_key_at(all, k, i);
            let rest = pending(all.subrange(i + 1, all.len() as int), old, seen.push(k));
            let p = pending(sub, old, seen);
            assert(p == seq![all[i]] + rest);
            assert forall|t: int| 0 <= t < p.len() implies (#[trigger] decl_key(p[t])).is_some()
                && first_with_key(all, decl_key(p[t])->0) == Some(p[t]) by {
                if t > 0 {
                    assert(p[t] == rest[t - 1]);
                }
            }
        }
    }
}

/// Every key of `new` from `i` on is seen, declared by `old`, or appended.
proof fn lemma_pending_covers(new: Seq<Seq<char>>, old: Seq<Seq<char>>, seen: Seq<Seq<char>>)
    requires
        forall|j: int| 0 <= j < new.len() ==> (#[trigger] decl_key(new[j])).is_some(),
    ensures
        forall|j: int|
            0 <= j < new.len() ==> seen.contains(#[trigger] decl_key(new[j])->0) || declares(
                old,
                decl_key(new[j])->0,
            ) || declares(pending(new, old, seen), decl_key(new[j])->0),
    decreases new.len(),
{
    if new.len() > 0 {
        let k = decl_key(new[0])->0;
        let rest_new = new.drop_first();
        assert forall|j: int| 0 <= j < rest_new.len() implies (#[trigger] decl_key(
            rest_new[j],
        )).is_some() by {
            assert(rest_new[j] == new[j + 1]);
        }
        let p = pending(new, old, seen);
        if seen.contains(k) || declares(old, k) {
            lemma_pending_covers(rest_new, old, seen);
            assert forall|j: int| 0 <= j < new.len() implies seen.contains(
                #[trigger] decl_key(new[j])->0,
            ) || declares(old, decl_key(new[j])->0) || declares(p, decl_key(new[j])->0) by {
                if j > 0 {
                    assert(new[j] == rest_new[j - 1]);
                }
            }
        } else {
            lemma_pending_covers(rest_new, old, seen.push(k));
            let rest = pending(rest_new, old, seen.push(k));
            assert(p == seq![new[0]] + rest);
            assert(p[0] == new[0]);
            assert forall|j: int| 0 <= j < new.len() implies seen.contains(
                #[trigger] decl_key(new[j])->0,
            ) || declares(old, decl_key(new[j])->0) || declares(p, decl_key(new[j])->0) by {
                let kj = decl_key(new[j])->0;
                if j == 0 {
                    assert(decl_key(p[0]) == Some(kj));
                } else {
                    assert(new[j] == rest_new[j - 1]);
                    if declares(rest, kj) {
                        let w = choose|w: int| 0 <= w < rest.len() && decl_key(#[trigger] rest[w]) == Some(kj);
                        assert(p[w + 1] == rest[w]);
                    } else if seen.push(k).contains(kj) {
                        let w = choose|w: int| 0 <= w < seen.push(k).len() && seen.push(k)[w] == kj;
                        if w < seen.len() {
                            assert(seen[w] == kj);
                        } else {
                            assert(decl_key(p[0]) == Some(kj));
                        }
                    }
                }
            }
        }
    }
}

proof fn lemma_pending_empty(new: Seq<Seq<char>>, old: Seq<Seq<char>>, seen: Seq<Seq<char>>)
    requires
        forall|j: int|
            0 <= j < new.len() ==> (#[trigger] decl_key(new[j])).is_some() && declares(
                old,
                decl_key(new[j])->0,
            ),
    ensures
        pending(new, old, seen) == Seq::<Seq<char>>::empty(),
    decreases new.len(),
{
    if new.len() > 0 {
        assert(decl_key(new[0]).is_some());
        assert forall|j: int| 0 <= j < new.drop_first().len() implies (#[trigger] decl_key(
            new.drop_first()[j],
        )).is_some() && declares(old, decl_key(new.drop_first()[j])->0) by {
            assert(new.drop_first()[j] == new[j + 1]);
        }
        lemma_pending_empty(new.drop_first(), old, seen);
    }
}

/// Merging lines into the text that merging the same lines produced gives
/// that text again, byte for byte, where each new line declares a key and
/// holds no line feed.
pub proof fn lemma_merge_env_file_idempotent(existing: Seq<char>, new: Seq<Seq<char>>)
    requires
        forall|j: int|
            0 <= j < new.len() ==> (#[trigger] decl_key(new[j])).is_some() && single_line(new[j]),
    ensures
        merged_text(merged_text(existing, new), new) == merged_text(existing, new),
{
    let old = file_lines(existing);
    let kept = Seq::new(old.len(), |i: int| replace_line(old[i], new));
    let p = pending(new, old, Seq::empty());
    let f1 = merged_lines(old, new);
    assert(f1 == kept + p);
    lemma_file_lines_single(existing);
    assert forall|j: int| 0 <= j < new.len() implies (#[trigger] decl_key(new[j])).is_some() by {}
    lemma_pending_first(new, old, Seq::empty(), 0);
    assert(new.subrange(0, new.len() as int) =~= new);
    // every line of the first result stays as it is
    assert forall|t: int| 0 <= t < f1.len() implies replace_line(#[trigger] f1[t], new) == f1[t]
        && single_line(f1[t]) by {
        if t < kept.len() {
            let o = old[t];
            assert(f1[t] == replace_line(o, new));
            match decl_key(o) {
                Some(k) => {
                    lemma_first_with_key_found(new, k);
                    match first_with_key(new, k) {
                        Some(n) => {
                            let w = choose|w: int| 0 <= w < new.len() && new[w] == n;
                            assert(single_line(new[w]));
                        },
                        None => {},
                    }
                },
                None => {},
            }
        } else {
            let m = p[t - kept.len()];
            assert(f1[t] == m);
            let k = decl_key(m)->0;
            lemma_first_with_key_found(new, k);
            let w = choose|w: int| 0 <= w < new.len() && new[w] == m;
            assert(single_line(new[w]));
        }
    }
    // every key of the new lines is declared by the first result
    lemma_pending_covers(new, old, Seq::empty());
    assert forall|j: int| 0 <= j < new.len() implies (#[trigger] decl_key(new[j])).is_some()
        && declares(f1, decl_key(new[j])->0) by {
        let k = decl_key(new[j])->0;
        if declares(old, k) {
            let w = choose|w: int| 0 <= w < old.len() && decl_key(#[trigger] old[w]) == Some(k);
            lemma_first_with_key_found(new, k);
            assert(declares(new, k));
            assert(decl_key(f1[w]) == Some(k));
        } else {
            assert(declares(p, k));
            let w = choose|w: int| 0 <= w < p.len() && decl_key(#[trigger] p[w]) == Some(k);
            assert(f1[kept.len() + w] == p[w]);
        }
    }
    lemma_file_lines_render(f1);
    lemma_pending_empty(new, f1, Seq::empty());
    assert(merged_lines(f1, new) =~= f1);
}

proof fn lemma_pending_all(new: Seq<Seq<char>>, seen: Seq<Seq<char>>)
    requires
        forall|j: int| 0 <= j < new.len() ==> (#[trigger] decl_key(new[j])).is_some(),
        forall|i: int, j: int|
            0 <= i < j < new.len() ==> #[trigger] decl_key(new[i]) != #[trigger] decl_key(new[j]),
        forall|j: int| 0 <= j < new.len() ==> !seen.contains(#[trigger] decl_key(new[j])->0),
    ensures
        pending(new, Seq::empty(), seen) == new,
    decreases new.len(),
{
    if new.len() > 0 {
        let k = decl_key(new[0])->0;
        let rest = new.drop_first();
        assert(!declares(Seq::<Seq<char>>::empty(), k));
        assert forall|j: int| 0 <= j < rest.len() implies !seen.push(k).contains(
            #[trigger] decl_key(rest[j])->0,
        ) by {
            assert(rest[j] == new[j + 1]);
            assert(decl_key(new[0]) != decl_key(new[j + 1]));
            if seen.push(k).contains(decl_key(rest[j])->0) {
                let w = choose|w: int|
                    0 <= w < seen.push(k).len() && seen.push(k)[w] == decl_key(rest[j])->0;
                if w < seen.len() {
                    assert(seen[w] == decl_key(new[j + 1])->0);
                }
            }
        }
        assert forall|i: int, j: int| 0 <= i < j < rest.len() implies #[trigger] decl_key(rest[i])
            != #[trigger] decl_key(rest[j]) by {
            assert(rest[i] == new[i + 1] && rest[j] == new[j + 1]);
        }
        assert forall|j: int| 0 <= j < rest.len() implies (#[trigger] decl_key(rest[j])).is_some() by {
            assert(rest[j] == new[j + 1]);
        }
        lemma_pending_all(rest, seen.push(k));
        assert(seq![new[0]] + rest =~= new);
    }
}

/// Merging lines that each declare a different key into an empty or absent
/// file gives a file of exactly those lines, in order.
pub proof fn lemma_fresh_file_holds_lines(new: Seq<Seq<char>>)
    requires
        forall|j: int| 0 <= j < new.len() ==> (#[trigger] decl_key(new[j])).is_some(),
        forall|i: int, j: int|
            0 <= i < j < new.len() ==> #[trigger] decl_key(new[i]) != #[trigger] decl_key(new[j]),
    ensures
        merged_text(Seq::empty(), new) == render(new),
{
    let e: Seq<char> = Seq::empty();
    assert(lines_of(e) == seq![e]);
    assert(file_lines(e) =~= Seq::<Seq<char>>::empty());
    lemma_pending_all(new, Seq::empty());
    assert(merged_lines(file_lines(e), new) =~= new);
}

proof fn lemma_lines_from_nonempty(s: Seq<char>, cur: Seq<char>)
    ensures
        crate::text::lines_from(s, cur).len() > 0,
    decreases s.len(),
{
    if s.len() > 0 {
        if s[0] == '\n' {
            lemma_lines_from_nonempty(s.drop_first(), Seq::empty());
        } else {
            lemma_lines_from_nonempty(s.drop_first(), cur.push(s[0]));
        }
    }
}

proof fn lemma_lines_of_nonempty(s: Seq<char>)
    ensures
        lines_of(s).len() > 0,
{
    lemma_lines_from_nonempty(s, Seq::empty());
}

} // verus!
