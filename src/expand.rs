//! Single-pass `$NAME` / `${NAME}` substitution against resolved values.

use vstd::prelude::*;
use crate::dotenv::{is_label_char, is_name_char, pairs_view};
use crate::text::{chars_of, push_all, slice_chars, string_of};

verus! {

/// The value bound to `name` in `vars`: the first pair with that key.
pub open spec fn lookup(vars: Seq<(Seq<char>, Seq<char>)>, name: Seq<char>) -> Option<Seq<char>>
    decreases vars.len(),
{
    if vars.len() == 0 {
        None
    } else if vars[0].0 == name {
        Some(vars[0].1)
    } else {
        lookup(vars.drop_first(), name)
    }
}

/// How many name characters (ASCII letters, digits, `_`) start at `i` in `s`.
pub open spec fn name_len(s: Seq<char>, i: int) -> nat
    decreases s.len() - i,
{
    if 0 <= i < s.len() && is_label_char(s[i]) {
        1 + name_len(s, i + 1)
    } else {
        0
    }
}

/// The expansion of `s` from position `i` on. A `$` followed by a name, or
/// by `{`, a name and `}`, is replaced by the name's value where `vars` binds
/// it, and otherwise kept as written; `${}` with no binding for the empty name
/// becomes nothing. A `${` without its `}` and a `$` with no name after it
/// stay as they are.
pub open spec fn expand_from(s: Seq<char>, i: int, vars: Seq<(Seq<char>, Seq<char>)>) -> Seq<char>
    decreases s.len() - i,
    via expand_from_decreases
{
    if i < 0 || i >= s.len() {
        Seq::empty()
    } else if s[i] != '$' {
        seq![s[i]] + expand_from(s, i + 1, vars)
    } else if i + 1 < s.len() && s[i + 1] == '{' {
        let end = i + 2 + name_len(s, i + 2);
        let name = s.subrange(i + 2, end);
        if end < s.len() && s[end] == '}' {
            let piece = match lookup(vars, name) {
                Some(v) => v,
                None => if name.len() == 0 {
                    Seq::empty()
                } else {
                    s.subrange(i, end + 1)
                },
            };
            piece + expand_from(s, end + 1, vars)
        } else {
            s.subrange(i, end) + expand_from(s, end, vars)
        }
    } else {
        let end = i + 1 + name_len(s, i + 1);
        let name = s.subrange(i + 1, end);
        let piece = if name.len() == 0 {
            seq!['$']
        } else {
            match lookup(vars, name) {
                Some(v) => v,
                None => s.subrange(i, end),
            }
        };
        piece + expand_from(s, end, vars)
    }
}

#[via_fn]
proof fn expand_from_decreases(s: Seq<char>, i: int, vars: Seq<(Seq<char>, Seq<char>)>) {
    if 0 <= i {
        lemma_name_len_bound(s, i + 1);
        lemma_name_len_bound(s, i + 2);
    }
}

proof fn lemma_name_len_bound(s: Seq<char>, i: int)
    requires
        0 <= i,
    ensures
        i + name_len(s, i) <= s.len() || name_len(s, i) == 0,
        name_len(s, i) > 0 ==> i + name_len(s, i) <= s.len(),
    decreases s.len() - i,
{
    if 0 <= i < s.len() && is_label_char(s[i]) {
        lemma_name_len_bound(s, i + 1);
    }
}

fn scan_name(v: &Vec<char>, start: usize) -> (end: usize)
    requires
        start <= v@.len(),
    ensures
        end as int == start + name_len(v@, start as int),
        end <= v@.len(),
{
    let mut j: usize = start;
    while j < v.len() && is_name_char(v[j])
        invariant
            start <= j <= v@.len(),
            start + name_len(v@, start as int) == j + name_len(v@, j as int),
        decreases v@.len() - j,
    {
        j = j + 1;
    }
    j
}

fn lookup_exec(vars: &Vec<(String, String)>, name: &String) -> (r: Option<Vec<char>>)
    ensures
        match r {
            Some(v) => lookup(pairs_view(vars@), name@) == Some(v@),
            None => lookup(pairs_view(vars@), name@).is_none(),
        },
{
    let mut i: usize = 0;
    assert(pairs_view(vars@).subrange(0, vars@.len() as int) == pairs_view(vars@));
    while i < vars.len()
        invariant
            i <= vars@.len(),
            lookup(pairs_view(vars@), name@) == lookup(
                pairs_view(vars@).subrange(i as int, vars@.len() as int),
                name@,
            ),
        decreases vars@.len() - i,
    {
        let ghost rest = pairs_view(vars@).subrange(i as int, vars@.len() as int);
        assert(rest.drop_first() == pairs_view(vars@).subrange(i + 1 as int, vars@.len() as int));
        if vars[i].0 == *name {
            return Some(chars_of(vars[i].1.as_str()));
        }
        i = i + 1;
    }
    None
}

/// Expands `$NAME` and `${NAME}` in `text` from `vars` in one left-to-right
/// pass. Names are runs of ASCII letters, digits and `_`; braces delimit a
/// name from the text after it. A name that `vars` does not bind is kept as
/// written, so text without `$` comes back unchanged.
pub fn expand(text: &str, vars: &Vec<(String, String)>) -> (r: String)
    ensures
        r@ == expand_from(text@, 0, pairs_view(vars@)),
        (forall|i: int| 0 <= i < text@.len() ==> text@[i] != '$') ==> r@ == text@,
{
    let v = chars_of(text);
    let ghost vv = pairs_view(vars@);
    let mut out: Vec<char> = Vec::new();
    let mut i: usize = 0;
    while i < v.len()
        invariant
            i <= v@.len(),
            v@ == text@,
            vv == pairs_view(vars@),
            out@ + expand_from(v@, i as int, vv) == expand_from(v@, 0, vv),
        decreases v@.len() - i,
    {
        if v[i] != '$' {
            out.push(v[i]);
            i = i + 1;
            assert(out@ + expand_from(v@, i as int, vv) == expand_from(v@, 0, vv));
        } else if i + 1 < v.len() && v[i + 1] == '{' {
            let end = scan_name(&v, i + 2);
            let name = slice_chars(&v, i + 2, end);
            if end < v.len() && v[end] == '}' {
                let ns = string_of(&name);
                match lookup_exec(vars, &ns) {
                    Some(val) => push_all(&mut out, &val),
                    None => {
                        if name.len() > 0 {
                            let lit = slice_chars(&v, i, end + 1);
                            push_all(&mut out, &lit);
                        }
                    },
                }
                i = end + 1;
            } else {
                let lit = slice_chars(&v, i, end);
                push_all(&mut out, &lit);
                i = end;
            }
        } else {
            let end = scan_name(&v, i + 1);
            let name = slice_chars(&v, i + 1, end);
            if name.len() == 0 {
                out.push('$');
            } else {
                let ns = string_of(&name);
                match lookup_exec(vars, &ns) {
                    Some(val) => push_all(&mut out, &val),
                    None => {
                        let lit = slice_chars(&v, i, end);
                        push_all(&mut out, &lit);
                    },
                }
            }
            i = end;
        }
    }
    proof {
        if forall|k: int| 0 <= k < text@.len() ==> text@[k] != '$' {
            lemma_no_dollar(v@, 0, vv);
            assert(v@.subrange(0, v@.len() as int) == v@);
        }
    }
    string_of(&out)
}

proof fn lemma_no_dollar(s: Seq<char>, i: int, vars: Seq<(Seq<char>, Seq<char>)>)
    requires
        0 <= i <= s.len(),
        forall|k: int| 0 <= k < s.len() ==> s[k] != '$',
    ensures
        expand_from(s, i, vars) == s.subrange(i, s.len() as int),
    decreases s.len() - i,
{
    if i < s.len() {
        lemma_no_dollar(s, i + 1, vars);
        assert(s.subrange(i, s.len() as int) == seq![s[i]] + s.subrange(i + 1, s.len() as int));
    } else {
        assert(s.subrange(i, s.len() as int) == Seq::<char>::empty());
    }
}

} // verus!
