//! Union of the line sets of several items: each key keeps the slot of its
//! first appearance and takes the value of its last.

use vstd::prelude::*;
use crate::text::{chars_of, find_char, find_from, slice_chars, string_of};

verus! {

/// The key of an env line: what stands before its first `=`, or the whole
/// line where it has none.
pub open spec fn line_key(l: Seq<char>) -> Seq<char> {
    let e = find_from(l, '=', 0);
    if e < 0 {
        l
    } else {
        l.subrange(0, e)
    }
}

/// The character views of a sequence of strings.
pub open spec fn strings_view(v: Seq<String>) -> Seq<Seq<char>> {
    Seq::new(v.len(), |i: int| v[i]@)
}

/// The line sets of the sections, titles left aside.
pub open spec fn section_lines(v: Seq<(String, Vec<String>)>) -> Seq<Seq<Seq<char>>> {
    Seq::new(v.len(), |i: int| strings_view(v[i].1@))
}

/// The first index at or after `i` of a line of `acc` whose key is `k`, or -1.
pub open spec fn slot_of(acc: Seq<Seq<char>>, k: Seq<char>, i: int) -> int
    decreases acc.len() - i,
{
    if i < 0 || i >= acc.len() {
        -1
    } else if line_key(acc[i]) == k {
        i
    } else {
        slot_of(acc, k, i + 1)
    }
}

/// `acc` with `l` added: in the slot of the line with the same key, or at the end.
pub open spec fn merge_one(acc: Seq<Seq<char>>, l: Seq<char>) -> Seq<Seq<char>> {
    let j = slot_of(acc, line_key(l), 0);
    if j < 0 {
        acc.push(l)
    } else {
        acc.update(j, l)
    }
}

/// `acc` with each of `lines` added in turn.
pub open spec fn merge_lines(acc: Seq<Seq<char>>, lines: Seq<Seq<char>>) -> Seq<Seq<char>>
    decreases lines.len(),
{
    if lines.len() == 0 {
        acc
    } else {
        merge_lines(merge_one(acc, lines[0]), lines.drop_first())
    }
}

/// `acc` with the lines of each section added, section after section.
pub open spec fn merge_sections(acc: Seq<Seq<char>>, secs: Seq<Seq<Seq<char>>>) -> Seq<
    Seq<char>,
>
    decreases secs.len(),
{
    if secs.len() == 0 {
        acc
    } else {
        merge_sections(merge_lines(acc, secs[0]), secs.drop_first())
    }
}

pub(crate) proof fn lemma_slot_of_bounds(acc: Seq<Seq<char>>, k: Seq<char>, i: int)
    requires
        0 <= i,
    ensures
        slot_of(acc, k, i) == -1 || (i <= slot_of(acc, k, i) < acc.len()),
    decreases acc.len() - i,
{
    if i < acc.len() && line_key(acc[i]) != k {
        lemma_slot_of_bounds(acc, k, i + 1);
    }
}

pub(crate) fn line_key_string(l: &String) -> (r: String)
    ensures
        r@ == line_key(l@),
{
    let v = chars_of(l.as_str());
    match find_char(&v, '=') {
        Some(e) => {
            proof {
                crate::dotenv::lemma_find_from_bounds(v@, '=', 0);
            }
            string_of(&slice_chars(&v, 0, e))
        },
        None => l.clone(),
    }
}

fn merge_one_exec(acc: &mut Vec<String>, l: &String)
    ensures
        strings_view(final(acc)@) == merge_one(strings_view(old(acc)@), l@),
{
    let k = line_key_string(l);
    let ghost a = strings_view(acc@);
    let mut j: usize = 0;
    while j < acc.len()
        invariant
            j <= acc@.len(),
            a == strings_view(acc@),
            acc@ == old(acc)@,
            k@ == line_key(l@),
            slot_of(a, k@, 0) == slot_of(a, k@, j as int),
        decreases acc@.len() - j,
    {
        let kj = line_key_string(&acc[j]);
        if kj == k {
            assert(a[j as int] == acc@[j as int]@);
            assert(slot_of(a, k@, j as int) == j);
            acc[j] = l.clone();
            assert(strings_view(acc@) =~= a.update(j as int, l@));
            return;
        }
        j = j + 1;
    }
    acc.push(l.clone());
    assert(strings_view(acc@) =~= a.push(l@));
}

/// Merges the line sets of several items, in the order given: a line whose
/// key was seen before takes that key's slot, any other is appended. Keys
/// keep the order of their first appearance; values are the last ones given.
pub fn merge_env_lines(sections: &Vec<(String, Vec<String>)>) -> (r: Vec<String>)
    ensures
        strings_view(r@) == merge_sections(Seq::empty(), section_lines(sections@)),
{
    let mut out: Vec<String> = Vec::new();
    let ghost secs = section_lines(sections@);
    assert(strings_view(out@) =~= Seq::empty());
    assert(secs.subrange(0, secs.len() as int) == secs);
    let mut i: usize = 0;
    while i < sections.len()
        invariant
            i <= sections@.len(),
            secs == section_lines(sections@),
            merge_sections(strings_view(out@), secs.subrange(i as int, secs.len() as int))
                == merge_sections(Seq::empty(), secs),
        decreases sections@.len() - i,
    {
        let lines = &sections[i].1;
        let ghost ls = strings_view(lines@);
        assert(secs.subrange(i as int, secs.len() as int).drop_first() == secs.subrange(
            i + 1 as int,
            secs.len() as int,
        ));
        assert(secs.subrange(i as int, secs.len() as int)[0] == ls);
        let ghost start = strings_view(out@);
        assert(ls.subrange(0, ls.len() as int) == ls);
        let mut j: usize = 0;
        while j < lines.len()
            invariant
                j <= lines@.len(),
                ls == strings_view(lines@),
                merge_lines(strings_view(out@), ls.subrange(j as int, ls.len() as int))
                    == merge_lines(start, ls),
            decreases lines@.len() - j,
        {
            assert(ls.subrange(j as int, ls.len() as int).drop_first() == ls.subrange(
                j + 1 as int,
                ls.len() as int,
            ));
            merge_one_exec(&mut out, &lines[j]);
            j = j + 1;
        }
        assert(ls.subrange(ls.len() as int, ls.len() as int) == Seq::<Seq<char>>::empty());
        i = i + 1;
    }
    out
}

/// Each key occurs on at most one line.
pub open spec fn keys_unique(lines: Seq<Seq<char>>) -> bool {
    forall|i: int, j: int|
        0 <= i < j < lines.len() ==> line_key(#[trigger] lines[i]) != line_key(#[trigger] lines[j])
}

pub(crate) proof fn lemma_slot_of_absent(acc: Seq<Seq<char>>, k: Seq<char>, i: int)
    requires
        0 <= i,
        slot_of(acc, k, i) == -1,
    ensures
        forall|m: int| i <= m < acc.len() ==> line_key(#[trigger] acc[m]) != k,
    decreases acc.len() - i,
{
    if i < acc.len() {
        lemma_slot_of_absent(acc, k, i + 1);
    }
}

pub(crate) proof fn lemma_slot_of_found(acc: Seq<Seq<char>>, k: Seq<char>, i: int)
    requires
        0 <= i,
        slot_of(acc, k, i) >= 0,
    ensures
        slot_of(acc, k, i) < acc.len(),
        line_key(acc[slot_of(acc, k, i)]) == k,
    decreases acc.len() - i,
{
    if i < acc.len() && line_key(acc[i]) != k {
        lemma_slot_of_found(acc, k, i + 1);
    }
}

pub(crate) proof fn lemma_merge_one_unique(acc: Seq<Seq<char>>, l: Seq<char>)
    requires
        keys_unique(acc),
    ensures
        keys_unique(merge_one(acc, l)),
{
    let k = line_key(l);
    let j = slot_of(acc, k, 0);
    let r = merge_one(acc, l);
    lemma_slot_of_bounds(acc, k, 0);
    if j < 0 {
        lemma_slot_of_absent(acc, k, 0);
        assert forall|a: int, b: int| 0 <= a < b < r.len() implies line_key(#[trigger] r[a])
            != line_key(#[trigger] r[b]) by {
            if b == acc.len() {
                assert(r[a] == acc[a]);
            } else {
                assert(r[a] == acc[a] && r[b] == acc[b]);
            }
        }
    } else {
        lemma_slot_of_found(acc, k, 0);
        assert forall|a: int, b: int| 0 <= a < b < r.len() implies line_key(#[trigger] r[a])
            != line_key(#[trigger] r[b]) by {
            if a == j {
                assert(line_key(r[a]) == line_key(acc[j]));
                assert(r[b] == acc[b]);
            } else if b == j {
                assert(line_key(r[b]) == line_key(acc[j]));
                assert(r[a] == acc[a]);
            } else {
                assert(r[a] == acc[a] && r[b] == acc[b]);
            }
        }
    }
}

proof fn lemma_merge_lines_unique(acc: Seq<Seq<char>>, lines: Seq<Seq<char>>)
    requires
        keys_unique(acc),
    ensures
        keys_unique(merge_lines(acc, lines)),
    decreases lines.len(),
{
    if lines.len() > 0 {
        lemma_merge_one_unique(acc, lines[0]);
        lemma_merge_lines_unique(merge_one(acc, lines[0]), lines.drop_first());
    }
}

proof fn lemma_merge_sections_unique(acc: Seq<Seq<char>>, secs: Seq<Seq<Seq<char>>>)
    requires
        keys_unique(acc),
    ensures
        keys_unique(merge_sections(acc, secs)),
    decreases secs.len(),
{
    if secs.len() > 0 {
        lemma_merge_lines_unique(acc, secs[0]);
        lemma_merge_sections_unique(merge_lines(acc, secs[0]), secs.drop_first());
    }
}

/// The merge of any sections holds each key on one line only.
pub proof fn lemma_merged_keys_unique(secs: Seq<Seq<Seq<char>>>)
    ensures
        keys_unique(merge_sections(Seq::empty(), secs)),
{
    lemma_merge_sections_unique(Seq::empty(), secs);
}

} // verus!
