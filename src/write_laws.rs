//! What a series of env-file writes leaves: writing line sets one after
//! another into a fresh file gives the in-memory merge of those sets.

use vstd::prelude::*;
use crate::dotenv::{is_identifier, lemma_find_from_bounds};
use crate::env_file::{
    decl_key, declares, first_with_key, lemma_file_lines_render, merged_lines, merged_text,
    pending, render, replace_line, single_line,
};
use crate::merge::{
    keys_unique, lemma_merge_one_unique, lemma_slot_of_absent, lemma_slot_of_bounds,
    lemma_slot_of_found, line_key, merge_lines, merge_one, merge_sections, slot_of,
};
use crate::reparse::lemma_parse_keyed_line;
use crate::text::find_from;

verus! {

/// A line `KEY=...` whose key is an identifier, without a line feed.
pub open spec fn keyed_line(l: Seq<char>) -> bool {
    let e = find_from(l, '=', 0);
    e >= 0 && is_identifier(l.subrange(0, e)) && single_line(l)
}

/// Every line of `ls` is a keyed line.
pub open spec fn all_keyed(ls: Seq<Seq<char>>) -> bool {
    forall|i: int| 0 <= i < ls.len() ==> keyed_line(#[trigger] ls[i])
}

/// The text of a file after each line set of `secs` has been merged into
/// it in turn, starting from `text`.
pub open spec fn write_all(text: Seq<char>, secs: Seq<Seq<Seq<char>>>) -> Seq<char>
    decreases secs.len(),
{
    if secs.len() == 0 {
        text
    } else {
        write_all(merged_text(text, secs[0]), secs.drop_first())
    }
}

proof fn lemma_keyed(l: Seq<char>)
    requires
        keyed_line(l),
    ensures
        decl_key(l) == Some(line_key(l)),
{
    let e = find_from(l, '=', 0);
    lemma_find_from_bounds(l, '=', 0);
    let k = l.subrange(0, e);
    let tail = l.subrange(e + 1, l.len() as int);
    assert(l =~= k + seq!['='] + tail);
    lemma_parse_keyed_line(k, tail);
}

/// Whether `pending` skips a line with key `k`.
pub open spec fn blocked(old: Seq<Seq<char>>, seen: Seq<Seq<char>>, k: Seq<char>) -> bool {
    seen.contains(k) || declares(old, k)
}

proof fn lemma_push_contains(s: Seq<Seq<char>>, k: Seq<char>, x: Seq<char>)
    ensures
        s.push(k).contains(x) == (s.contains(x) || x == k),
{
    if s.push(k).contains(x) {
        let w = choose|w: int| 0 <= w < s.push(k).len() && s.push(k)[w] == x;
        if w < s.len() {
            assert(s[w] == x);
        }
    }
    if s.contains(x) {
        let w = choose|w: int| 0 <= w < s.len() && s[w] == x;
        assert(s.push(k)[w] == x);
    }
    if x == k {
        assert(s.push(k)[s.len() as int] == x);
    }
}

proof fn lemma_pending_congruent(
    new: Seq<Seq<char>>,
    o1: Seq<Seq<char>>,
    s1: Seq<Seq<char>>,
    o2: Seq<Seq<char>>,
    s2: Seq<Seq<char>>,
)
    requires
        forall|k: Seq<char>| #[trigger] blocked(o1, s1, k) == blocked(o2, s2, k),
    ensures
        pending(new, o1, s1) == pending(new, o2, s2),
    decreases new.len(),
{
    if new.len() > 0 {
        match decl_key(new[0]) {
            None => {
                lemma_pending_congruent(new.drop_first(), o1, s1, o2, s2);
            },
            Some(k) => {
                assert(blocked(o1, s1, k) == blocked(o2, s2, k));
                if blocked(o1, s1, k) {
                    lemma_pending_congruent(new.drop_first(), o1, s1, o2, s2);
                } else {
                    assert forall|x: Seq<char>| #[trigger] blocked(o1, s1.push(k), x) == blocked(
                        o2,
                        s2.push(k),
                        x,
                    ) by {
                        lemma_push_contains(s1, k, x);
                        lemma_push_contains(s2, k, x);
                        assert(blocked(o1, s1, x) == blocked(o2, s2, x));
                    }
                    lemma_pending_congruent(new.drop_first(), o1, s1.push(k), o2, s2.push(k));
                }
            },
        }
    }
}

proof fn lemma_no_key_in(s: Seq<Seq<char>>, k: Seq<char>)
    requires
        all_keyed(s),
        forall|i: int| 0 <= i < s.len() ==> line_key(#[trigger] s[i]) != k,
    ensures
        first_with_key(s, k).is_none(),
    decreases s.len(),
{
    if s.len() > 0 {
        lemma_keyed(s[0]);
        assert forall|i: int| 0 <= i < s.drop_first().len() implies line_key(
            #[trigger] s.drop_first()[i],
        ) != k && keyed_line(s.drop_first()[i]) by {
            assert(s.drop_first()[i] == s[i + 1]);
        }
        lemma_no_key_in(s.drop_first(), k);
    }
}

/// Merging a line set with distinct keys into a file's lines gives what
/// the in-memory merge gives.
proof fn lemma_merged_is_merge(m: Seq<Seq<char>>, s: Seq<Seq<char>>)
    requires
        all_keyed(m),
        keys_unique(m),
        all_keyed(s),
        keys_unique(s),
    ensures
        merged_lines(m, s) == merge_lines(m, s),
        all_keyed(merge_lines(m, s)),
        keys_unique(merge_lines(m, s)),
    decreases s.len(),
{
    if s.len() == 0 {
        assert forall|i: int| 0 <= i < m.len() implies replace_line(#[trigger] m[i], s) == m[i] by {
            lemma_keyed(m[i]);
        }
        assert(merged_lines(m, s) =~= m);
    } else {
        let s0 = s[0];
        let rest = s.drop_first();
        let k0 = line_key(s0);
        lemma_keyed(s0);
        assert forall|i: int| 0 <= i < rest.len() implies keyed_line(#[trigger] rest[i])
            && line_key(rest[i]) != k0 by {
            assert(rest[i] == s[i + 1]);
            assert(line_key(s[0]) != line_key(s[i + 1]));
        }
        assert forall|i: int, j: int| 0 <= i < j < rest.len() implies line_key(#[trigger] rest[i])
            != line_key(#[trigger] rest[j]) by {
            assert(rest[i] == s[i + 1] && rest[j] == s[j + 1]);
        }
        lemma_no_key_in(rest, k0);
        let m1 = merge_one(m, s0);
        lemma_merge_one_unique(m, s0);
        let j = slot_of(m, k0, 0);
        lemma_slot_of_bounds(m, k0, 0);
        // lines of `m` other than the one with key `k0` are replaced alike
        assert forall|i: int| 0 <= i < m.len() && line_key(m[i]) != k0 implies replace_line(
            #[trigger] m[i],
            s,
        ) == replace_line(m[i], rest) by {
            lemma_keyed(m[i]);
        }
        if j >= 0 {
            lemma_slot_of_found(m, k0, 0);
            assert(m1 == m.update(j, s0));
            assert forall|i: int| 0 <= i < m1.len() implies keyed_line(#[trigger] m1[i]) by {}
            lemma_merged_is_merge(m1, rest);
            lemma_keyed(m[j]);
            assert forall|x: Seq<char>| #[trigger] blocked(m, Seq::empty(), x) == blocked(
                m1,
                Seq::empty(),
                x,
            ) by {
                if declares(m, x) {
                    let w = choose|w: int| 0 <= w < m.len() && decl_key(#[trigger] m[w]) == Some(x);
                    if w == j {
                        assert(decl_key(m1[j]) == Some(x));
                    } else {
                        assert(m1[w] == m[w]);
                    }
                }
                if declares(m1, x) {
                    let w = choose|w: int| 0 <= w < m1.len() && decl_key(#[trigger] m1[w]) == Some(x);
                    if w == j {
                        assert(decl_key(m[j]) == Some(x));
                    } else {
                        assert(m1[w] == m[w]);
                    }
                }
            }
            lemma_pending_congruent(rest, m, Seq::empty(), m1, Seq::empty());
            assert(declares(m, k0));
            assert(pending(s, m, Seq::empty()) == pending(rest, m, Seq::empty()));
            assert forall|i: int| 0 <= i < m.len() implies replace_line(#[trigger] m[i], s)
                == replace_line(m1[i], rest) by {
                if i == j {
                    lemma_keyed(m[i]);
                } else {
                    lemma_keyed(m[i]);
                    assert(line_key(m[i]) != line_key(m[j]));
                }
            }
            assert(merged_lines(m, s) =~= merged_lines(m1, rest));
        } else {
            lemma_slot_of_absent(m, k0, 0);
            assert(m1 == m.push(s0));
            assert forall|i: int| 0 <= i < m1.len() implies keyed_line(#[trigger] m1[i]) by {
                if i < m.len() {
                    assert(m1[i] == m[i]);
                }
            }
            lemma_merged_is_merge(m1, rest);
            assert(!declares(m, k0)) by {
                if declares(m, k0) {
                    let w = choose|w: int| 0 <= w < m.len() && decl_key(#[trigger] m[w]) == Some(k0);
                    lemma_keyed(m[w]);
                }
            }
            let one: Seq<Seq<char>> = seq![k0];
            assert forall|x: Seq<char>| #[trigger] blocked(m1, Seq::empty(), x) == blocked(
                m,
                one,
                x,
            ) by {
                lemma_push_contains(Seq::empty(), k0, x);
                assert(Seq::<Seq<char>>::empty().push(k0) == one);
                if declares(m1, x) {
                    let w = choose|w: int| 0 <= w < m1.len() && decl_key(#[trigger] m1[w]) == Some(x);
                    if w < m.len() {
                        assert(m1[w] == m[w]);
                    }
                }
                if declares(m, x) {
                    let w = choose|w: int| 0 <= w < m.len() && decl_key(#[trigger] m[w]) == Some(x);
                    assert(m1[w] == m[w]);
                }
                if x == k0 {
                    assert(decl_key(m1[m.len() as int]) == Some(x));
                }
            }
            lemma_pending_congruent(rest, m1, Seq::empty(), m, one);
            assert(Seq::<Seq<char>>::empty().push(k0) == one);
            assert(pending(s, m, Seq::empty()) == seq![s0] + pending(rest, m, one));
            assert(merged_lines(m, s) =~= merged_lines(m1, rest));
        }
    }
}

proof fn lemma_write_all(m: Seq<Seq<char>>, secs: Seq<Seq<Seq<char>>>)
    requires
        all_keyed(m),
        keys_unique(m),
        forall|t: int| 0 <= t < secs.len() ==> all_keyed(#[trigger] secs[t]) && keys_unique(secs[t]),
    ensures
        write_all(render(m), secs) == render(merge_sections(m, secs)),
    decreases secs.len(),
{
    if secs.len() > 0 {
        assert forall|t: int| 0 <= t < m.len() implies single_line(#[trigger] m[t]) by {
            assert(keyed_line(m[t]));
        }
        lemma_file_lines_render(m);
        assert(all_keyed(secs[0]) && keys_unique(secs[0]));
        lemma_merged_is_merge(m, secs[0]);
        assert forall|t: int| 0 <= t < secs.drop_first().len() implies all_keyed(
            #[trigger] secs.drop_first()[t],
        ) && keys_unique(secs.drop_first()[t]) by {
            assert(secs.drop_first()[t] == secs[t + 1]);
        }
        lemma_write_all(merge_lines(m, secs[0]), secs.drop_first());
    }
}

/// Writing line sets one after another into a fresh file, each set of
/// `KEY=...` lines with identifier keys and no key twice, leaves the file
/// holding the in-memory merge of the sets: each key in the slot of its
/// first appearance, with the line of its last.
pub proof fn lemma_successive_writes(secs: Seq<Seq<Seq<char>>>)
    requires
        forall|t: int| 0 <= t < secs.len() ==> all_keyed(#[trigger] secs[t]) && keys_unique(secs[t]),
    ensures
        write_all(Seq::empty(), secs) == render(merge_sections(Seq::empty(), secs)),
{
    let e: Seq<Seq<char>> = Seq::empty();
    assert(render(e) == Seq::<char>::empty());
    lemma_write_all(e, secs);
}

} // verus!
