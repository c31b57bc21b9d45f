//! The decisions behind trace set-up: which sampler a configured name
//! selects, which commit id a trace carries, and the traced text of the
//! command line.

use vstd::prelude::*;
use crate::merge::strings_view;
use crate::text::{chars_of, push_all, string_of, trim, trim_chars};
use crate::trace::{sanitize_for_trace, sanitized};

verus! {

/// The sampler that a configured name selects.
#[derive(Clone, Copy, Debug, PartialEq, Eq, Structural)]
pub enum SamplerKind {
    AlwaysOn,
    AlwaysOff,
    TraceIdRatio,
    ParentBasedAlwaysOn,
    ParentBasedAlwaysOff,
    ParentBasedTraceIdRatio,
    /// A name that selects no sampler.
    Unsupported,
}

/// Whether `s` equals the lower-case ASCII text `lower` when ASCII capitals
/// of `s` are read as small letters.
pub open spec fn ascii_fold_eq(s: Seq<char>, lower: Seq<char>) -> bool {
    s.len() == lower.len() && forall|i: int|
        0 <= i < s.len() ==> (#[trigger] s[i] == lower[i] || ('a' <= lower[i] && lower[i] <= 'z'
            && s[i] as u32 == lower[i] as u32 - 32))
}

fn ascii_fold_eq_exec(s: &Vec<char>, lower: &Vec<char>) -> (r: bool)
    ensures
        r == ascii_fold_eq(s@, lower@),
{
    if s.len() != lower.len() {
        return false;
    }
    let mut i: usize = 0;
    while i < s.len()
        invariant
            i <= s@.len(),
            s@.len() == lower@.len(),
            forall|j: int|
                0 <= j < i ==> (#[trigger] s@[j] == lower@[j] || ('a' <= lower@[j] && lower@[j]
                    <= 'z' && s@[j] as u32 == lower@[j] as u32 - 32)),
        decreases s@.len() - i,
    {
        let a = s[i];
        let b = lower[i];
        if !(a == b || ('a' <= b && b <= 'z' && a as u32 == (b as u32) - 32)) {
            return false;
        }
        i = i + 1;
    }
    true
}

/// The sampler named by `name`, compared without regard to ASCII case.
pub open spec fn sampler_for(name: Seq<char>) -> SamplerKind {
    if ascii_fold_eq(name, "always_on"@) {
        SamplerKind::AlwaysOn
    } else if ascii_fold_eq(name, "always_off"@) {
        SamplerKind::AlwaysOff
    } else if ascii_fold_eq(name, "traceidratio"@) {
        SamplerKind::TraceIdRatio
    } else if ascii_fold_eq(name, "parentbased_always_on"@) {
        SamplerKind::ParentBasedAlwaysOn
    } else if ascii_fold_eq(name, "parentbased_always_off"@) {
        SamplerKind::ParentBasedAlwaysOff
    } else if ascii_fold_eq(name, "parentbased_traceidratio"@) {
        SamplerKind::ParentBasedTraceIdRatio
    } else {
        SamplerKind::Unsupported
    }
}

/// The sampler that the configured name `name` selects; `Unsupported` for a
/// name that is none of the six known ones.
pub fn sampler_kind(name: &str) -> (r: SamplerKind)
    ensures
        r == sampler_for(name@),
{
    let v = chars_of(name);
    if ascii_fold_eq_exec(&v, &chars_of("always_on")) {
        SamplerKind::AlwaysOn
    } else if ascii_fold_eq_exec(&v, &chars_of("always_off")) {
        SamplerKind::AlwaysOff
    } else if ascii_fold_eq_exec(&v, &chars_of("traceidratio")) {
        SamplerKind::TraceIdRatio
    } else if ascii_fold_eq_exec(&v, &chars_of("parentbased_always_on")) {
        SamplerKind::ParentBasedAlwaysOn
    } else if ascii_fold_eq_exec(&v, &chars_of("parentbased_always_off")) {
        SamplerKind::ParentBasedAlwaysOff
    } else if ascii_fold_eq_exec(&v, &chars_of("parentbased_traceidratio")) {
        SamplerKind::ParentBasedTraceIdRatio
    } else {
        SamplerKind::Unsupported
    }
}

/// The commit id a trace carries: the configured value, trimmed, where it is
/// not blank; else the output of the version-control query, trimmed, where
/// it is not blank; else `unknown`.
pub open spec fn commit_for(configured: Option<Seq<char>>, queried: Option<Seq<char>>) -> Seq<char> {
    if configured is Some && trim(configured->0).len() > 0 {
        trim(configured->0)
    } else if queried is Some && trim(queried->0).len() > 0 {
        trim(queried->0)
    } else {
        "unknown"@
    }
}

/// Picks the commit id of a trace from the configured value and the output
/// of a successful version-control query, either of which may be absent.
pub fn pick_git_commit(configured: Option<&str>, queried: Option<&str>) -> (r: String)
    ensures
        r@ == commit_for(
            match configured {
                Some(c) => Some(c@),
                None => None,
            },
            match queried {
                Some(q) => Some(q@),
                None => None,
            },
        ),
{
    match configured {
        Some(c) => {
            let t = trim_chars(&chars_of(c));
            if t.len() > 0 {
                return string_of(&t);
            }
        },
        None => {},
    }
    match queried {
        Some(q) => {
            let t = trim_chars(&chars_of(q));
            if t.len() > 0 {
                return string_of(&t);
            }
        },
        None => {},
    }
    "unknown".to_owned()
}

/// `parts` joined with single spaces.
pub open spec fn joined(parts: Seq<Seq<char>>) -> Seq<char>
    decreases parts.len(),
{
    if parts.len() == 0 {
        Seq::empty()
    } else if parts.len() == 1 {
        parts[0]
    } else {
        joined(parts.drop_last()) + seq![' '] + parts.last()
    }
}

/// The traced text of a command line: its arguments after the program
/// name, joined with spaces and sanitised.
pub fn trace_args_text(args: &Vec<String>) -> (r: String)
    ensures
        r@ == sanitized(
            joined(
                strings_view(args@).subrange(
                    if args@.len() == 0 {
                        0
                    } else {
                        1
                    },
                    args@.len() as int,
                ),
            ),
        ),
{
    let ghost parts = strings_view(args@).subrange(
        if args@.len() == 0 {
            0
        } else {
            1
        },
        args@.len() as int,
    );
    let mut out: Vec<char> = Vec::new();
    let mut i: usize = 1;
    assert(parts.subrange(0, 0) =~= Seq::<Seq<char>>::empty());
    while i < args.len()
        invariant
            1 <= i,
            i <= args@.len() || args@.len() == 0,
            args@.len() == 0 ==> i == 1,
            parts == strings_view(args@).subrange(
                if args@.len() == 0 {
                    0
                } else {
                    1
                },
                args@.len() as int,
            ),
            out@ == joined(parts.subrange(0, i - 1)),
        decreases args@.len() - i,
    {
        let a = chars_of(args[i].as_str());
        assert(parts.subrange(0, i as int).drop_last() == parts.subrange(0, i - 1));
        assert(parts[i - 1] == args@[i as int]@);
        if i > 1 {
            out.push(' ');
        }
        push_all(&mut out, &a);
        i = i + 1;
        assert(out@ =~= joined(parts.subrange(0, i - 1)));
    }
    proof {
        if args@.len() > 0 {
            assert(i == args@.len());
            assert(parts.len() == args@.len() - 1);
            assert(out@ == joined(parts.subrange(0, args@.len() - 1)));
            assert(parts.subrange(0, args@.len() - 1) =~= parts);
            assert(out@ == joined(parts));
        } else {
            assert(parts =~= Seq::<Seq<char>>::empty());
            assert(parts.subrange(0, 0) =~= parts);
            assert(out@ == joined(parts.subrange(0, 0)));
        }
        assert(out@ == joined(parts));
    }
    let text = string_of(&out);
    assert(text@ == joined(parts));
    sanitize_for_trace(text.as_str())
}

} // verus!
