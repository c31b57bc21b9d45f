//! Resolution of a requested title against the directory listing: an exact
//! match first, a case-insensitive substring match only where there is none;
//! never a guess between several.

use vstd::prelude::*;
use crate::items::{ItemListEntry, ItemVault};
use crate::text::{contains, text_contains};

verus! {

/// The most candidates that an ambiguity reports.
pub const MAX_CANDIDATES: usize = 20;

/// Why a title could not be resolved to one entry.
#[derive(Debug, PartialEq, Eq)]
pub enum ResolveError {
    /// No entry matches the title.
    NotFound,
    /// Several entries match; the first of them, at most twenty, in listing order.
    AmbiguousTitle(Vec<ItemListEntry>),
}

/// Neither the listing nor the item names a vault.
#[derive(Debug, PartialEq, Eq, Structural)]
pub struct VaultRequired;

/// What `str::to_lowercase` makes of a text.
pub uninterp spec fn lower_of(s: Seq<char>) -> Seq<char>;

/// Relies on `str::to_lowercase`: the lower-case form, a function of the text alone.
#[verifier::external_body]
fn to_lower(s: &str) -> (r: String)
    ensures
        r@ == lower_of(s@),
{
    s.to_lowercase()
}

/// The entries whose title is exactly `title`, in order.
pub open spec fn exact_matches(items: Seq<ItemListEntry>, title: Seq<char>) -> Seq<ItemListEntry>
    decreases items.len(),
{
    if items.len() == 0 {
        Seq::empty()
    } else if items.last().title@ == title {
        exact_matches(items.drop_last(), title).push(items.last())
    } else {
        exact_matches(items.drop_last(), title)
    }
}

/// The entries whose folded title (`folded[i]` for entry `i`) contains the
/// folded query, in order.
pub open spec fn folded_matches(
    items: Seq<ItemListEntry>,
    folded: Seq<Seq<char>>,
    query: Seq<char>,
) -> Seq<ItemListEntry>
    decreases items.len(),
{
    if items.len() == 0 || folded.len() != items.len() {
        Seq::empty()
    } else if contains(folded.last(), query) {
        folded_matches(items.drop_last(), folded.drop_last(), query).push(items.last())
    } else {
        folded_matches(items.drop_last(), folded.drop_last(), query)
    }
}

/// The candidates for `title`, given the folded titles and the folded title:
/// the exact matches, or where there are none the substring matches.
pub open spec fn candidates_given(
    items: Seq<ItemListEntry>,
    title: Seq<char>,
    folded: Seq<Seq<char>>,
    query: Seq<char>,
) -> Seq<ItemListEntry> {
    let exact = exact_matches(items, title);
    if exact.len() > 0 {
        exact
    } else {
        folded_matches(items, folded, query)
    }
}

/// The folded titles of the entries.
pub open spec fn folded_titles(items: Seq<ItemListEntry>) -> Seq<Seq<char>> {
    Seq::new(items.len(), |i: int| lower_of(items[i].title@))
}

/// The candidates for `title` in the listing.
pub open spec fn candidates(items: Seq<ItemListEntry>, title: Seq<char>) -> Seq<ItemListEntry> {
    candidates_given(items, title, folded_titles(items), lower_of(title))
}

/// The entries of `items` whose title is `title`, or where there are none,
/// those whose folded title (`folded_titles[i]` for entry `i`) contains
/// `folded_title`.
pub fn match_candidates(
    items: &Vec<ItemListEntry>,
    title: &str,
    folded_titles: &Vec<String>,
    folded_title: &str,
) -> (r: Vec<ItemListEntry>)
    requires
        folded_titles@.len() == items@.len(),
    ensures
        r@ == candidates_given(
            items@,
            title@,
            Seq::new(folded_titles@.len(), |i: int| folded_titles@[i]@),
            folded_title@,
        ),
{
    let ghost fv = Seq::new(folded_titles@.len(), |i: int| folded_titles@[i]@);
    let wanted = title.to_owned();
    let mut exact: Vec<ItemListEntry> = Vec::new();
    let mut fuzzy: Vec<ItemListEntry> = Vec::new();
    let mut i: usize = 0;
    while i < items.len()
        invariant
            i <= items@.len(),
            wanted@ == title@,
            folded_titles@.len() == items@.len(),
            fv == Seq::new(folded_titles@.len(), |i: int| folded_titles@[i]@),
            exact@ == exact_matches(items@.subrange(0, i as int), title@),
            fuzzy@ == folded_matches(
                items@.subrange(0, i as int),
                fv.subrange(0, i as int),
                folded_title@,
            ),
        decreases items@.len() - i,
    {
        assert(items@.subrange(0, i + 1 as int).drop_last() == items@.subrange(0, i as int));
        assert(fv.subrange(0, i + 1 as int).drop_last() == fv.subrange(0, i as int));
        assert(fv[i as int] == folded_titles@[i as int]@);
        if items[i].title == wanted {
            exact.push(items[i].duplicate());
        }
        if text_contains(folded_titles[i].as_str(), folded_title) {
            fuzzy.push(items[i].duplicate());
        }
        i = i + 1;
    }
    assert(items@.subrange(0, items@.len() as int) == items@);
    assert(fv.subrange(0, fv.len() as int) == fv);
    if exact.len() > 0 {
        exact
    } else {
        fuzzy
    }
}

/// The entries of `items` that `title` selects: those titled exactly
/// `title`, or where there are none, those whose lower-case title contains
/// the lower-case `title`.
pub fn title_matches(items: &Vec<ItemListEntry>, title: &str) -> (r: Vec<ItemListEntry>)
    ensures
        r@ == candidates(items@, title@),
{
    let mut folded: Vec<String> = Vec::new();
    let mut i: usize = 0;
    while i < items.len()
        invariant
            i <= items@.len(),
            folded@.len() == i,
            forall|j: int| 0 <= j < i ==> (#[trigger] folded@[j])@ == lower_of(items@[j].title@),
        decreases items@.len() - i,
    {
        folded.push(to_lower(items[i].title.as_str()));
        i = i + 1;
    }
    let q = to_lower(title);
    assert(Seq::new(folded@.len(), |i: int| folded@[i]@) =~= folded_titles(items@));
    match_candidates(items, title, &folded, q.as_str())
}

/// Picks the one candidate: `NotFound` where there is none, and where there
/// are several `AmbiguousTitle` with the first twenty of them.
pub fn pick_candidate(cands: Vec<ItemListEntry>) -> (r: Result<ItemListEntry, ResolveError>)
    ensures
        cands@.len() == 0 <==> r == Err::<ItemListEntry, ResolveError>(ResolveError::NotFound),
        cands@.len() == 1 <==> r == Ok::<ItemListEntry, ResolveError>(cands@[0]),
        cands@.len() > 1 <==> (r matches Err(ResolveError::AmbiguousTitle(c)) && c@ == cands@.take(
            if cands@.len() < 20 {
                cands@.len() as int
            } else {
                20
            },
        )),
{
    let n = cands.len();
    if n == 0 {
        return Err(ResolveError::NotFound);
    }
    if n == 1 {
        return Ok(cands[0].duplicate());
    }
    let mut shown: Vec<ItemListEntry> = Vec::new();
    let mut i: usize = 0;
    while i < n && i < MAX_CANDIDATES
        invariant
            n == cands@.len(),
            i <= n,
            i <= 20,
            shown@ == cands@.take(i as int),
        decreases n - i,
    {
        shown.push(cands[i].duplicate());
        i = i + 1;
        assert(shown@ =~= cands@.take(i as int));
    }
    assert(i == if n < 20 {
        n
    } else {
        20
    });
    Err(ResolveError::AmbiguousTitle(shown))
}

/// Resolves `title` against the listing `items`: the exact matches, or
/// failing those the case-insensitive substring matches, must be exactly one.
pub fn resolve_title(items: &Vec<ItemListEntry>, title: &str) -> (r: Result<
    ItemListEntry,
    ResolveError,
>)
    ensures
        ({
            let c = candidates(items@, title@);
            &&& c.len() == 0 <==> r == Err::<ItemListEntry, ResolveError>(ResolveError::NotFound)
            &&& c.len() == 1 <==> r == Ok::<ItemListEntry, ResolveError>(c[0])
            &&& c.len() > 1 <==> (r matches Err(ResolveError::AmbiguousTitle(v)) && v@ == c.take(
                if c.len() < 20 {
                    c.len() as int
                } else {
                    20
                },
            ))
        }),
{
    let cands = title_matches(items, title);
    pick_candidate(cands)
}

/// The vault of a resolved item: the listing's, else the item's own; an
/// error where neither names one.
pub fn resolve_vault_id(listing: &Option<ItemVault>, detail: &Option<ItemVault>) -> (r: Result<
    String,
    VaultRequired,
>)
    ensures
        match (listing, detail) {
            (Some(v), _) => r == Ok::<String, VaultRequired>(v.id),
            (None, Some(v)) => r == Ok::<String, VaultRequired>(v.id),
            (None, None) => r == Err::<String, VaultRequired>(VaultRequired),
        },
{
    match listing {
        Some(v) => Ok(v.id.clone()),
        None => match detail {
            Some(v) => Ok(v.id.clone()),
            None => Err(VaultRequired),
        },
    }
}

} // verus!
