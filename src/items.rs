//! Secret records as the backend describes them, the env lines synthesised
//! from their fields, and resolution of a title against the directory.

use vstd::prelude::*;
use crate::dotenv::{escape, escape_chars, is_identifier, is_identifier_chars};
use crate::text::{chars_of, push_all, string_of};

verus! {

/// The vault that holds an item.
#[derive(Debug, PartialEq, Eq)]
pub struct ItemVault {
    pub id: String,
    pub name: String,
}

/// One entry of the directory listing.
#[derive(Debug, PartialEq, Eq)]
pub struct ItemListEntry {
    pub id: String,
    pub title: String,
    pub vault: Option<ItemVault>,
}

/// The value of a field, by the kind of JSON value the backend gave.
#[derive(Debug, PartialEq, Eq)]
pub enum FieldValue {
    /// A JSON string, as its text.
    Text(String),
    /// A JSON number, in its JSON notation.
    Number(String),
    /// A JSON boolean.
    Bool(bool),
    /// Any other JSON value (object, array, null), in its JSON notation.
    Json(String),
}

/// One field of an item.
#[derive(Debug, PartialEq, Eq)]
pub struct ItemField {
    pub label: Option<String>,
    pub value: Option<FieldValue>,
}

/// An item as fetched by id.
#[derive(Debug, PartialEq, Eq)]
pub struct ItemGet {
    pub fields: Vec<ItemField>,
    pub vault: Option<ItemVault>,
}

impl ItemVault {
    pub fn duplicate(&self) -> (r: ItemVault)
        ensures
            r == *self,
    {
        ItemVault { id: self.id.clone(), name: self.name.clone() }
    }
}

fn duplicate_vault(v: &Option<ItemVault>) -> (r: Option<ItemVault>)
    ensures
        r == *v,
{
    match v {
        Some(x) => Some(x.duplicate()),
        None => None,
    }
}

impl ItemListEntry {
    pub fn duplicate(&self) -> (r: ItemListEntry)
        ensures
            r == *self,
    {
        ItemListEntry {
            id: self.id.clone(),
            title: self.title.clone(),
            vault: duplicate_vault(&self.vault),
        }
    }
}

/// The text of a field value: a string as it is, a number or another JSON
/// value in JSON notation, a boolean as `true` or `false`.
pub open spec fn value_text(v: FieldValue) -> Seq<char> {
    match v {
        FieldValue::Text(s) => s@,
        FieldValue::Number(n) => n@,
        FieldValue::Bool(b) => if b {
            seq!['t', 'r', 'u', 'e']
        } else {
            seq!['f', 'a', 'l', 's', 'e']
        },
        FieldValue::Json(j) => j@,
    }
}

fn value_text_exec(v: &FieldValue) -> (r: Vec<char>)
    ensures
        r@ == value_text(*v),
{
    match v {
        FieldValue::Text(s) => chars_of(s.as_str()),
        FieldValue::Number(n) => chars_of(n.as_str()),
        FieldValue::Bool(b) => if *b {
            vec!['t', 'r', 'u', 'e']
        } else {
            vec!['f', 'a', 'l', 's', 'e']
        },
        FieldValue::Json(j) => chars_of(j.as_str()),
    }
}

/// The literal line of a field: `LABEL="escaped value"`, for a field with
/// an identifier label and a value whose text is not empty.
pub open spec fn value_line(f: ItemField) -> Option<Seq<char>> {
    match (f.label, f.value) {
        (Some(l), Some(v)) => if is_identifier(l@) && value_text(v).len() > 0 {
            Some(l@ + seq!['=', '"'] + escape(value_text(v)) + seq!['"'])
        } else {
            None
        },
        _ => None,
    }
}

/// The present ones of `lines`, in order.
pub open spec fn present(lines: Seq<Option<Seq<char>>>) -> Seq<Seq<char>>
    decreases lines.len(),
{
    if lines.len() == 0 {
        Seq::empty()
    } else {
        match lines.last() {
            Some(l) => present(lines.drop_last()).push(l),
            None => present(lines.drop_last()),
        }
    }
}

/// The character views of a sequence of strings.
pub open spec fn line_views(v: Seq<String>) -> Seq<Seq<char>> {
    Seq::new(v.len(), |i: int| v[i]@)
}

/// The literal lines of an item's fields, in field order.
pub open spec fn value_lines(fields: Seq<ItemField>) -> Seq<Seq<char>> {
    present(Seq::new(fields.len(), |i: int| value_line(fields[i])))
}

fn value_line_exec(f: &ItemField) -> (r: Option<String>)
    ensures
        match r {
            Some(s) => value_line(*f) == Some(s@),
            None => value_line(*f).is_none(),
        },
{
    match (&f.label, &f.value) {
        (Some(l), Some(v)) => {
            let lc = chars_of(l.as_str());
            if !is_identifier_chars(&lc) {
                return None;
            }
            let text = value_text_exec(v);
            if text.len() == 0 {
                return None;
            }
            let mut out = lc;
            out.push('=');
            out.push('"');
            let e = escape_chars(&text);
            push_all(&mut out, &e);
            out.push('"');
            assert(out@ =~= l@ + seq!['=', '"'] + escape(value_text(*v)) + seq!['"']);
            Some(string_of(&out))
        },
        _ => None,
    }
}

/// The `LABEL="value"` lines of an item, in field order: fields without a
/// label, with a label that is not an identifier, without a value or with
/// a value whose text is empty give none. Values are escaped for double quotes.
pub fn item_to_env_lines(item: &ItemGet) -> (r: Vec<String>)
    ensures
        line_views(r@) == value_lines(item.fields@),
{
    let ghost all = Seq::new(item.fields@.len(), |i: int| value_line(item.fields@[i]));
    let mut out: Vec<String> = Vec::new();
    let mut i: usize = 0;
    assert(line_views(out@) =~= Seq::empty());
    while i < item.fields.len()
        invariant
            i <= item.fields@.len(),
            all == Seq::new(item.fields@.len(), |i: int| value_line(item.fields@[i])),
            line_views(out@) == present(all.subrange(0, i as int)),
        decreases item.fields@.len() - i,
    {
        assert(all.subrange(0, i + 1 as int).drop_last() == all.subrange(0, i as int));
        let ghost before = out@;
        match value_line_exec(&item.fields[i]) {
            Some(s) => {
                out.push(s);
                assert(line_views(out@) =~= line_views(before).push(s@));
            },
            None => {},
        }
        i = i + 1;
    }
    assert(all.subrange(0, all.len() as int) == all);
    out
}

/// `op://`, the scheme of a secret reference.
pub open spec fn scheme() -> Seq<char> {
    seq!['o', 'p', ':', '/', '/']
}

/// The reference line of a field: `LABEL=op://vault/item/LABEL`, for a
/// field with an identifier label and a value.
pub open spec fn reference_line(f: ItemField, vault_id: Seq<char>, item_id: Seq<char>) -> Option<
    Seq<char>,
> {
    match (f.label, f.value) {
        (Some(l), Some(_)) => if is_identifier(l@) {
            Some(l@ + seq!['='] + scheme() + vault_id + seq!['/'] + item_id + seq!['/'] + l@)
        } else {
            None
        },
        _ => None,
    }
}

/// The reference lines of an item's fields, in field order.
pub open spec fn reference_lines(fields: Seq<ItemField>, vault_id: Seq<char>, item_id: Seq<char>) -> Seq<
    Seq<char>,
> {
    present(Seq::new(fields.len(), |i: int| reference_line(fields[i], vault_id, item_id)))
}

fn reference_line_exec(f: &ItemField, vault_id: &Vec<char>, item_id: &Vec<char>) -> (r: Option<
    String,
>)
    ensures
        match r {
            Some(s) => reference_line(*f, vault_id@, item_id@) == Some(s@),
            None => reference_line(*f, vault_id@, item_id@).is_none(),
        },
{
    match (&f.label, &f.value) {
        (Some(l), Some(_)) => {
            let lc = chars_of(l.as_str());
            if !is_identifier_chars(&lc) {
                return None;
            }
            let mut out: Vec<char> = Vec::new();
            push_all(&mut out, &lc);
            out.push('=');
            out.push('o');
            out.push('p');
            out.push(':');
            out.push('/');
            out.push('/');
            push_all(&mut out, vault_id);
            out.push('/');
            push_all(&mut out, item_id);
            out.push('/');
            push_all(&mut out, &lc);
            assert(out@ =~= l@ + seq!['='] + scheme() + vault_id@ + seq!['/'] + item_id@ + seq!['/']
                + l@);
            Some(string_of(&out))
        },
        _ => None,
    }
}

/// The `LABEL=op://vault/item/LABEL` lines of an item, in field order:
/// fields without a label, with a label that is not an identifier or
/// without a value give none. No secret value enters a line.
pub fn item_to_reference_lines(item: &ItemGet, vault_id: &str, item_id: &str) -> (r: Vec<String>)
    ensures
        line_views(r@) == reference_lines(item.fields@, vault_id@, item_id@),
{
    let vc = chars_of(vault_id);
    let ic = chars_of(item_id);
    let ghost all = Seq::new(
        item.fields@.len(),
        |i: int| reference_line(item.fields@[i], vault_id@, item_id@),
    );
    let mut out: Vec<String> = Vec::new();
    let mut i: usize = 0;
    assert(line_views(out@) =~= Seq::empty());
    while i < item.fields.len()
        invariant
            i <= item.fields@.len(),
            vc@ == vault_id@,
            ic@ == item_id@,
            all == Seq::new(
                item.fields@.len(),
                |i: int| reference_line(item.fields@[i], vault_id@, item_id@),
            ),
            line_views(out@) == present(all.subrange(0, i as int)),
        decreases item.fields@.len() - i,
    {
        assert(all.subrange(0, i + 1 as int).drop_last() == all.subrange(0, i as int));
        let ghost before = out@;
        match reference_line_exec(&item.fields[i], &vc, &ic) {
            Some(s) => {
                out.push(s);
                assert(line_views(out@) =~= line_views(before).push(s@));
            },
            None => {},
        }
        i = i + 1;
    }
    assert(all.subrange(0, all.len() as int) == all);
    out
}

} // verus!
