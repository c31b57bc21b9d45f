//! The directory cache's file names and freshness rule, and the argument
//! lists of the backend calls.

use vstd::prelude::*;
use sha2::Digest;
use vstd::string::StringSliceAdditionalSpecFns;
use crate::merge::strings_view;
use crate::text::{push_all, string_of};

verus! {

/// How long a cached listing is trusted, in milliseconds.
pub const CACHE_TTL_MILLIS: u128 = 60000;

/// Whether a cache file whose age is `elapsed_millis` may still be used.
pub fn is_cache_fresh(elapsed_millis: u128) -> (r: bool)
    ensures
        r == (elapsed_millis < CACHE_TTL_MILLIS),
{
    elapsed_millis < CACHE_TTL_MILLIS
}

/// The SHA-256 digest of a byte sequence.
pub uninterp spec fn sha256_of(data: Seq<u8>) -> Seq<u8>;

/// Relies on `sha2::Sha256::digest`: the SHA-256 digest of `data`, 32 bytes.
#[verifier::external_body]
fn sha256_digest(data: &[u8]) -> (r: Vec<u8>)
    ensures
        r@ == sha256_of(data@),
        r@.len() == 32,
{
    sha2::Sha256::digest(data).to_vec()
}

/// The lower-case hexadecimal digit of `n`, for `n` below 16.
pub open spec fn hex_digit(n: u8) -> char {
    seq!['0', '1', '2', '3', '4', '5', '6', '7', '8', '9', 'a', 'b', 'c', 'd', 'e', 'f'][n as int]
}

/// `b` in lower-case hexadecimal: two digits for each byte, the high half first.
pub open spec fn hex_lower(b: Seq<u8>) -> Seq<char>
    decreases b.len(),
{
    if b.len() == 0 {
        Seq::empty()
    } else {
        hex_lower(b.drop_last()) + seq![hex_digit(b.last() / 16), hex_digit(b.last() % 16)]
    }
}

/// Relies on `hex::encode`: two lower-case digits for each byte, high half first.
#[verifier::external_body]
fn hex_encode(b: &Vec<u8>) -> (r: String)
    ensures
        r@ == hex_lower(b@),
{
    hex::encode(b)
}

/// The byte that keys the listing of all vaults: `0xFF`, which occurs in
/// no UTF-8 text and so in no vault name.
pub const ALL_VAULTS_KEY: u8 = 0xFF;

/// The bytes that key the cache of a vault selector: the vault's name, or
/// the single byte `ALL_VAULTS_KEY` where no vault is given.
pub open spec fn cache_key_bytes(vault: Option<&str>) -> Seq<u8> {
    match vault {
        Some(v) => v.spec_bytes(),
        None => seq![ALL_VAULTS_KEY],
    }
}

/// The key of "all vaults" is the key of no vault name: a listing of all
/// vaults and one of a single vault never share a cache file's key.
pub proof fn lemma_all_vaults_key_is_no_name(v: &str)
    ensures
        cache_key_bytes(None) != cache_key_bytes(Some(v)),
{
    vstd::utf8::encode_utf8_valid_utf8(v@);
    let all = seq![ALL_VAULTS_KEY];
    assert(!vstd::utf8::valid_first_scalar(all));
    assert(!vstd::utf8::valid_utf8(all));
}

/// The name of the cache file of a vault selector:
/// `item_list_<hex of the SHA-256 of the key>.json`.
pub open spec fn cache_name(vault: Option<&str>) -> Seq<char> {
    seq!['i', 't', 'e', 'm', '_', 'l', 'i', 's', 't', '_'] + hex_lower(
        sha256_of(cache_key_bytes(vault)),
    ) + seq!['.', 'j', 's', 'o', 'n']
}

/// The file name under which the listing of `vault` (of all vaults, for
/// `None`) is cached. The key of all vaults is no vault's name.
pub fn cache_file_name(vault: Option<&str>) -> (r: String)
    ensures
        r@ == cache_name(vault),
        forall|v: &str| cache_key_bytes(None) != #[trigger] cache_key_bytes(Some(v)),
{
    proof {
        assert forall|v: &str| cache_key_bytes(None) != #[trigger] cache_key_bytes(Some(v)) by {
            lemma_all_vaults_key_is_no_name(v);
        }
    }
    let digest = match vault {
        Some(v) => sha256_digest(v.as_bytes()),
        None => {
            let all: Vec<u8> = vec![ALL_VAULTS_KEY];
            assert(all@ =~= cache_key_bytes(None));
            sha256_digest(all.as_slice())
        },
    };
    let hex = crate::text::chars_of(hex_encode(&digest).as_str());
    let mut out: Vec<char> = vec!['i', 't', 'e', 'm', '_', 'l', 'i', 's', 't', '_'];
    push_all(&mut out, &hex);
    out.push('.');
    out.push('j');
    out.push('s');
    out.push('o');
    out.push('n');
    assert(out@ =~= cache_name(vault));
    string_of(&out)
}

/// The arguments of the backend's listing call, scoped to `vault` if given.
pub open spec fn list_args(vault: Option<&str>) -> Seq<Seq<char>> {
    let base = seq!["item"@, "list"@, "--format"@, "json"@];
    match vault {
        Some(v) => base + seq!["--vault"@, v@],
        None => base,
    }
}

/// The arguments of the backend's listing call: `item list --format json`,
/// then `--vault <name>` where a vault is given.
pub fn item_list_args(vault: Option<&str>) -> (r: Vec<String>)
    ensures
        strings_view(r@) == list_args(vault),
{
    let mut r: Vec<String> = Vec::new();
    r.push("item".to_owned());
    r.push("list".to_owned());
    r.push("--format".to_owned());
    r.push("json".to_owned());
    match vault {
        Some(v) => {
            r.push("--vault".to_owned());
            r.push(v.to_owned());
        },
        None => {},
    }
    assert(strings_view(r@) =~= list_args(vault));
    r
}

/// The arguments of the backend's call that fetches one item.
pub open spec fn get_args(item_id: Seq<char>) -> Seq<Seq<char>> {
    seq!["item"@, "get"@, item_id, "--format"@, "json"@]
}

/// The arguments of the backend's call that fetches the item `item_id`:
/// `item get <id> --format json`.
pub fn item_get_args(item_id: &str) -> (r: Vec<String>)
    ensures
        strings_view(r@) == get_args(item_id@),
{
    let mut r: Vec<String> = Vec::new();
    r.push("item".to_owned());
    r.push("get".to_owned());
    r.push(item_id.to_owned());
    r.push("--format".to_owned());
    r.push("json".to_owned());
    assert(strings_view(r@) =~= get_args(item_id@));
    r
}

} // verus!
