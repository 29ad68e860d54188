//! Cache layout contract: deterministic path under prefix/var/cache for fetched artifacts.
//!
//! **Contract:** `var/cache/` under prefix stores fetched package artifacts. Naming is
//! deterministic from (url, hash) so the same source always maps to the same path,
//! enabling lookup without re-download. No download or filesystem write is performed here; only
//! the path contract and helper.

use sha2::Digest;

use vstd::prelude::*;
use vstd::string::*;

use crate::source;
use crate::source::{Source, SourceView};
use crate::text;
use crate::text::Text;

verus! {

/// The SHA-256 digest of the bytes.
pub uninterp spec fn sha256(data: Seq<u8>) -> Seq<u8>;

/// `sha2::Sha256::digest`: the SHA-256 digest of the bytes, named [`sha256`], of 32 bytes.
#[verifier::external_body]
pub(crate) fn sha256_digest(data: &[u8]) -> (r: Vec<u8>)
    ensures
        r@ == sha256(data@),
        r@.len() == 32,
{
    sha2::Sha256::digest(data).to_vec()
}

/// The text that names a source in the cache: its URL and hash.
pub open spec fn cache_key(s: SourceView) -> Text {
    s.url + source::hash_text(s.hash)
}

/// The cache entry of a source, as a path relative to the prefix.
pub open spec fn cache_entry(s: SourceView) -> Text {
    entry_of_digest(sha256(vstd::utf8::encode_utf8(cache_key(s))))
}

/// The cache entry under the given digest, as a path relative to the prefix.
pub open spec fn entry_of_digest(digest: Seq<u8>) -> Text {
    "var/cache/"@ + text::hex(digest) + "/artifact"@
}

/// The cache entry under the given digest, as a path relative to the prefix.
pub fn digest_entry(digest: &Vec<u8>) -> (r: String)
    ensures
        r@ == entry_of_digest(digest@),
{
    "var/cache/".to_owned().concat(text::hex_text(digest).as_str()).concat("/artifact")
}

/// The path, relative to the prefix, where the artifact for `source` is stored or found.
pub fn relative_cache_path(source: &Source) -> (r: String)
    ensures
        r@ == cache_entry(source@),
{
    let key = source.url.clone().concat(source.hash.to_string().as_str());
    digest_entry(&sha256_digest(key.as_str().as_bytes()))
}

/// Returns the path under `prefix/var/cache/` where the artifact for `source` should be
/// stored or found. Deterministic: same (url, hash) always yields the same path.
///
/// Layout: `prefix/var/cache/<sha256(url+hash)>/artifact` so that:
/// - Same source (url + hash) maps to one cache entry.
/// - Different sources hash different texts.
pub fn cache_path(prefix: &str, source: &Source) -> (r: String)
    ensures
        r@ == text::path_join(prefix@, cache_entry(source@)),
{
    text::join_path(prefix, relative_cache_path(source).as_str())
}

/// Sources with the same URL and hash share one cache entry.
pub proof fn lemma_same_source_same_entry(a: SourceView, b: SourceView)
    requires
        a.url == b.url,
        a.hash == b.hash,
    ensures
        cache_entry(a) == cache_entry(b),
{
}

/// Sources that differ in URL or hash are named by different texts.
pub proof fn lemma_cache_key_injective(a: SourceView, b: SourceView)
    requires
        source::valid_hash(a.hash),
        source::valid_hash(b.hash),
        cache_key(a) == cache_key(b),
    ensures
        a.url == b.url,
        a.hash == b.hash,
{
    let k = cache_key(a);
    reveal_strlit("sha256");
    reveal_strlit("sha512");
    reveal_strlit(":");
    let i = a.url.len() as int + 6;
    let j = b.url.len() as int + 6;
    assert(k == cache_key(b));
    assert(k.len() == i + 1 + a.hash.hex.len());
    assert(k.len() == j + 1 + b.hash.hex.len());
    assert(k[i] == ':');
    assert(k[j] == ':');
    if i < j {
        assert(k[j] == a.hash.hex[j - i - 1]);
        assert(text::is_lower_hex(a.hash.hex[j - i - 1]));
    }
    if j < i {
        assert(k[i] == b.hash.hex[i - j - 1]);
        assert(text::is_lower_hex(b.hash.hex[i - j - 1]));
    }
    assert(a.url =~= k.take(a.url.len() as int));
    assert(b.url =~= k.take(b.url.len() as int));
    assert(a.hash.algorithm =~= k.subrange(a.url.len() as int, i));
    assert(b.hash.algorithm =~= k.subrange(b.url.len() as int, j));
    assert(a.hash.hex =~= k.skip(i + 1));
    assert(b.hash.hex =~= k.skip(j + 1));
}

} // verus!
