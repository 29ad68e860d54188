//! Source: type, url, hash (algorithm:hex).

use std::str::FromStr;

use vstd::prelude::*;
use vstd::string::*;

use crate::text;
use crate::text::Text;
use crate::views;

verus! {

/// Source descriptor: type (e.g. tarball), url, hash.
#[derive(Debug, Eq, PartialEq)]
pub struct Source {
    /// Source type, e.g. "tarball".
    pub kind: String,
    /// URL to fetch from.
    pub url: String,
    /// Hash for verification (e.g. sha256:hex).
    pub hash: SourceHash,
}

/// Parsed hash: algorithm and hex digest.
#[derive(Debug, Eq, PartialEq)]
pub struct SourceHash {
    /// Algorithm name, e.g. "sha256".
    pub algorithm: String,
    /// Hex-encoded digest (lowercase).
    pub hex: String,
}

/// What a [`Source`] holds.
pub struct SourceView {
    pub kind: Text,
    pub url: Text,
    pub hash: SourceHashView,
}

/// What a [`SourceHash`] holds.
pub struct SourceHashView {
    pub algorithm: Text,
    pub hex: Text,
}

impl DeepView for Source {
    type V = SourceView;

    open spec fn deep_view(&self) -> SourceView {
        SourceView { kind: self.kind@, url: self.url@, hash: self.hash.deep_view() }
    }
}

impl View for Source {
    type V = SourceView;

    open spec fn view(&self) -> SourceView {
        self.deep_view()
    }
}

impl DeepView for SourceHash {
    type V = SourceHashView;

    open spec fn deep_view(&self) -> SourceHashView {
        SourceHashView { algorithm: self.algorithm@, hex: self.hex@ }
    }
}

impl View for SourceHash {
    type V = SourceHashView;

    open spec fn view(&self) -> SourceHashView {
        self.deep_view()
    }
}

impl Clone for Source {
    fn clone(&self) -> (r: Self)
        ensures
            r@ == self@,
    {
        Source {
            kind: self.kind.clone(),
            url: self.url.clone(),
            hash: self.hash.clone(),
        }
    }
}

impl Clone for SourceHash {
    fn clone(&self) -> (r: Self)
        ensures
            r@ == self@,
    {
        SourceHash { algorithm: self.algorithm.clone(), hex: self.hex.clone() }
    }
}

/// Error when source hash string is invalid.
#[derive(Clone, Debug, Eq, PartialEq)]
pub enum InvalidSourceHash {
    MissingColon { value: String },
    EmptyAlgorithm { value: String },
    UnknownAlgorithm { value: String, algorithm: String },
    EmptyHex { value: String },
    InvalidHex { value: String },
}

/// What an [`InvalidSourceHash`] holds.
pub enum InvalidSourceHashView {
    MissingColon { value: Text },
    EmptyAlgorithm { value: Text },
    UnknownAlgorithm { value: Text, algorithm: Text },
    EmptyHex { value: Text },
    InvalidHex { value: Text },
}

impl DeepView for InvalidSourceHash {
    type V = InvalidSourceHashView;

    open spec fn deep_view(&self) -> InvalidSourceHashView {
        match self {
            InvalidSourceHash::MissingColon { value } => InvalidSourceHashView::MissingColon {
                value: value@,
            },
            InvalidSourceHash::EmptyAlgorithm { value } => InvalidSourceHashView::EmptyAlgorithm {
                value: value@,
            },
            InvalidSourceHash::UnknownAlgorithm { value, algorithm } =>
                InvalidSourceHashView::UnknownAlgorithm { value: value@, algorithm: algorithm@ },
            InvalidSourceHash::EmptyHex { value } => InvalidSourceHashView::EmptyHex {
                value: value@,
            },
            InvalidSourceHash::InvalidHex { value } => InvalidSourceHashView::InvalidHex {
                value: value@,
            },
        }
    }
}

impl View for InvalidSourceHash {
    type V = InvalidSourceHashView;

    open spec fn view(&self) -> InvalidSourceHashView {
        self.deep_view()
    }
}

/// The words for an [`InvalidSourceHash`].
pub open spec fn invalid_text(e: InvalidSourceHashView) -> Text {
    match e {
        InvalidSourceHashView::MissingColon { value } => "source hash must be algorithm:hex, got "@
            + text::quoted(value),
        InvalidSourceHashView::EmptyAlgorithm { value } => "source hash algorithm is empty in "@
            + text::quoted(value),
        InvalidSourceHashView::UnknownAlgorithm { value, algorithm } => "unknown hash algorithm "@
            + text::quoted(algorithm) + " in "@ + text::quoted(value),
        InvalidSourceHashView::EmptyHex { value } => "source hash hex is empty in "@ + text::quoted(
            value,
        ),
        InvalidSourceHashView::InvalidHex { value } => "source hash hex is invalid in "@
            + text::quoted(value),
    }
}

impl InvalidSourceHash {
    /// The error in words.
    pub fn to_string(&self) -> (r: String)
        ensures
            r@ == invalid_text(self@),
    {
        match self {
            InvalidSourceHash::MissingColon { value } =>
                "source hash must be algorithm:hex, got ".to_owned().concat(
                text::to_quoted(value.as_str()).as_str(),
            ),
            InvalidSourceHash::EmptyAlgorithm { value } =>
                "source hash algorithm is empty in ".to_owned().concat(
                text::to_quoted(value.as_str()).as_str(),
            ),
            InvalidSourceHash::UnknownAlgorithm { value, algorithm } =>
                "unknown hash algorithm ".to_owned().concat(
                text::to_quoted(algorithm.as_str()).as_str(),
            ).concat(" in ").concat(text::to_quoted(value.as_str()).as_str()),
            InvalidSourceHash::EmptyHex { value } =>
                "source hash hex is empty in ".to_owned().concat(
                text::to_quoted(value.as_str()).as_str(),
            ),
            InvalidSourceHash::InvalidHex { value } =>
                "source hash hex is invalid in ".to_owned().concat(
                text::to_quoted(value.as_str()).as_str(),
            ),
        }
    }
}

/// The hash algorithms that a source may name.
pub open spec fn allowed_algorithm(s: Text) -> bool {
    s == "sha256"@ || s == "sha512"@
}

/// Whether `s` holds lowercase hexadecimal digits only.
pub open spec fn all_hex(s: Text) -> bool {
    forall|i: int| 0 <= i < s.len() ==> text::is_lower_hex(#[trigger] s[i])
}

/// A hash as parsing gives it: a known algorithm and lowercase hexadecimal digits.
pub open spec fn valid_hash(h: SourceHashView) -> bool {
    &&& allowed_algorithm(h.algorithm)
    &&& h.hex.len() > 0
    &&& all_hex(h.hex)
}

/// The hash as it is written.
pub open spec fn hash_text(h: SourceHashView) -> Text {
    h.algorithm + ":"@ + h.hex
}

/// The hash of the lowercase parts `algorithm` and `hex` of `value`, or what is wrong with it.
pub open spec fn hash_of_parts(value: Text, algorithm: Text, hex: Text) -> Result<
    SourceHashView,
    InvalidSourceHashView,
> {
    if algorithm.len() == 0 {
        Err(InvalidSourceHashView::EmptyAlgorithm { value })
    } else if !allowed_algorithm(algorithm) {
        Err(InvalidSourceHashView::UnknownAlgorithm { value, algorithm })
    } else if hex.len() == 0 {
        Err(InvalidSourceHashView::EmptyHex { value })
    } else if !all_hex(hex) {
        Err(InvalidSourceHashView::InvalidHex { value })
    } else {
        Ok(SourceHashView { algorithm, hex })
    }
}

/// The hash that `s` writes, or what is wrong with it.
pub open spec fn parsed(s: Text) -> Result<SourceHashView, InvalidSourceHashView> {
    match text::split_once(s, ":"@) {
        None => Err(InvalidSourceHashView::MissingColon { value: s }),
        Some((algorithm, hex)) => hash_of_parts(
            s,
            text::lowered(text::trimmed(algorithm)),
            text::lowered(text::trimmed(hex)),
        ),
    }
}

impl SourceHash {
    /// Parses a string of the form `algorithm:hex` (e.g. `sha256:abc123...`).
    pub fn parse(s: &str) -> (r: Result<Self, InvalidSourceHash>)
        ensures
            views::result_view(r) == parsed(s@),
    {
        match text::split_at_first(s, ":") {
            None => Err(InvalidSourceHash::MissingColon { value: s.to_owned() }),
            Some((algorithm, hex)) => SourceHash::from_parts(
                s,
                text::to_lowercase(text::trim(algorithm.as_str())),
                text::to_lowercase(text::trim(hex.as_str())),
            ),
        }
    }

    /// The hash of the lowercase parts of `value`: `algorithm` and `hex`.
    pub fn from_parts(value: &str, algorithm: String, hex: String) -> (r: Result<
        Self,
        InvalidSourceHash,
    >)
        ensures
            views::result_view(r) == hash_of_parts(value@, algorithm@, hex@),
    {
        if algorithm.as_str().is_empty() {
            return Err(InvalidSourceHash::EmptyAlgorithm { value: value.to_owned() });
        }
        if !text::same_text(algorithm.as_str(), "sha256") && !text::same_text(
            algorithm.as_str(),
            "sha512",
        ) {
            return Err(InvalidSourceHash::UnknownAlgorithm { value: value.to_owned(), algorithm });
        }
        if hex.as_str().is_empty() {
            return Err(InvalidSourceHash::EmptyHex { value: value.to_owned() });
        }
        let chars = text::chars_of(hex.as_str());
        let mut i: usize = 0;
        while i < chars.len()
            invariant
                i <= chars@.len(),
                chars@ == hex@,
                allowed_algorithm(algorithm@),
                algorithm@.len() > 0,
                hex@.len() > 0,
                forall|j: int| 0 <= j < i ==> text::is_lower_hex(#[trigger] hex@[j]),
            decreases chars@.len() - i,
        {
            let c: char = chars[i];
            if !('0' <= c && c <= '9') && !('a' <= c && c <= 'f') {
                assert(!text::is_lower_hex(hex@[i as int]));
                return Err(InvalidSourceHash::InvalidHex { value: value.to_owned() });
            }
            i += 1;
        }
        Ok(SourceHash { algorithm, hex })
    }

    /// The hash as it is written: `algorithm:hex`.
    pub fn to_string(&self) -> (r: String)
        ensures
            r@ == hash_text(self@),
    {
        self.algorithm.clone().concat(":").concat(self.hex.as_str())
    }
}

impl FromStr for SourceHash {
    type Err = InvalidSourceHash;

    fn from_str(s: &str) -> (r: Result<Self, Self::Err>)
        ensures
            views::result_view(r) == parsed(s@),
    {
        Self::parse(s)
    }
}

/// Text without white space at its ends is left as it is by trimming.
proof fn lemma_trimmed_same(s: Text)
    requires
        s.len() > 0 ==> !text::is_space(s[0]) && !text::is_space(s.last()),
    ensures
        text::trimmed(s) == s,
{
}

/// Text that is ASCII and holds no capital letter is its own lowercase.
proof fn lemma_lowered_same(s: Text)
    requires
        forall|i: int| 0 <= i < s.len() ==> (#[trigger] s[i] as u32) < 128 && !('A' <= s[i] <= 'Z'),
    ensures
        text::lowered(s) == s,
{
    assert(text::ascii_lowered(s) =~= s);
    assert(vstd::utf8::is_ascii_chars(s));
}

proof fn lemma_algorithm_plain(s: Text)
    requires
        allowed_algorithm(s),
    ensures
        s.len() > 0,
        text::trimmed(s) == s,
        text::lowered(s) == s,
        forall|i: int| 0 <= i < s.len() ==> s[i] != ':',
{
    reveal_strlit("sha256");
    reveal_strlit("sha512");
    lemma_trimmed_same(s);
    lemma_lowered_same(s);
}

/// Reading a valid hash back from its text gives the same hash.
pub proof fn lemma_hash_roundtrip(h: SourceHashView)
    requires
        valid_hash(h),
    ensures
        parsed(hash_text(h)) == Ok::<SourceHashView, InvalidSourceHashView>(h),
{
    lemma_algorithm_plain(h.algorithm);
    reveal_strlit(":");
    assert(":"@ =~= seq![':']);
    text::lemma_split_once_char(h.algorithm, ':', h.hex);
    lemma_trimmed_same(h.hex);
    lemma_lowered_same(h.hex);
}

/// Different valid hashes are written differently.
pub proof fn lemma_hash_text_injective(a: SourceHashView, b: SourceHashView)
    requires
        valid_hash(a),
        valid_hash(b),
        hash_text(a) == hash_text(b),
    ensures
        a == b,
{
    lemma_hash_roundtrip(a);
    lemma_hash_roundtrip(b);
}

/// A text writes a hash exactly when it has a colon, what stands before the first one is a known
/// algorithm, and what stands behind it is not empty and hexadecimal, both without white space around
/// them and in lowercase. The hash is valid, and reading it back from its own text gives it again.
pub proof fn lemma_parse_accepts(s: Text)
    ensures
        parsed(s) is Ok <==> (text::split_once(s, ":"@) matches Some((a, b)) && allowed_algorithm(
            text::lowered(text::trimmed(a)),
        ) && text::lowered(text::trimmed(b)).len() > 0 && all_hex(
            text::lowered(text::trimmed(b)),
        )),
        parsed(s) matches Ok(h) ==> valid_hash(h) && (text::split_once(s, ":"@) matches Some((a, b))
            && h.algorithm == text::lowered(text::trimmed(a)) && h.hex == text::lowered(
            text::trimmed(b),
        )) && parsed(hash_text(h)) == Ok::<SourceHashView, InvalidSourceHashView>(h),
{
    reveal_strlit("sha256");
    reveal_strlit("sha512");
    if let Ok(h) = parsed(s) {
        lemma_hash_roundtrip(h);
    }
}

} // verus!
