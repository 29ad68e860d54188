//! Package name: validated string, lowercase `[a-z0-9-_]`, non-empty.

use vstd::prelude::*;
use vstd::string::*;

use crate::text;
use crate::text::Text;
use crate::views;

verus! {

/// A character that a package name may hold.
pub open spec fn is_name_char(c: char) -> bool {
    'a' <= c <= 'z' || text::is_digit(c) || c == '-' || c == '_'
}

/// The valid package names: non-empty, only `[a-z0-9-_]`.
pub open spec fn valid_name(s: Text) -> bool {
    s.len() > 0 && forall|i: int| 0 <= i < s.len() ==> is_name_char(#[trigger] s[i])
}

/// Valid package name: non-empty, only `[a-z0-9-_]`.
#[derive(Debug, Eq, Hash, Ord, PartialEq, PartialOrd)]
pub struct PackageName(String);

impl View for PackageName {
    type V = Text;

    closed spec fn view(&self) -> Text {
        self.0@
    }
}

impl DeepView for PackageName {
    type V = Text;

    open spec fn deep_view(&self) -> Text {
        self@
    }
}

impl Clone for PackageName {
    fn clone(&self) -> (r: Self)
        ensures
            r@ == self@,
    {
        proof {
            use_type_invariant(self);
        }
        PackageName(self.0.clone())
    }
}

/// Error when a string is not a valid package name.
#[derive(Clone, Debug, Eq, PartialEq)]
pub struct InvalidPackageName {
    /// The rejected value.
    pub value: String,
}

impl View for InvalidPackageName {
    type V = Text;

    open spec fn view(&self) -> Text {
        self.value@
    }
}

impl DeepView for InvalidPackageName {
    type V = Text;

    open spec fn deep_view(&self) -> Text {
        self@
    }
}

impl InvalidPackageName {
    /// The error in words.
    pub fn to_string(&self) -> (r: String)
        ensures
            r@ == "invalid package name: "@ + text::quoted(self.value@),
    {
        "invalid package name: ".to_owned().concat(text::to_quoted(self.value.as_str()).as_str())
    }
}

impl PackageName {
    #[verifier::type_invariant]
    spec fn well_formed(self) -> bool {
        valid_name(self.0@)
    }

    /// Creates a package name from a string if it is valid.
    ///
    /// Valid: non-empty, only lowercase letters, digits, hyphen, underscore.
    pub fn new(s: &str) -> (r: Result<Self, InvalidPackageName>)
        ensures
            views::result_view(r) == if valid_name(s@) {
                Ok::<Text, Text>(s@)
            } else {
                Err(s@)
            },
    {
        if s.is_empty() {
            return Err(InvalidPackageName { value: s.to_owned() });
        }
        let chars = text::chars_of(s);
        let mut i: usize = 0;
        while i < chars.len()
            invariant
                i <= chars@.len(),
                chars@ == s@,
                forall|j: int| 0 <= j < i ==> is_name_char(#[trigger] s@[j]),
            decreases chars@.len() - i,
        {
            let c: char = chars[i];
            if !('a' <= c && c <= 'z') && !('0' <= c && c <= '9') && c != '-' && c != '_' {
                assert(!is_name_char(s@[i as int]));
                return Err(InvalidPackageName { value: s.to_owned() });
            }
            i += 1;
        }
        Ok(PackageName(s.to_owned()))
    }

    /// Returns the name as a string slice.
    pub fn as_str(&self) -> (r: &str)
        ensures
            r@ == self@,
            valid_name(self@),
    {
        proof {
            use_type_invariant(self);
        }
        self.0.as_str()
    }

    /// The name as an owned string.
    pub fn to_string(&self) -> (r: String)
        ensures
            r@ == self@,
    {
        self.0.clone()
    }

    /// Whether two names are the same.
    pub fn same(&self, other: &PackageName) -> (r: bool)
        ensures
            r == (self@ == other@),
    {
        text::same_text(self.0.as_str(), other.0.as_str())
    }

    /// Whether this name comes before `other` in the order of strings.
    pub fn precedes(&self, other: &PackageName) -> (r: bool)
        ensures
            r == text::text_lt(self@, other@),
    {
        text::precedes(self.0.as_str(), other.0.as_str())
    }
}

} // verus!
