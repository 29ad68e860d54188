//! Storage: installed.toml, lockfile, and cache path contract.

use vstd::prelude::*;

use crate::text::Text;

pub mod cache;
pub mod installed;
pub mod lockfile;

pub use cache::cache_path;
pub use installed::{InstalledDb, InstalledEntry, InstalledLoadError, InstalledWriteError};
pub use lockfile::{Lockfile, LockfileLoadError, LockfilePackage, LockfileWriteError};

verus! {

/// What was found where a document is stored.
#[derive(Debug)]
pub enum Stored<T> {
    /// There is no file, or what is there is not a file.
    Missing,
    /// The file could not be read, with the reason.
    Unreadable(String),
    /// The file could not be decoded, with the reason.
    Malformed(String),
    /// The decoded document.
    Document(T),
}

/// What a [`Stored`] holds.
pub enum StoredView<T> {
    Missing,
    Unreadable(Text),
    Malformed(Text),
    Document(T),
}

impl<T: DeepView> DeepView for Stored<T> {
    type V = StoredView<T::V>;

    open spec fn deep_view(&self) -> StoredView<T::V> {
        match self {
            Stored::Missing => StoredView::Missing,
            Stored::Unreadable(e) => StoredView::Unreadable(e@),
            Stored::Malformed(e) => StoredView::Malformed(e@),
            Stored::Document(d) => StoredView::Document(d.deep_view()),
        }
    }
}

} // verus!
