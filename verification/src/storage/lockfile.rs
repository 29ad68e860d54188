//! sic.lock: resolved package set with exact versions and sources.

use vstd::prelude::*;
use vstd::string::*;

use crate::package_name::PackageName;
use crate::source::{Source, SourceView};
use crate::storage::{Stored, StoredView};
use crate::text::Text;
use crate::version::Version;
use crate::views;

verus! {

/// One locked package in sic.lock.
#[derive(Debug, Eq, PartialEq)]
pub struct LockfilePackage {
    pub name: PackageName,
    pub version: Version,
    pub revision: u32,
    pub source: Source,
}

/// Root lockfile: [[packages]] array.
#[derive(Debug, Eq, PartialEq)]
pub struct Lockfile {
    pub packages: Vec<LockfilePackage>,
}

/// What a [`LockfilePackage`] holds.
pub struct LockfilePackageView {
    pub name: Text,
    pub version: Text,
    pub revision: u32,
    pub source: SourceView,
}

impl DeepView for LockfilePackage {
    type V = LockfilePackageView;

    open spec fn deep_view(&self) -> LockfilePackageView {
        LockfilePackageView {
            name: self.name@,
            version: self.version@,
            revision: self.revision,
            source: self.source@,
        }
    }
}

impl View for LockfilePackage {
    type V = LockfilePackageView;

    open spec fn view(&self) -> LockfilePackageView {
        self.deep_view()
    }
}

impl Clone for LockfilePackage {
    fn clone(&self) -> (r: Self)
        ensures
            r@ == self@,
    {
        LockfilePackage {
            name: self.name.clone(),
            version: self.version.clone(),
            revision: self.revision,
            source: self.source.clone(),
        }
    }
}

impl DeepView for Lockfile {
    type V = Seq<LockfilePackageView>;

    open spec fn deep_view(&self) -> Seq<LockfilePackageView> {
        self.packages.deep_view()
    }
}

impl View for Lockfile {
    type V = Seq<LockfilePackageView>;

    open spec fn view(&self) -> Seq<LockfilePackageView> {
        self.deep_view()
    }
}

impl Clone for Lockfile {
    fn clone(&self) -> (r: Self)
        ensures
            r@ == self@,
    {
        Lockfile { packages: self.packages.clone() }
    }
}

impl Default for Lockfile {
    fn default() -> (r: Self)
        ensures
            r@ == Seq::<LockfilePackageView>::empty(),
    {
        let r = Lockfile { packages: Vec::new() };
        assert(r@ =~= Seq::empty());
        r
    }
}

/// Whether an entry has the name.
pub open spec fn named(name: Text) -> spec_fn(LockfilePackageView) -> bool {
    |p: LockfilePackageView| p.name == name
}

/// The locked packages with the name.
pub open spec fn locked_for(packages: Seq<LockfilePackageView>, name: Text) -> Seq<
    LockfilePackageView,
> {
    packages.filter(named(name))
}

/// What loading a lockfile gives: nothing stored is no lockfile.
pub open spec fn loaded(stored: StoredView<Seq<LockfilePackageView>>) -> Result<
    Option<Seq<LockfilePackageView>>,
    LockfileLoadErrorView,
> {
    match stored {
        StoredView::Missing => Ok(None),
        StoredView::Unreadable(e) => Err(LockfileLoadErrorView::Io(e)),
        StoredView::Malformed(e) => Err(LockfileLoadErrorView::Parse(e)),
        StoredView::Document(packages) => Ok(Some(packages)),
    }
}

impl Lockfile {
    /// Loads the lockfile from what is stored. Missing file or non-file (e.g. directory) returns
    /// Ok(None). Parse error returns Err.
    pub fn load(stored: Stored<Lockfile>) -> (r: Result<Option<Lockfile>, LockfileLoadError>)
        ensures
            views::result_view(r) == loaded(stored.deep_view()),
    {
        match stored {
            Stored::Missing => Ok(None),
            Stored::Unreadable(e) => Err(LockfileLoadError::Io(e)),
            Stored::Malformed(e) => Err(LockfileLoadError::Parse(e)),
            Stored::Document(lockfile) => Ok(Some(lockfile)),
        }
    }

    /// Returns all locked packages with the given name (for resolver lookup).
    pub fn packages_for_name(&self, name: &PackageName) -> (r: Vec<&LockfilePackage>)
        ensures
            r.deep_view() == locked_for(self@, name@),
    {
        let ghost all = self@;
        let mut out: Vec<&LockfilePackage> = Vec::new();
        let mut i: usize = 0;
        proof {
            reveal(Seq::filter);
        }
        assert(out.deep_view() =~= locked_for(all.take(0), name@));
        while i < self.packages.len()
            invariant
                i <= self.packages@.len(),
                all == self.packages.deep_view(),
                out.deep_view() == locked_for(all.take(i as int), name@),
            decreases self.packages@.len() - i,
        {
            let ghost before = out.deep_view();
            assert(all[i as int] == self.packages@[i as int]@);
            assert(all.take(i + 1).drop_last() == all.take(i as int));
            proof {
                reveal(Seq::filter);
            }
            if self.packages[i].name.same(name) {
                out.push(&self.packages[i]);
                assert(out.deep_view() =~= before.push(all[i as int]));
            }
            i += 1;
        }
        assert(all.take(all.len() as int) == all);
        out
    }
}

/// Error loading lockfile.
#[derive(Clone, Debug, Eq, PartialEq)]
pub enum LockfileLoadError {
    Io(String),
    Parse(String),
}

/// What a [`LockfileLoadError`] holds.
pub enum LockfileLoadErrorView {
    Io(Text),
    Parse(Text),
}

impl DeepView for LockfileLoadError {
    type V = LockfileLoadErrorView;

    open spec fn deep_view(&self) -> LockfileLoadErrorView {
        match self {
            LockfileLoadError::Io(e) => LockfileLoadErrorView::Io(e@),
            LockfileLoadError::Parse(e) => LockfileLoadErrorView::Parse(e@),
        }
    }
}

/// The words for a [`LockfileLoadError`].
pub open spec fn load_error_text(e: LockfileLoadErrorView) -> Text {
    match e {
        LockfileLoadErrorView::Io(e) => "lockfile read error: "@ + e,
        LockfileLoadErrorView::Parse(e) => "lockfile parse error: "@ + e,
    }
}

impl LockfileLoadError {
    /// The error in words.
    pub fn to_string(&self) -> (r: String)
        ensures
            r@ == load_error_text(self.deep_view()),
    {
        match self {
            LockfileLoadError::Io(e) => "lockfile read error: ".to_owned().concat(e.as_str()),
            LockfileLoadError::Parse(e) => "lockfile parse error: ".to_owned().concat(e.as_str()),
        }
    }
}

/// Error writing lockfile.
#[derive(Clone, Debug, Eq, PartialEq)]
pub enum LockfileWriteError {
    Io(String),
    Serialize(String),
}

/// What a [`LockfileWriteError`] holds.
pub enum LockfileWriteErrorView {
    Io(Text),
    Serialize(Text),
}

impl DeepView for LockfileWriteError {
    type V = LockfileWriteErrorView;

    open spec fn deep_view(&self) -> LockfileWriteErrorView {
        match self {
            LockfileWriteError::Io(e) => LockfileWriteErrorView::Io(e@),
            LockfileWriteError::Serialize(e) => LockfileWriteErrorView::Serialize(e@),
        }
    }
}

/// The words for a [`LockfileWriteError`].
pub open spec fn write_error_text(e: LockfileWriteErrorView) -> Text {
    match e {
        LockfileWriteErrorView::Io(e) => "lockfile write error: "@ + e,
        LockfileWriteErrorView::Serialize(e) => "lockfile serialize error: "@ + e,
    }
}

impl LockfileWriteError {
    /// The error in words.
    pub fn to_string(&self) -> (r: String)
        ensures
            r@ == write_error_text(self.deep_view()),
    {
        match self {
            LockfileWriteError::Io(e) => "lockfile write error: ".to_owned().concat(e.as_str()),
            LockfileWriteError::Serialize(e) => "lockfile serialize error: ".to_owned().concat(
                e.as_str(),
            ),
        }
    }
}

} // verus!
