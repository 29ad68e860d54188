//! installed.toml: installed package database under prefix/var/installed.toml.

use vstd::prelude::*;
use vstd::string::*;

use crate::package_name::PackageName;
use crate::storage::{Stored, StoredView};
use crate::table;
use crate::text;
use crate::text::Text;
use crate::version::Version;
use crate::views;

verus! {

/// One installed package entry in the database.
#[derive(Debug, Eq, PartialEq)]
pub struct InstalledEntry {
    pub name: PackageName,
    pub version: Version,
    pub revision: u32,
    /// Path under prefix, e.g. "pkgs/helix-24.03".
    pub install_path: String,
    /// Relative paths of installed files.
    pub files: Vec<String>,
    /// Optional checksums per file for rollback/verification.
    pub file_checksums: Vec<String>,
}

/// What an [`InstalledEntry`] holds.
pub struct InstalledEntryView {
    pub name: Text,
    pub version: Text,
    pub revision: u32,
    pub install_path: Text,
    pub files: Seq<Text>,
    pub file_checksums: Seq<Text>,
}

impl DeepView for InstalledEntry {
    type V = InstalledEntryView;

    open spec fn deep_view(&self) -> InstalledEntryView {
        InstalledEntryView {
            name: self.name@,
            version: self.version@,
            revision: self.revision,
            install_path: self.install_path@,
            files: self.files.deep_view(),
            file_checksums: self.file_checksums.deep_view(),
        }
    }
}

impl View for InstalledEntry {
    type V = InstalledEntryView;

    open spec fn view(&self) -> InstalledEntryView {
        self.deep_view()
    }
}

impl Clone for InstalledEntry {
    fn clone(&self) -> (r: Self)
        ensures
            r@ == self@,
    {
        InstalledEntry {
            name: self.name.clone(),
            version: self.version.clone(),
            revision: self.revision,
            install_path: self.install_path.clone(),
            files: self.files.clone(),
            file_checksums: self.file_checksums.clone(),
        }
    }
}

/// Installed package database. Supports lookup by name and list all.
#[derive(Debug, Eq, PartialEq)]
pub struct InstalledDb(Vec<InstalledEntry>);

impl View for InstalledDb {
    type V = Seq<InstalledEntryView>;

    closed spec fn view(&self) -> Seq<InstalledEntryView> {
        self.0.deep_view()
    }
}

impl DeepView for InstalledDb {
    type V = Seq<InstalledEntryView>;

    open spec fn deep_view(&self) -> Seq<InstalledEntryView> {
        self@
    }
}

impl Clone for InstalledDb {
    fn clone(&self) -> (r: Self)
        ensures
            r@ == self@,
    {
        proof {
            use_type_invariant(self);
        }
        let entries = self.0.clone();
        assert(entries.deep_view() == self.0.deep_view());
        InstalledDb(entries)
    }
}

impl Default for InstalledDb {
    fn default() -> (r: Self)
        ensures
            r@ == Seq::<InstalledEntryView>::empty(),
    {
        let r = InstalledDb(Vec::new());
        assert(r@ =~= Seq::empty());
        r
    }
}

/// Whether the entries stand in ascending order of their names, each name once.
pub open spec fn names_ascend(entries: Seq<InstalledEntryView>) -> bool {
    forall|i: int, j: int|
        #![trigger entries[i], entries[j]]
        0 <= i < j < entries.len() ==> text::text_lt(entries[i].name, entries[j].name)
}

/// The entries by name; of entries with one name the last stays.
pub open spec fn by_name(entries: Seq<InstalledEntryView>) -> Seq<(Text, InstalledEntryView)>
    decreases entries.len(),
{
    if entries.len() == 0 {
        Seq::empty()
    } else {
        table::put(by_name(entries.drop_last()), entries.last().name, entries.last())
    }
}

/// The database of the entries: one per name, the last, in ascending order of the names.
pub open spec fn database(entries: Seq<InstalledEntryView>) -> Seq<InstalledEntryView> {
    table::values(by_name(entries))
}

/// The entry with the name.
pub open spec fn entry_of(entries: Seq<InstalledEntryView>, name: Text) -> Option<
    InstalledEntryView,
>
    decreases entries.len(),
{
    if entries.len() == 0 {
        None
    } else if entries[0].name == name {
        Some(entries[0])
    } else {
        entry_of(entries.drop_first(), name)
    }
}

/// Whether there is an entry with the name.
pub open spec fn is_installed(entries: Seq<InstalledEntryView>, name: Text) -> bool {
    exists|i: int| 0 <= i < entries.len() && (#[trigger] entries[i]).name == name
}

/// What loading the database gives: nothing stored is an empty database.
pub open spec fn loaded(stored: StoredView<Seq<InstalledEntryView>>) -> Result<
    Seq<InstalledEntryView>,
    InstalledLoadErrorView,
> {
    match stored {
        StoredView::Missing => Ok(Seq::empty()),
        StoredView::Unreadable(e) => Err(InstalledLoadErrorView::Io(e)),
        StoredView::Malformed(e) => Err(InstalledLoadErrorView::Parse(e)),
        StoredView::Document(entries) => Ok(database(entries)),
    }
}

/// What the backup of the database holds: what is stored, or the empty database where nothing is.
pub open spec fn saved(stored: StoredView<Seq<InstalledEntryView>>) -> StoredView<
    Seq<InstalledEntryView>,
> {
    if stored is Missing {
        StoredView::Document(Seq::empty())
    } else {
        stored
    }
}

impl InstalledDb {
    #[verifier::type_invariant]
    spec fn well_formed(self) -> bool {
        names_ascend(self.0.deep_view())
    }

    /// Where the database is stored under a prefix.
    pub fn relative_path() -> (r: String)
        ensures
            r@ == "var/installed.toml"@,
    {
        "var/installed.toml".to_owned()
    }

    /// What stands in for the database in the backup of a prefix that has none: the empty database,
    /// so that a rollback can restore and load it.
    pub fn stand_in(stored: bool) -> (r: Option<Self>)
        ensures
            match r {
                Some(db) => !stored && StoredView::Document(db@) == saved(StoredView::Missing),
                None => stored,
            },
    {
        if stored {
            None
        } else {
            Some(InstalledDb::default())
        }
    }

    /// Loads the database from what is stored in `prefix/var/installed.toml`. Missing file or
    /// non-file (e.g. directory) at that path returns empty db (no error).
    pub fn load(stored: Stored<Vec<InstalledEntry>>) -> (r: Result<Self, InstalledLoadError>)
        ensures
            views::result_view(r) == loaded(stored.deep_view()),
    {
        match stored {
            Stored::Missing => Ok(InstalledDb::default()),
            Stored::Unreadable(e) => Err(InstalledLoadError::Io(e)),
            Stored::Malformed(e) => Err(InstalledLoadError::Parse(e)),
            Stored::Document(entries) => Ok(InstalledDb::from_entries(entries)),
        }
    }

    /// The database of the entries. Of entries with one name the last wins, so lookup by name and
    /// the resolver see one entry per name.
    pub fn from_entries(entries: Vec<InstalledEntry>) -> (r: Self)
        ensures
            r@ == database(entries.deep_view()),
    {
        let ghost all = entries.deep_view();
        let mut index: Vec<(PackageName, InstalledEntry)> = Vec::new();
        let mut i: usize = 0;
        assert(index.deep_view() =~= Seq::empty());
        assert(all.take(0) =~= Seq::empty());
        while i < entries.len()
            invariant
                i <= entries@.len(),
                all == entries.deep_view(),
                table::sorted(index.deep_view()),
                index.deep_view() == by_name(all.take(i as int)),
            decreases entries@.len() - i,
        {
            let e = entries[i].clone();
            assert(all.take(i + 1).drop_last() == all.take(i as int));
            table::set(&mut index, e.name.clone(), e);
            i += 1;
        }
        assert(all.take(all.len() as int) == all);
        let ghost t = index.deep_view();
        let mut out: Vec<InstalledEntry> = Vec::new();
        let mut k: usize = 0;
        while k < index.len()
            invariant
                k <= index@.len(),
                t == index.deep_view(),
                out@.len() == k,
                forall|j: int| 0 <= j < k ==> (#[trigger] out@[j]).deep_view() == t[j].1,
            decreases index@.len() - k,
        {
            assert(t[k as int].1 == index@[k as int].1.deep_view());
            out.push(index[k].1.clone());
            k += 1;
        }
        assert(out.deep_view() =~= database(all));
        proof {
            lemma_database_ascends(all);
        }
        InstalledDb(out)
    }

    /// Returns all installed entries.
    pub fn list_all(&self) -> (r: &Vec<InstalledEntry>)
        ensures
            r.deep_view() == self@,
            names_ascend(self@),
    {
        proof {
            use_type_invariant(self);
        }
        &self.0
    }

    /// Lookup by package name.
    pub fn get_by_name(&self, name: &PackageName) -> (r: Option<&InstalledEntry>)
        ensures
            r.deep_view() == entry_of(self@, name@),
    {
        let ghost all = self@;
        let mut i: usize = 0;
        assert(all.skip(0) == all);
        while i < self.0.len()
            invariant
                i <= self.0@.len(),
                all == self.0.deep_view(),
                entry_of(all, name@) == entry_of(all.skip(i as int), name@),
            decreases self.0@.len() - i,
        {
            assert(all[i as int] == self.0@[i as int].deep_view());
            if self.0[i].name.same(name) {
                return Some(&self.0[i]);
            }
            assert(all.skip(i as int).drop_first() == all.skip(i + 1));
            i += 1;
        }
        None
    }
}

impl From<Vec<InstalledEntry>> for InstalledDb {
    fn from(entries: Vec<InstalledEntry>) -> (r: Self)
        ensures
            r@ == database(entries.deep_view()),
    {
        InstalledDb::from_entries(entries)
    }
}

impl vstd::std_specs::convert::FromSpecImpl<Vec<InstalledEntry>> for InstalledDb {
    open spec fn obeys_from_spec() -> bool {
        false
    }

    open spec fn from_spec(entries: Vec<InstalledEntry>) -> Self {
        arbitrary()
    }
}

/// Error loading installed.toml.
#[derive(Clone, Debug, Eq, PartialEq)]
pub enum InstalledLoadError {
    Io(String),
    Parse(String),
}

/// What an [`InstalledLoadError`] holds.
pub enum InstalledLoadErrorView {
    Io(Text),
    Parse(Text),
}

impl DeepView for InstalledLoadError {
    type V = InstalledLoadErrorView;

    open spec fn deep_view(&self) -> InstalledLoadErrorView {
        match self {
            InstalledLoadError::Io(e) => InstalledLoadErrorView::Io(e@),
            InstalledLoadError::Parse(e) => InstalledLoadErrorView::Parse(e@),
        }
    }
}

/// The words for an [`InstalledLoadError`].
pub open spec fn load_error_text(e: InstalledLoadErrorView) -> Text {
    match e {
        InstalledLoadErrorView::Io(e) => "installed.toml read error: "@ + e,
        InstalledLoadErrorView::Parse(e) => "installed.toml parse error: "@ + e,
    }
}

impl InstalledLoadError {
    /// The error in words.
    pub fn to_string(&self) -> (r: String)
        ensures
            r@ == load_error_text(self.deep_view()),
    {
        match self {
            InstalledLoadError::Io(e) => "installed.toml read error: ".to_owned().concat(
                e.as_str(),
            ),
            InstalledLoadError::Parse(e) => "installed.toml parse error: ".to_owned().concat(
                e.as_str(),
            ),
        }
    }
}

/// Error writing installed.toml.
#[derive(Clone, Debug, Eq, PartialEq)]
pub enum InstalledWriteError {
    Io(String),
    Serialize(String),
}

/// What an [`InstalledWriteError`] holds.
pub enum InstalledWriteErrorView {
    Io(Text),
    Serialize(Text),
}

impl DeepView for InstalledWriteError {
    type V = InstalledWriteErrorView;

    open spec fn deep_view(&self) -> InstalledWriteErrorView {
        match self {
            InstalledWriteError::Io(e) => InstalledWriteErrorView::Io(e@),
            InstalledWriteError::Serialize(e) => InstalledWriteErrorView::Serialize(e@),
        }
    }
}

/// The words for an [`InstalledWriteError`].
pub open spec fn write_error_text(e: InstalledWriteErrorView) -> Text {
    match e {
        InstalledWriteErrorView::Io(e) => "installed.toml write error: "@ + e,
        InstalledWriteErrorView::Serialize(e) => "installed.toml serialize error: "@ + e,
    }
}

impl InstalledWriteError {
    /// The error in words.
    pub fn to_string(&self) -> (r: String)
        ensures
            r@ == write_error_text(self.deep_view()),
    {
        match self {
            InstalledWriteError::Io(e) => "installed.toml write error: ".to_owned().concat(
                e.as_str(),
            ),
            InstalledWriteError::Serialize(e) =>
                "installed.toml serialize error: ".to_owned().concat(e.as_str()),
        }
    }
}

/// The index of the entries is sorted, and every entry stands under its own name.
pub proof fn lemma_by_name(entries: Seq<InstalledEntryView>)
    ensures
        table::sorted(by_name(entries)),
        forall|i: int|
            0 <= i < by_name(entries).len() ==> (#[trigger] by_name(entries)[i]).0 == by_name(
                entries,
            )[i].1.name,
    decreases entries.len(),
{
    if entries.len() > 0 {
        let front = by_name(entries.drop_last());
        let last = entries.last();
        lemma_by_name(entries.drop_last());
        table::lemma_put(front, last.name, last);
        let t = by_name(entries);
        assert forall|i: int| 0 <= i < t.len() implies (#[trigger] t[i]).0 == t[i].1.name by {
            table::lemma_get(t, i);
            if t[i].0 != last.name {
                assert(table::has(t, t[i].0));
                assert(table::has(front, t[i].0));
                let k = table::lemma_index(front, t[i].0);
            }
        }
    }
}

pub(crate) proof fn lemma_database_ascends(entries: Seq<InstalledEntryView>)
    ensures
        names_ascend(database(entries)),
{
    lemma_by_name(entries);
    let t = by_name(entries);
    let d = database(entries);
    assert forall|i: int, j: int| 0 <= i < j < d.len() implies text::text_lt(
        d[i].name,
        d[j].name,
    ) by {
        assert(d[i] == t[i].1 && d[j] == t[j].1);
    }
}

/// An entry is found by name exactly when there is one with that name.
pub proof fn lemma_entry_of(entries: Seq<InstalledEntryView>, name: Text)
    ensures
        entry_of(entries, name) is Some == is_installed(entries, name),
        entry_of(entries, name) matches Some(e) ==> e.name == name && entries.contains(e),
    decreases entries.len(),
{
    if entries.len() > 0 {
        let rest = entries.drop_first();
        lemma_entry_of(rest, name);
        if is_installed(entries, name) && entries[0].name != name {
            let i = choose|i: int| 0 <= i < entries.len() && (#[trigger] entries[i]).name == name;
            assert(rest[i - 1].name == name);
        }
        if is_installed(rest, name) {
            let i = choose|i: int| 0 <= i < rest.len() && (#[trigger] rest[i]).name == name;
            assert(entries[i + 1].name == name);
        }
        if let Some(e) = entry_of(rest, name) {
            let i = choose|i: int| 0 <= i < rest.len() && rest[i] == e;
            assert(entries[i + 1] == e);
        }
    }
}

/// Indexing the values of a table whose keys are the names gives the table back.
pub proof fn lemma_by_name_values(t: Seq<(Text, InstalledEntryView)>)
    requires
        table::sorted(t),
        forall|i: int| 0 <= i < t.len() ==> (#[trigger] t[i]).0 == t[i].1.name,
    ensures
        by_name(table::values(t)) == t,
    decreases t.len(),
{
    let v = table::values(t);
    if t.len() > 0 {
        let d = t.drop_last();
        assert(table::sorted(d));
        assert forall|i: int| 0 <= i < d.len() implies (#[trigger] d[i]).0 == d[i].1.name by {
            assert(d[i] == t[i]);
        }
        lemma_by_name_values(d);
        assert(v.drop_last() =~= table::values(d));
        assert(v.last() == t.last().1);
        let last = t[t.len() - 1];
        assert(last.0 == last.1.name);
        if d.len() > 0 {
            let before = t[t.len() - 2];
            assert(text::text_lt(before.0, last.0));
            text::lemma_text_lt_irreflexive(last.0);
            if text::text_lt(last.0, before.0) {
                text::lemma_text_lt_transitive(last.0, before.0, last.0);
            }
        }
        assert(by_name(v) =~= t);
    } else {
        assert(by_name(v) =~= t);
    }
}

/// Looking up a name among the values of a table is looking it up in the table.
pub proof fn lemma_entry_of_values(t: Seq<(Text, InstalledEntryView)>, name: Text)
    requires
        table::sorted(t),
        forall|i: int| 0 <= i < t.len() ==> (#[trigger] t[i]).0 == t[i].1.name,
    ensures
        entry_of(table::values(t), name) == table::get(t, name),
{
    let v = table::values(t);
    lemma_entry_of(v, name);
    if let Some(e) = entry_of(v, name) {
        let i = choose|i: int| 0 <= i < v.len() && v[i] == e;
        assert(t[i].1 == e && t[i].0 == name);
        table::lemma_get(t, i);
    } else if table::has(t, name) {
        let i = table::lemma_index(t, name);
        assert(t[i].0 == t[i].1.name);
        assert(v[i].name == name);
    }
}

/// A database is the values of its own index.
pub proof fn lemma_database_index(entries: Seq<InstalledEntryView>)
    requires
        names_ascend(entries),
    ensures
        table::values(by_name(entries)) == entries,
        forall|name: Text| #[trigger]
            table::get(by_name(entries), name) == entry_of(entries, name),
{
    let t = entries.map_values(|e: InstalledEntryView| (e.name, e));
    assert(table::values(t) =~= entries);
    assert(table::sorted(t)) by {
        assert forall|i: int, j: int|
            #![trigger t[i], t[j]]
            0 <= i < j < t.len() implies text::text_lt(t[i].0, t[j].0) by {
            assert(t[i].1 == entries[i] && t[j].1 == entries[j]);
        }
    }
    lemma_by_name_values(t);
    assert forall|name: Text| #[trigger] table::get(by_name(entries), name) == entry_of(
        entries,
        name,
    ) by {
        lemma_entry_of_values(t, name);
    }
}

/// What is loaded from the backup of the database is what was loaded before. Where nothing was stored
/// it is the empty database.
pub proof fn lemma_saved_loads_alike(stored: StoredView<Seq<InstalledEntryView>>)
    ensures
        loaded(saved(stored)) == loaded(stored),
        loaded(saved(StoredView::Missing)) == Ok::<_, InstalledLoadErrorView>(
            Seq::<InstalledEntryView>::empty(),
        ),
{
    let none = Seq::<InstalledEntryView>::empty();
    assert(database(none) =~= none);
}

/// Loading the entries of a database gives the database back.
pub proof fn lemma_loads_what_was_stored(entries: Seq<InstalledEntryView>)
    requires
        names_ascend(entries),
    ensures
        loaded(StoredView::Document(entries)) == Ok::<_, InstalledLoadErrorView>(entries),
{
    lemma_database_of_ascending(entries);
}

proof fn lemma_database_of_ascending(entries: Seq<InstalledEntryView>)
    requires
        names_ascend(entries),
    ensures
        database(entries) == entries,
        by_name(entries) == entries.map_values(|e: InstalledEntryView| (e.name, e)),
    decreases entries.len(),
{
    let pairs = entries.map_values(|e: InstalledEntryView| (e.name, e));
    if entries.len() > 0 {
        let d = entries.drop_last();
        let last = entries.last();
        assert(names_ascend(d));
        lemma_database_of_ascending(d);
        let front = d.map_values(|e: InstalledEntryView| (e.name, e));
        assert(last == entries[entries.len() - 1]);
        if front.len() > 0 {
            let other = d.last();
            assert(other == entries[entries.len() - 2]);
            assert(text::text_lt(other.name, last.name));
            text::lemma_text_lt_irreflexive(last.name);
            if text::text_lt(last.name, other.name) {
                text::lemma_text_lt_transitive(last.name, other.name, last.name);
            }
        }
        assert(table::put(front, last.name, last) =~= front.push((last.name, last)));
        assert(by_name(entries) =~= pairs);
    }
    assert(by_name(entries) =~= pairs);
    assert(table::values(pairs) =~= entries);
}

} // verus!
