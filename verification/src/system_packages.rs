//! Read-only view of system-installed packages from common Unix package databases.
//!
//! Used by the resolver to treat system packages as satisfied_system for implicit
//! dependencies. [`SystemPackages::load_default`] merges what was read of dpkg status, pacman
//! local metadata, Alpine apk `installed`, and Homebrew Cellar layouts. What is missing or does
//! not parse in a source is skipped.

use vstd::prelude::*;
use vstd::string::*;

use crate::package_name;
use crate::package_name::PackageName;
use crate::table;
use crate::text;
use crate::text::Text;
use crate::version;
use crate::version::Version;

verus! {

/// Path to the dpkg status file on Debian-based systems (one source used by
/// [`SystemPackages::load_default`]).
pub const DPKG_STATUS_PATH: &'static str = "/var/lib/dpkg/status";

/// Read-only set of system packages: name -> version. Used to satisfy implicit deps.
#[derive(Debug, Eq, PartialEq)]
pub struct SystemPackages(Vec<(PackageName, Version)>);

impl View for SystemPackages {
    type V = Seq<(Text, Text)>;

    closed spec fn view(&self) -> Seq<(Text, Text)> {
        self.0.deep_view()
    }
}

impl DeepView for SystemPackages {
    type V = Seq<(Text, Text)>;

    open spec fn deep_view(&self) -> Seq<(Text, Text)> {
        self@
    }
}

impl Clone for SystemPackages {
    fn clone(&self) -> (r: Self)
        ensures
            r@ == self@,
    {
        proof {
            use_type_invariant(self);
        }
        let mut map: Vec<(PackageName, Version)> = Vec::new();
        let mut i: usize = 0;
        while i < self.0.len()
            invariant
                i <= self.0@.len(),
                map@.len() == i,
                forall|j: int|
                    0 <= j < i ==> (#[trigger] map@[j]).deep_view() == self.0@[j].deep_view(),
            decreases self.0@.len() - i,
        {
            map.push((self.0[i].0.clone(), self.0[i].1.clone()));
            i += 1;
        }
        assert(map.deep_view() =~= self.0.deep_view());
        SystemPackages(map)
    }
}

impl Default for SystemPackages {
    fn default() -> (r: Self)
        ensures
            r@ == Seq::<(Text, Text)>::empty(),
    {
        let r = SystemPackages(Vec::new());
        assert(r@ =~= Seq::empty());
        r
    }
}

/// The table with the package added, unless its name or version is invalid.
pub open spec fn with_package(t: Seq<(Text, Text)>, name: Text, version: Text) -> Seq<
    (Text, Text),
> {
    if package_name::valid_name(name) && version::valid_version(version) {
        table::put(t, name, version)
    } else {
        t
    }
}

/// The table with the package added, unless it has the name already or the package is invalid.
pub open spec fn with_new_package(t: Seq<(Text, Text)>, name: Text, version: Text) -> Seq<
    (Text, Text),
> {
    if table::has(t, name) {
        t
    } else {
        with_package(t, name, version)
    }
}

/// The valid packages among the entries; of entries with one name the last stays.
pub open spec fn mapped(entries: Seq<(Text, Text)>) -> Seq<(Text, Text)>
    decreases entries.len(),
{
    if entries.len() == 0 {
        Seq::empty()
    } else {
        with_package(mapped(entries.drop_last()), entries.last().0, entries.last().1)
    }
}

/// The packages of `t`, and those of `other` that `t` does not name.
pub open spec fn merged(t: Seq<(Text, Text)>, other: Seq<(Text, Text)>) -> Seq<(Text, Text)>
    decreases other.len(),
{
    if other.len() == 0 {
        t
    } else {
        let front = merged(t, other.drop_last());
        if table::has(front, other.last().0) {
            front
        } else {
            table::put(front, other.last().0, other.last().1)
        }
    }
}

/// What the fields of a paragraph of the dpkg status file say.
pub struct DpkgFields {
    pub name: Option<Text>,
    pub version: Option<Text>,
    pub installed: bool,
}

/// The fields after one more line.
pub open spec fn dpkg_line(f: DpkgFields, line: Text) -> DpkgFields {
    if "Package:"@.is_prefix_of(line) {
        let name = text::lowered(text::trimmed(line.skip("Package:"@.len() as int)));
        if package_name::valid_name(name) {
            DpkgFields { name: Some(name), ..f }
        } else {
            f
        }
    } else if "Version:"@.is_prefix_of(line) {
        let version = text::trimmed(line.skip("Version:"@.len() as int));
        if version::valid_version(version) {
            DpkgFields { version: Some(version), ..f }
        } else {
            f
        }
    } else if "Status:"@.is_prefix_of(line) {
        let status = text::lowered(text::trimmed(line.skip("Status:"@.len() as int)));
        DpkgFields { installed: status == "install ok installed"@, ..f }
    } else {
        f
    }
}

/// The fields that the lines give.
pub open spec fn dpkg_fields(lines: Seq<Text>) -> DpkgFields
    decreases lines.len(),
{
    if lines.len() == 0 {
        DpkgFields { name: None, version: None, installed: false }
    } else {
        dpkg_line(dpkg_fields(lines.drop_last()), lines.last())
    }
}

/// The table with the package that the paragraph describes, if it is installed and complete.
pub open spec fn with_paragraph(t: Seq<(Text, Text)>, paragraph: Text) -> Seq<(Text, Text)> {
    let f = dpkg_fields(text::lines(text::trimmed(paragraph)));
    match (f.name, f.version) {
        (Some(name), Some(version)) if f.installed => table::put(t, name, version),
        _ => t,
    }
}

/// The packages that the paragraphs describe.
pub open spec fn dpkg_packages(paragraphs: Seq<Text>) -> Seq<(Text, Text)>
    decreases paragraphs.len(),
{
    if paragraphs.len() == 0 {
        Seq::empty()
    } else {
        with_paragraph(dpkg_packages(paragraphs.drop_last()), paragraphs.last())
    }
}

/// The installed packages of a dpkg status file.
pub open spec fn dpkg_status(contents: Text) -> Seq<(Text, Text)> {
    dpkg_packages(text::split_text(contents, "\n\n"@))
}

/// What is known while the lines of an apk database are read.
pub struct ApkState {
    pub name: Option<Text>,
    pub version: Option<Text>,
    pub packages: Seq<(Text, Text)>,
}

/// The state at the end of a record: its package is added if it is complete and new.
pub open spec fn apk_record_end(s: ApkState) -> ApkState {
    ApkState {
        name: None,
        version: None,
        packages: match (s.name, s.version) {
            (Some(name), Some(version)) => with_new_package(s.packages, name, version),
            _ => s.packages,
        },
    }
}

/// The state after one more line.
pub open spec fn apk_line(s: ApkState, line: Text) -> ApkState {
    if "C:"@.is_prefix_of(line) {
        apk_record_end(s)
    } else if "P:"@.is_prefix_of(line) {
        ApkState {
            name: Some(text::lowered(text::trimmed(line.skip("P:"@.len() as int)))),
            ..s
        }
    } else if "V:"@.is_prefix_of(line) {
        ApkState { version: Some(text::trimmed(line.skip("V:"@.len() as int))), ..s }
    } else {
        s
    }
}

/// The state after the lines.
pub open spec fn apk_state(lines: Seq<Text>) -> ApkState
    decreases lines.len(),
{
    if lines.len() == 0 {
        ApkState { name: None, version: None, packages: Seq::empty() }
    } else {
        apk_line(apk_state(lines.drop_last()), lines.last())
    }
}

/// The packages of an apk database.
pub open spec fn apk_installed(contents: Text) -> Seq<(Text, Text)> {
    apk_record_end(apk_state(text::lines(contents))).packages
}

/// The name and version that the lines of a pacman description give from position `i` on, where
/// `name` and `version` were given before.
pub open spec fn pacman_fields(
    lines: Seq<Text>,
    i: int,
    name: Option<Text>,
    version: Option<Text>,
) -> (Option<Text>, Option<Text>)
    decreases lines.len() - i,
{
    if i >= lines.len() {
        (name, version)
    } else if lines[i] == "%NAME%"@ && i + 1 < lines.len() {
        pacman_fields(lines, i + 2, Some(text::lowered(text::trimmed(lines[i + 1]))), version)
    } else if lines[i] == "%VERSION%"@ && i + 1 < lines.len() {
        pacman_fields(lines, i + 2, name, Some(text::trimmed(lines[i + 1])))
    } else {
        pacman_fields(lines, i + 1, name, version)
    }
}

/// The name and version of a pacman description, if it gives both.
pub open spec fn pacman_desc(contents: Text) -> Option<(Text, Text)> {
    match pacman_fields(text::lines(contents), 0, None, None) {
        (Some(name), Some(version)) => Some((name, version)),
        _ => None,
    }
}

/// The packages of the pacman descriptions; of descriptions with one name the first stays.
pub open spec fn pacman_local(descs: Seq<Text>) -> Seq<(Text, Text)>
    decreases descs.len(),
{
    if descs.len() == 0 {
        Seq::empty()
    } else {
        let front = pacman_local(descs.drop_last());
        match pacman_desc(descs.last()) {
            Some((name, version)) => with_new_package(front, name, version),
            None => front,
        }
    }
}

/// The greatest of the texts.
pub open spec fn greatest(list: Seq<Text>) -> Option<Text>
    decreases list.len(),
{
    if list.len() == 0 {
        None
    } else {
        match greatest(list.drop_last()) {
            Some(best) if !text::text_lt(best, list.last()) => Some(best),
            _ => Some(list.last()),
        }
    }
}

/// The packages of Cellar directories, each with the names of its version directories; of
/// directories with one name the first stays.
pub open spec fn cellar_packages(dirs: Seq<(Text, Seq<Text>)>) -> Seq<(Text, Text)>
    decreases dirs.len(),
{
    if dirs.len() == 0 {
        Seq::empty()
    } else {
        let front = cellar_packages(dirs.drop_last());
        match greatest(dirs.last().1) {
            Some(version) => with_new_package(front, text::lowered(dirs.last().0), version),
            None => front,
        }
    }
}

/// The packages of a dpkg status file, none where it could not be read.
pub open spec fn dpkg_loaded(contents: Option<Text>) -> Seq<(Text, Text)> {
    match contents {
        Some(contents) => dpkg_status(contents),
        None => Seq::empty(),
    }
}

/// The packages of an apk database, none where it could not be read.
pub open spec fn apk_loaded(contents: Option<Text>) -> Seq<(Text, Text)> {
    match contents {
        Some(contents) => apk_installed(contents),
        None => Seq::empty(),
    }
}

/// The packages of all sources; the earlier source wins.
pub open spec fn all_sources(
    dpkg: Option<Text>,
    pacman: Seq<Text>,
    apk: Option<Text>,
    cellar: Seq<(Text, Seq<Text>)>,
) -> Seq<(Text, Text)> {
    merged(
        merged(
            merged(merged(Seq::empty(), dpkg_loaded(dpkg)), pacman_local(pacman)),
            apk_loaded(apk),
        ),
        cellar_packages(cellar),
    )
}

/// Adds the package unless its name or version is invalid.
fn add_package(t: &mut Vec<(PackageName, Version)>, name: &str, version: &str)
    requires
        table::sorted(old(t).deep_view()),
    ensures
        table::sorted(final(t).deep_view()),
        final(t).deep_view() == with_package(old(t).deep_view(), name@, version@),
{
    if let Ok(n) = PackageName::new(name) {
        if let Ok(v) = Version::new(version) {
            table::set(t, n, v);
        }
    }
}

/// Adds the package unless its name is there already or its name or version is invalid.
fn add_new_package(t: &mut Vec<(PackageName, Version)>, name: &str, version: &str)
    requires
        table::sorted(old(t).deep_view()),
    ensures
        table::sorted(final(t).deep_view()),
        final(t).deep_view() == with_new_package(old(t).deep_view(), name@, version@),
{
    if let Ok(n) = PackageName::new(name) {
        if !table::contains_key(t, &n) {
            add_package(t, name, version);
        }
    } else {
        assert(with_package(t.deep_view(), name@, version@) == t.deep_view());
    }
}

impl SystemPackages {
    #[verifier::type_invariant]
    spec fn well_formed(self) -> bool {
        table::sorted(self.0.deep_view())
    }

    /// Returns the version of the system package with the given name, if any.
    pub fn get(&self, name: &PackageName) -> (r: Option<Version>)
        ensures
            r.deep_view() == table::get(self@, name@),
    {
        proof {
            use_type_invariant(self);
        }
        match table::lookup(&self.0, name) {
            Some(v) => Some(v.clone()),
            None => None,
        }
    }

    /// Returns true if the system has a package with this name.
    pub fn contains(&self, name: &PackageName) -> (r: bool)
        ensures
            r == table::has(self@, name@),
    {
        table::contains_key(&self.0, name)
    }

    /// How many packages the system has.
    pub fn len(&self) -> (r: usize)
        ensures
            r == self@.len(),
    {
        self.0.len()
    }

    /// Build from a map (e.g. for tests or mock). Only entries with valid
    /// [`PackageName`] and [`Version`] are included.
    pub fn from_map(entries: Vec<(&str, &str)>) -> (r: Self)
        ensures
            r@ == mapped(entries.deep_view()),
    {
        let ghost all = entries.deep_view();
        let mut map: Vec<(PackageName, Version)> = Vec::new();
        let mut i: usize = 0;
        assert(map.deep_view() =~= Seq::empty());
        while i < entries.len()
            invariant
                i <= entries@.len(),
                all == entries.deep_view(),
                table::sorted(map.deep_view()),
                map.deep_view() == mapped(all.take(i as int)),
            decreases entries@.len() - i,
        {
            assert(all.take(i + 1).drop_last() == all.take(i as int));
            assert(all[i as int] == (entries@[i as int].0@, entries@[i as int].1@));
            let (name, version) = entries[i];
            add_package(&mut map, name, version);
            i += 1;
        }
        assert(all.take(all.len() as int) == all);
        SystemPackages(map)
    }

    /// Load system packages from the contents of a dpkg status file.
    /// Missing file or parse errors return an empty contribution (no error).
    pub fn load_dpkg_status(contents: Option<&str>) -> (r: Self)
        ensures
            r@ == dpkg_loaded(contents.deep_view()),
    {
        match contents {
            Some(contents) => SystemPackages::parse_dpkg_status(contents),
            None => SystemPackages::default(),
        }
    }

    /// Load from what was read at the default dpkg status path ([`DPKG_STATUS_PATH`]).
    pub fn load_dpkg_default(contents: Option<&str>) -> (r: Self)
        ensures
            r@ == dpkg_loaded(contents.deep_view()),
    {
        SystemPackages::load_dpkg_status(contents)
    }

    /// Same as [`Self::load_dpkg_status`].
    pub fn load(contents: Option<&str>) -> (r: Self)
        ensures
            r@ == dpkg_loaded(contents.deep_view()),
    {
        SystemPackages::load_dpkg_status(contents)
    }

    /// Merge entries from `other` into `self`. Existing names keep the version already in `self`.
    pub fn merge_from(&mut self, other: SystemPackages)
        ensures
            final(self)@ == merged(old(self)@, other@),
    {
        proof {
            use_type_invariant(&*self);
        }
        let ghost base = self@;
        let ghost all = other@;
        let mut map: Vec<(PackageName, Version)> = Vec::new();
        std::mem::swap(&mut map, &mut self.0);
        let mut i: usize = 0;
        assert(all.take(0) =~= Seq::empty());
        while i < other.0.len()
            invariant
                i <= other.0@.len(),
                all == other.0.deep_view(),
                table::sorted(map.deep_view()),
                map.deep_view() == merged(base, all.take(i as int)),
            decreases other.0@.len() - i,
        {
            assert(all.take(i + 1).drop_last() == all.take(i as int));
            assert(all[i as int] == (other.0@[i as int].0@, other.0@[i as int].1@));
            let name = &other.0[i].0;
            if !table::contains_key(&map, name) {
                table::set(&mut map, name.clone(), other.0[i].1.clone());
            }
            i += 1;
        }
        assert(all.take(all.len() as int) == all);
        *self = SystemPackages(map);
    }

    /// Best-effort set of the system's packages, from what could be read of each source: dpkg
    /// status, the pacman descriptions, the apk database, and the Homebrew Cellar directories with
    /// the names of their version directories. Earlier sources win on duplicate package names.
    pub fn load_default(
        dpkg: Option<&str>,
        pacman: &Vec<String>,
        apk: Option<&str>,
        cellar: &Vec<(String, Vec<String>)>,
    ) -> (r: Self)
        ensures
            r@ == all_sources(
                dpkg.deep_view(),
                pacman.deep_view(),
                apk.deep_view(),
                cellar.deep_view(),
            ),
    {
        let mut acc = SystemPackages::default();
        acc.merge_from(SystemPackages::load_dpkg_default(dpkg));
        acc.merge_from(SystemPackages::load_pacman_local(pacman));
        acc.merge_from(SystemPackages::load_apk_installed(apk));
        acc.merge_from(SystemPackages::load_homebrew_cellar(cellar));
        acc
    }

    /// Parse dpkg status file contents. Paragraphs separated by blank lines; each
    /// paragraph has "Package: name", "Version: value", and "Status: ...".
    /// Only packages with Status indicating installed (e.g. "install ok installed")
    /// and names valid for sic ([`PackageName`]) are included.
    pub fn parse_dpkg_status(contents: &str) -> (r: Self)
        ensures
            r@ == dpkg_status(contents@),
    {
        proof {
            reveal_strlit("\n\n");
        }
        let paragraphs = text::split_by(contents, "\n\n");
        let ghost all = paragraphs.deep_view();
        let mut map: Vec<(PackageName, Version)> = Vec::new();
        let mut i: usize = 0;
        assert(map.deep_view() =~= Seq::empty());
        while i < paragraphs.len()
            invariant
                i <= paragraphs@.len(),
                all == paragraphs.deep_view(),
                table::sorted(map.deep_view()),
                map.deep_view() == dpkg_packages(all.take(i as int)),
            decreases paragraphs@.len() - i,
        {
            assert(all.take(i + 1).drop_last() == all.take(i as int));
            assert(all[i as int] == paragraphs@[i as int]@);
            let (name, version, installed) = read_dpkg_paragraph(
                text::trim(paragraphs[i].as_str()),
            );
            if installed {
                if let (Some(n), Some(v)) = (name, version) {
                    table::set(&mut map, n, v);
                }
            }
            i += 1;
        }
        assert(all.take(all.len() as int) == all);
        SystemPackages(map)
    }

    /// The packages of the pacman descriptions; the first with a name wins.
    pub fn load_pacman_local(descs: &Vec<String>) -> (r: Self)
        ensures
            r@ == pacman_local(descs.deep_view()),
    {
        let ghost all = descs.deep_view();
        let mut map: Vec<(PackageName, Version)> = Vec::new();
        let mut i: usize = 0;
        assert(map.deep_view() =~= Seq::empty());
        while i < descs.len()
            invariant
                i <= descs@.len(),
                all == descs.deep_view(),
                table::sorted(map.deep_view()),
                map.deep_view() == pacman_local(all.take(i as int)),
            decreases descs@.len() - i,
        {
            assert(all.take(i + 1).drop_last() == all.take(i as int));
            assert(all[i as int] == descs@[i as int]@);
            if let Some((name, version)) = parse_pacman_desc(descs[i].as_str()) {
                add_new_package(&mut map, name.as_str(), version.as_str());
            }
            i += 1;
        }
        assert(all.take(all.len() as int) == all);
        SystemPackages(map)
    }

    /// Load system packages from the contents of an apk database; none where it is missing.
    pub fn load_apk_installed(contents: Option<&str>) -> (r: Self)
        ensures
            r@ == apk_loaded(contents.deep_view()),
    {
        match contents {
            Some(contents) => SystemPackages::parse_apk_installed(contents),
            None => SystemPackages::default(),
        }
    }

    /// Parse the contents of an apk database. A record begins with a `C:` line and gives the name
    /// on a `P:` line and the version on a `V:` line. The first package with a name wins.
    pub fn parse_apk_installed(contents: &str) -> (r: Self)
        ensures
            r@ == apk_installed(contents@),
    {
        let lines = text::split_lines(contents);
        let ghost all = lines.deep_view();
        let mut map: Vec<(PackageName, Version)> = Vec::new();
        let mut name: Option<String> = None;
        let mut version: Option<String> = None;
        let mut i: usize = 0;
        assert(map.deep_view() =~= Seq::empty());
        while i < lines.len()
            invariant
                i <= lines@.len(),
                all == lines.deep_view(),
                table::sorted(map.deep_view()),
                apk_state(all.take(i as int)) == (ApkState {
                    name: name.deep_view(),
                    version: version.deep_view(),
                    packages: map.deep_view(),
                }),
            decreases lines@.len() - i,
        {
            assert(all.take(i + 1).drop_last() == all.take(i as int));
            assert(all[i as int] == lines@[i as int]@);
            let line = lines[i].as_str();
            if text::starts_with(line, "C:") {
                end_apk_record(&name, &version, &mut map);
                name = None;
                version = None;
            } else if let Some(rest) = text::strip_prefix(line, "P:") {
                name = Some(text::to_lowercase(text::trim(rest)));
            } else if let Some(rest) = text::strip_prefix(line, "V:") {
                version = Some(text::trim(rest).to_owned());
            }
            i += 1;
        }
        assert(all.take(all.len() as int) == all);
        end_apk_record(&name, &version, &mut map);
        SystemPackages(map)
    }

    /// The packages of Cellar directories, each with the names of its version directories. The
    /// greatest version name counts, and the first directory with a name wins.
    pub fn load_homebrew_cellar(dirs: &Vec<(String, Vec<String>)>) -> (r: Self)
        ensures
            r@ == cellar_packages(dirs.deep_view()),
    {
        let ghost all = dirs.deep_view();
        let mut map: Vec<(PackageName, Version)> = Vec::new();
        let mut i: usize = 0;
        assert(map.deep_view() =~= Seq::empty());
        while i < dirs.len()
            invariant
                i <= dirs@.len(),
                all == dirs.deep_view(),
                table::sorted(map.deep_view()),
                map.deep_view() == cellar_packages(all.take(i as int)),
            decreases dirs@.len() - i,
        {
            assert(all.take(i + 1).drop_last() == all.take(i as int));
            assert(all[i as int] == (dirs@[i as int].0@, dirs@[i as int].1.deep_view()));
            if let Some(version) = best_child_dir(&dirs[i].1) {
                let name = text::to_lowercase(dirs[i].0.as_str());
                add_new_package(&mut map, name.as_str(), version);
            }
            i += 1;
        }
        assert(all.take(all.len() as int) == all);
        SystemPackages(map)
    }
}

/// What a paragraph of the dpkg status file says: name, version and whether it is installed.
fn read_dpkg_paragraph(paragraph: &str) -> (r: (Option<PackageName>, Option<Version>, bool))
    ensures
        dpkg_fields(text::lines(paragraph@)) == (DpkgFields {
            name: r.0.deep_view(),
            version: r.1.deep_view(),
            installed: r.2,
        }),
{
    let lines = text::split_lines(paragraph);
    let ghost all = lines.deep_view();
    let mut name: Option<PackageName> = None;
    let mut version: Option<Version> = None;
    let mut installed = false;
    let mut i: usize = 0;
    while i < lines.len()
        invariant
            i <= lines@.len(),
            all == lines.deep_view(),
            dpkg_fields(all.take(i as int)) == (DpkgFields {
                name: name.deep_view(),
                version: version.deep_view(),
                installed,
            }),
        decreases lines@.len() - i,
    {
        assert(all.take(i + 1).drop_last() == all.take(i as int));
        assert(all[i as int] == lines@[i as int]@);
        let line = lines[i].as_str();
        if let Some(rest) = text::strip_prefix(line, "Package:") {
            let s = text::to_lowercase(text::trim(rest));
            if let Ok(n) = PackageName::new(s.as_str()) {
                name = Some(n);
            }
        } else if let Some(rest) = text::strip_prefix(line, "Version:") {
            if let Ok(v) = Version::new(text::trim(rest)) {
                version = Some(v);
            }
        } else if let Some(rest) = text::strip_prefix(line, "Status:") {
            let s = text::to_lowercase(text::trim(rest));
            installed = text::same_text(s.as_str(), "install ok installed");
        }
        i += 1;
    }
    assert(all.take(all.len() as int) == all);
    (name, version, installed)
}

/// Adds the package of an apk record if it is complete and new.
fn end_apk_record(
    name: &Option<String>,
    version: &Option<String>,
    map: &mut Vec<(PackageName, Version)>,
)
    requires
        table::sorted(old(map).deep_view()),
    ensures
        table::sorted(final(map).deep_view()),
        final(map).deep_view() == apk_record_end(
            ApkState {
                name: name.deep_view(),
                version: version.deep_view(),
                packages: old(map).deep_view(),
            },
        ).packages,
{
    if let (Some(n), Some(v)) = (name, version) {
        add_new_package(map, n.as_str(), v.as_str());
    }
}

/// The name and version of a pacman description, if it gives both.
pub fn parse_pacman_desc(contents: &str) -> (r: Option<(String, String)>)
    ensures
        r.deep_view() == pacman_desc(contents@),
{
    let lines = text::split_lines(contents);
    let ghost all = lines.deep_view();
    let mut name: Option<String> = None;
    let mut version: Option<String> = None;
    let mut i: usize = 0;
    let n: usize = lines.len();
    while i < n
        invariant
            n == lines@.len(),
            i <= n,
            all == lines.deep_view(),
            pacman_fields(all, 0, None, None) == pacman_fields(
                all,
                i as int,
                name.deep_view(),
                version.deep_view(),
            ),
        decreases n - i,
    {
        assert(all[i as int] == lines@[i as int]@);
        if text::same_text(lines[i].as_str(), "%NAME%") && i + 1 < n {
            assert(all[i + 1] == lines@[i + 1]@);
            name = Some(text::to_lowercase(text::trim(lines[i + 1].as_str())));
            i += 2;
        } else if text::same_text(lines[i].as_str(), "%VERSION%") && i + 1 < n {
            assert(all[i + 1] == lines@[i + 1]@);
            version = Some(text::trim(lines[i + 1].as_str()).to_owned());
            i += 2;
        } else {
            i += 1;
        }
    }
    match (name, version) {
        (Some(name), Some(version)) => Some((name, version)),
        _ => None,
    }
}

/// The greatest of the directory names in the order of strings.
pub fn best_child_dir(names: &Vec<String>) -> (r: Option<&str>)
    ensures
        r.deep_view() == greatest(names.deep_view()),
{
    let ghost all = names.deep_view();
    let mut best: Option<&str> = None;
    let mut i: usize = 0;
    while i < names.len()
        invariant
            i <= names@.len(),
            all == names.deep_view(),
            best.deep_view() == greatest(all.take(i as int)),
        decreases names@.len() - i,
    {
        assert(all.take(i + 1).drop_last() == all.take(i as int));
        assert(all[i as int] == names@[i as int]@);
        let name = names[i].as_str();
        best = match best {
            None => Some(name),
            Some(b) => {
                if text::precedes(b, name) {
                    Some(name)
                } else {
                    Some(b)
                }
            },
        };
        i += 1;
    }
    assert(all.take(all.len() as int) == all);
    best
}

/// Merging keeps every version that was known before, and adds exactly the names that were not,
/// with the versions of the other table.
pub proof fn lemma_merge_keeps(t: Seq<(Text, Text)>, other: Seq<(Text, Text)>, name: Text)
    requires
        table::sorted(t),
        table::sorted(other),
    ensures
        table::sorted(merged(t, other)),
        table::has(merged(t, other), name) == (table::has(t, name) || table::has(other, name)),
        table::has(t, name) ==> table::get(merged(t, other), name) == table::get(t, name),
        !table::has(t, name) ==> table::get(merged(t, other), name) == table::get(other, name),
    decreases other.len(),
{
    if other.len() > 0 {
        let d = other.drop_last();
        let last = other.last();
        let front = merged(t, d);
        table::lemma_get_last(other, name);
        table::lemma_get_last(other, last.0);
        lemma_merge_keeps(t, d, name);
        lemma_merge_keeps(t, d, last.0);
        table::lemma_put(front, last.0, last.1);
        assert(!table::has(d, last.0)) by {
            if table::has(d, last.0) {
                let i = table::lemma_index(d, last.0);
                assert(other[i].0 == other[other.len() - 1].0);
                text::lemma_text_lt_irreflexive(last.0);
            }
        }
    }
}

proof fn lemma_with_package_sorted(t: Seq<(Text, Text)>, name: Text, version: Text)
    requires
        table::sorted(t),
    ensures
        table::sorted(with_package(t, name, version)),
        table::sorted(with_new_package(t, name, version)),
{
    table::lemma_put(t, name, version);
}

proof fn lemma_dpkg_sorted(paragraphs: Seq<Text>)
    ensures
        table::sorted(dpkg_packages(paragraphs)),
    decreases paragraphs.len(),
{
    if paragraphs.len() > 0 {
        let front = dpkg_packages(paragraphs.drop_last());
        lemma_dpkg_sorted(paragraphs.drop_last());
        let f = dpkg_fields(text::lines(text::trimmed(paragraphs.last())));
        if f.name is Some && f.version is Some {
            table::lemma_put(front, f.name->0, f.version->0);
        }
    }
}

proof fn lemma_pacman_sorted(descs: Seq<Text>)
    ensures
        table::sorted(pacman_local(descs)),
    decreases descs.len(),
{
    if descs.len() > 0 {
        lemma_pacman_sorted(descs.drop_last());
        if let Some((name, version)) = pacman_desc(descs.last()) {
            lemma_with_package_sorted(pacman_local(descs.drop_last()), name, version);
        }
    }
}

pub(crate) proof fn lemma_apk_end_sorted(s: ApkState)
    requires
        table::sorted(s.packages),
    ensures
        table::sorted(apk_record_end(s).packages),
{
    if s.name is Some && s.version is Some {
        lemma_with_package_sorted(s.packages, s.name->0, s.version->0);
    }
}

pub(crate) proof fn lemma_apk_sorted(lines: Seq<Text>)
    ensures
        table::sorted(apk_state(lines).packages),
    decreases lines.len(),
{
    if lines.len() > 0 {
        lemma_apk_sorted(lines.drop_last());
        lemma_apk_end_sorted(apk_state(lines.drop_last()));
    }
}

proof fn lemma_cellar_sorted(dirs: Seq<(Text, Seq<Text>)>)
    ensures
        table::sorted(cellar_packages(dirs)),
    decreases dirs.len(),
{
    if dirs.len() > 0 {
        let front = cellar_packages(dirs.drop_last());
        lemma_cellar_sorted(dirs.drop_last());
        if let Some(version) = greatest(dirs.last().1) {
            lemma_with_package_sorted(front, text::lowered(dirs.last().0), version);
        }
    }
}

/// The version of a system package is that of the first source that names it: dpkg, then pacman,
/// then apk, then the Cellar.
pub proof fn lemma_earlier_source_wins(
    dpkg: Option<Text>,
    pacman: Seq<Text>,
    apk: Option<Text>,
    cellar: Seq<(Text, Seq<Text>)>,
    name: Text,
)
    ensures
        table::get(all_sources(dpkg, pacman, apk, cellar), name) == if table::has(
            dpkg_loaded(dpkg),
            name,
        ) {
            table::get(dpkg_loaded(dpkg), name)
        } else if table::has(pacman_local(pacman), name) {
            table::get(pacman_local(pacman), name)
        } else if table::has(apk_loaded(apk), name) {
            table::get(apk_loaded(apk), name)
        } else {
            table::get(cellar_packages(cellar), name)
        },
{
    let none = Seq::<(Text, Text)>::empty();
    if let Some(contents) = dpkg {
        lemma_dpkg_sorted(text::split_text(contents, "\n\n"@));
    }
    lemma_pacman_sorted(pacman);
    if let Some(contents) = apk {
        lemma_apk_sorted(text::lines(contents));
        lemma_apk_end_sorted(apk_state(text::lines(contents)));
    }
    lemma_cellar_sorted(cellar);
    let a = merged(none, dpkg_loaded(dpkg));
    let b = merged(a, pacman_local(pacman));
    let c = merged(b, apk_loaded(apk));
    lemma_merge_keeps(none, dpkg_loaded(dpkg), name);
    lemma_merge_keeps(a, pacman_local(pacman), name);
    lemma_merge_keeps(b, apk_loaded(apk), name);
    lemma_merge_keeps(c, cellar_packages(cellar), name);
}

/// Where no source can be read, the system has no packages.
pub proof fn lemma_no_sources()
    ensures
        all_sources(None, Seq::empty(), None, Seq::empty()).len() == 0,
{
}

} // verus!
