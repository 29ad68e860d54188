//! Choosing the manifest for a name.

use vstd::prelude::*;
use vstd::string::*;

use crate::dep_constraint;
use crate::dep_constraint::{DepConstraint, DepConstraintView};
use crate::failure;
use crate::failure::{FailureKind, ResolverFailure, ResolverFailureView};
use crate::lists;
use crate::manifest::{Manifest, ManifestView};
use crate::package_name::PackageName;
use crate::resolver::available;
use crate::resolver::available::{AvailablePackages, Index};
use crate::resolver::plan::{LockfileInput, LockfileInputView, LockfileMode};
use crate::storage::installed;
use crate::storage::installed::InstalledEntryView;
use crate::storage::lockfile;
use crate::storage::lockfile::LockfilePackageView;
use crate::storage::{InstalledDb, InstalledEntry, LockfilePackage};
use crate::system_packages::SystemPackages;
use crate::table;
use crate::text;
use crate::text::Text;
use crate::version;
use crate::version::Version;
use crate::views;

verus! {

/// What a resolution works on: the available packages, the installed ones, the lockfile and its
/// mode, the system's packages, and whether to prefer the latest version over the installed one.
#[derive(Clone, Copy)]
pub struct Context<'a> {
    pub available: &'a AvailablePackages,
    pub installed: &'a InstalledDb,
    pub lockfile: LockfileInput<'a>,
    pub system: Option<&'a SystemPackages>,
    pub prefer_upgrade: bool,
}

/// What a [`Context`] holds.
pub struct Setting {
    pub available: Index,
    pub installed: Seq<InstalledEntryView>,
    pub lockfile: LockfileInputView,
    pub system: Option<Seq<(Text, Text)>>,
    pub prefer_upgrade: bool,
}

impl<'a> DeepView for Context<'a> {
    type V = Setting;

    open spec fn deep_view(&self) -> Setting {
        Setting {
            available: self.available@,
            installed: self.installed@,
            lockfile: self.lockfile.deep_view(),
            system: self.system.deep_view(),
            prefer_upgrade: self.prefer_upgrade,
        }
    }
}

impl<'a> View for Context<'a> {
    type V = Setting;

    open spec fn view(&self) -> Setting {
        self.deep_view()
    }
}

/// Whether the version meets the constraint, if there is one.
pub open spec fn meets(constraint: Option<DepConstraintView>, v: Text) -> bool {
    match constraint {
        Some(c) => dep_constraint::satisfied(c, v),
        None => true,
    }
}

/// The constraint as it is written, if there is one.
pub open spec fn written(constraint: Option<DepConstraintView>) -> Option<Text> {
    match constraint {
        Some(c) => Some(dep_constraint::constraint_text(c)),
        None => None,
    }
}

/// Whether a manifest's version meets the constraint.
pub open spec fn meeting(constraint: Option<DepConstraintView>) -> spec_fn(ManifestView) -> bool {
    |m: ManifestView| meets(constraint, m.version)
}

/// The manifests whose versions meet the constraint.
pub open spec fn candidates(
    list: Seq<ManifestView>,
    constraint: Option<DepConstraintView>,
) -> Seq<ManifestView> {
    list.filter(meeting(constraint))
}

/// Whether the lockfile entry has the name, the version and the revision of the manifest.
pub open spec fn locks(p: LockfilePackageView, m: ManifestView) -> bool {
    p.name == m.name && version::version_eq(p.version, m.version) && p.revision == m.revision
}

/// Whether one of the lockfile entries has the version and the revision of the manifest.
pub open spec fn release_locked(locked: Seq<LockfilePackageView>, m: ManifestView) -> bool {
    exists|i: int|
        0 <= i < locked.len() && version::version_eq((#[trigger] locked[i]).version, m.version)
            && locked[i].revision == m.revision
}

/// Whether one of the lockfile entries locks the manifest.
pub open spec fn is_locked(packages: Seq<LockfilePackageView>, m: ManifestView) -> bool {
    exists|i: int| 0 <= i < packages.len() && locks(#[trigger] packages[i], m)
}

/// Whether no locked version is newer than the manifest's.
pub open spec fn not_below(locked: Seq<LockfilePackageView>, m: ManifestView) -> bool {
    forall|i: int|
        0 <= i < locked.len() ==> version::version_le((#[trigger] locked[i]).version, m.version)
}

/// Whether a manifest's version and revision are locked.
pub open spec fn release_in(locked: Seq<LockfilePackageView>) -> spec_fn(ManifestView) -> bool {
    |m: ManifestView| release_locked(locked, m)
}

/// Whether a manifest is not older than what is locked.
pub open spec fn not_below_any(locked: Seq<LockfilePackageView>) -> spec_fn(ManifestView) -> bool {
    |m: ManifestView| not_below(locked, m)
}

/// Whether a manifest has the installed version and revision.
pub open spec fn released_as(e: InstalledEntryView) -> spec_fn(ManifestView) -> bool {
    |m: ManifestView| m.version == e.version && m.revision == e.revision
}

/// The manifests with a locked version and revision.
pub open spec fn locked_releases(
    list: Seq<ManifestView>,
    locked: Seq<LockfilePackageView>,
) -> Seq<ManifestView> {
    list.filter(release_in(locked))
}

/// The manifests that are not older than what is locked.
pub open spec fn not_older(
    list: Seq<ManifestView>,
    locked: Seq<LockfilePackageView>,
) -> Seq<ManifestView> {
    list.filter(not_below_any(locked))
}

/// The versions of the lockfile entries.
pub open spec fn locked_versions(locked: Seq<LockfilePackageView>) -> Seq<Text> {
    locked.map_values(|p: LockfilePackageView| p.version)
}

/// The versions of the manifests.
pub open spec fn manifest_versions(list: Seq<ManifestView>) -> Seq<Text> {
    list.map_values(|m: ManifestView| m.version)
}

/// The manifests of the installed version and revision.
pub open spec fn same_release(list: Seq<ManifestView>, e: InstalledEntryView) -> Seq<
    ManifestView,
> {
    list.filter(released_as(e))
}

/// The preferred of the manifests, which stand in ascending order of their versions: the
/// installed one unless an upgrade is preferred, else the last.
pub open spec fn preferred(setting: Setting, name: Text, list: Seq<ManifestView>) -> ManifestView {
    match installed::entry_of(setting.installed, name) {
        Some(e) if !setting.prefer_upgrade && same_release(list, e).len() > 0 => same_release(
            list,
            e,
        )[0],
        _ => list.last(),
    }
}

/// The manifest for a name that is a package with the given versions.
pub open spec fn chosen_version(
    setting: Setting,
    name: Text,
    constraint: Option<DepConstraintView>,
    versions: Seq<ManifestView>,
) -> Result<ManifestView, ResolverFailureView> {
    let fitting = candidates(versions, constraint);
    match setting.lockfile {
        Some((packages, LockfileMode::Strict)) => {
            let locked = lockfile::locked_for(packages, name);
            if locked.len() == 0 {
                Err(failure::bare(FailureKind::NotInLockfile, Some(name)))
            } else if locked_releases(fitting, locked).len() == 0 {
                Err(
                    failure::unsatisfiable(
                        name,
                        written(constraint),
                        Some(locked_versions(locked)),
                        Some(
                            seq!["no locked (version, revision) satisfies constraint (strict mode)"@],
                        ),
                    ),
                )
            } else {
                Ok(preferred(setting, name, locked_releases(fitting, locked)))
            }
        },
        Some((packages, LockfileMode::Flexible(_))) if lockfile::locked_for(
            packages,
            name,
        ).len() > 0 => {
            let locked = lockfile::locked_for(packages, name);
            if not_older(fitting, locked).len() == 0 {
                Err(
                    failure::unsatisfiable(
                        name,
                        written(constraint),
                        Some(locked_versions(locked)),
                        Some(seq!["no version >= locked satisfies constraint (flexible mode)"@]),
                    ),
                )
            } else {
                Ok(preferred(setting, name, not_older(fitting, locked)))
            }
        },
        _ => {
            if fitting.len() == 0 {
                Err(
                    failure::unsatisfiable(
                        name,
                        written(constraint),
                        Some(manifest_versions(versions)),
                        None,
                    ),
                )
            } else {
                Ok(preferred(setting, name, fitting))
            }
        },
    }
}

/// Whether the lockfile allows the provider: in strict mode if it is locked, in flexible mode if
/// it is not older than what is locked of it.
pub open spec fn allowed_by(lockfile: LockfileInputView) -> spec_fn(ManifestView) -> bool {
    |m: ManifestView|
        match lockfile {
            Some((packages, LockfileMode::Strict)) => is_locked(packages, m),
            Some((packages, LockfileMode::Flexible(_))) => not_below(
                lockfile::locked_for(packages, m.name),
                m,
            ),
            None => true,
        }
}

/// The providers that the lockfile allows.
pub open spec fn allowed_providers(
    list: Seq<ManifestView>,
    lockfile: LockfileInputView,
) -> Seq<ManifestView> {
    list.filter(allowed_by(lockfile))
}

/// The manifest for a name that is no package: the last allowed provider that meets the
/// constraint.
pub open spec fn chosen_provider(
    setting: Setting,
    name: Text,
    constraint: Option<DepConstraintView>,
) -> Result<ManifestView, ResolverFailureView> {
    let allowed = allowed_providers(
        available::providers(setting.available, name),
        setting.lockfile,
    );
    let fitting = candidates(allowed, constraint);
    if setting.lockfile matches Some((_, LockfileMode::Strict)) && allowed.len() == 0 {
        Err(failure::bare(FailureKind::NotInLockfile, Some(name)))
    } else if fitting.len() == 0 {
        Err(failure::unsatisfiable(name, None, None, Some(seq!["package not found"@])))
    } else {
        Ok(fitting.last())
    }
}

/// The manifest for a name: a version of that package or, where there is no such package, a
/// provider.
pub open spec fn chosen(
    setting: Setting,
    name: Text,
    constraint: Option<DepConstraintView>,
) -> Result<ManifestView, ResolverFailureView> {
    match table::get(setting.available, name) {
        Some(versions) => chosen_version(setting, name, constraint, versions),
        None => chosen_provider(setting, name, constraint),
    }
}

/// Whether the version meets the constraint, if there is one.
pub fn version_meets(constraint: Option<&DepConstraint>, v: &Version) -> (r: bool)
    ensures
        r == meets(constraint.deep_view(), v@),
{
    match constraint {
        Some(c) => c.satisfies(v),
        None => true,
    }
}

fn find_candidates<'a>(list: &Vec<&'a Manifest>, constraint: Option<&DepConstraint>) -> (r: Vec<
    &'a Manifest,
>)
    ensures
        r.deep_view() == candidates(list.deep_view(), constraint.deep_view()),
{
    let ghost all = list.deep_view();
    let ghost c = constraint.deep_view();
    let mut out: Vec<&'a Manifest> = Vec::new();
    let mut i: usize = 0;
    proof {
        reveal(Seq::filter);
    }
    assert(out.deep_view() =~= candidates(all.take(0), c));
    while i < list.len()
        invariant
            i <= list@.len(),
            all == list.deep_view(),
            c == constraint.deep_view(),
            out.deep_view() == candidates(all.take(i as int), c),
        decreases list@.len() - i,
    {
        let ghost before = out.deep_view();
        assert(all[i as int] == list@[i as int]@);
        assert(all.take(i + 1).drop_last() == all.take(i as int));
        proof {
            reveal(Seq::filter);
        }
        let m: &'a Manifest = list[i];
        if version_meets(constraint, &m.version) {
            out.push(m);
            assert(out.deep_view() =~= before.push(all[i as int]));
        }
        i += 1;
    }
    assert(all.take(all.len() as int) == all);
    out
}

fn has_locked_release(locked: &Vec<&LockfilePackage>, m: &Manifest) -> (r: bool)
    ensures
        r == release_locked(locked.deep_view(), m@),
{
    let ghost all = locked.deep_view();
    let mut i: usize = 0;
    while i < locked.len()
        invariant
            i <= locked@.len(),
            all == locked.deep_view(),
            forall|j: int|
                0 <= j < i ==> !(version::version_eq((#[trigger] all[j]).version, m@.version)
                    && all[j].revision == m@.revision),
        decreases locked@.len() - i,
    {
        assert(all[i as int] == locked@[i as int]@);
        if locked[i].version.ranks_with(&m.version) && locked[i].revision == m.revision {
            return true;
        }
        i += 1;
    }
    false
}

fn has_lock(packages: &Vec<LockfilePackage>, m: &Manifest) -> (r: bool)
    ensures
        r == is_locked(packages.deep_view(), m@),
{
    let ghost all = packages.deep_view();
    let mut i: usize = 0;
    while i < packages.len()
        invariant
            i <= packages@.len(),
            all == packages.deep_view(),
            forall|j: int| 0 <= j < i ==> !locks(#[trigger] all[j], m@),
        decreases packages@.len() - i,
    {
        let p = &packages[i];
        assert(all[i as int] == p@);
        if p.name.same(&m.name) && p.version.ranks_with(&m.version) && p.revision == m.revision {
            return true;
        }
        i += 1;
    }
    false
}

fn is_not_below(locked: &Vec<&LockfilePackage>, m: &Manifest) -> (r: bool)
    ensures
        r == not_below(locked.deep_view(), m@),
{
    let ghost all = locked.deep_view();
    let mut i: usize = 0;
    while i < locked.len()
        invariant
            i <= locked@.len(),
            all == locked.deep_view(),
            forall|j: int|
                0 <= j < i ==> version::version_le((#[trigger] all[j]).version, m@.version),
        decreases locked@.len() - i,
    {
        assert(all[i as int] == locked@[i as int]@);
        proof {
            version::lemma_version_trichotomy(m@.version, all[i as int].version);
        }
        if m.version.precedes(&locked[i].version) {
            return false;
        }
        i += 1;
    }
    true
}

fn find_locked_releases<'a>(list: &Vec<&'a Manifest>, locked: &Vec<&LockfilePackage>) -> (r: Vec<
    &'a Manifest,
>)
    ensures
        r.deep_view() == locked_releases(list.deep_view(), locked.deep_view()),
{
    let ghost all = list.deep_view();
    let mut out: Vec<&'a Manifest> = Vec::new();
    let mut i: usize = 0;
    proof {
        reveal(Seq::filter);
    }
    assert(out.deep_view() =~= locked_releases(all.take(0), locked.deep_view()));
    while i < list.len()
        invariant
            i <= list@.len(),
            all == list.deep_view(),
            out.deep_view() == locked_releases(all.take(i as int), locked.deep_view()),
        decreases list@.len() - i,
    {
        let ghost before = out.deep_view();
        assert(all[i as int] == list@[i as int]@);
        assert(all.take(i + 1).drop_last() == all.take(i as int));
        proof {
            reveal(Seq::filter);
        }
        let m: &'a Manifest = list[i];
        if has_locked_release(locked, m) {
            out.push(m);
            assert(out.deep_view() =~= before.push(all[i as int]));
        }
        i += 1;
    }
    assert(all.take(all.len() as int) == all);
    out
}

fn find_not_older<'a>(list: &Vec<&'a Manifest>, locked: &Vec<&LockfilePackage>) -> (r: Vec<
    &'a Manifest,
>)
    ensures
        r.deep_view() == not_older(list.deep_view(), locked.deep_view()),
{
    let ghost all = list.deep_view();
    let mut out: Vec<&'a Manifest> = Vec::new();
    let mut i: usize = 0;
    proof {
        reveal(Seq::filter);
    }
    assert(out.deep_view() =~= not_older(all.take(0), locked.deep_view()));
    while i < list.len()
        invariant
            i <= list@.len(),
            all == list.deep_view(),
            out.deep_view() == not_older(all.take(i as int), locked.deep_view()),
        decreases list@.len() - i,
    {
        let ghost before = out.deep_view();
        assert(all[i as int] == list@[i as int]@);
        assert(all.take(i + 1).drop_last() == all.take(i as int));
        proof {
            reveal(Seq::filter);
        }
        let m: &'a Manifest = list[i];
        if is_not_below(locked, m) {
            out.push(m);
            assert(out.deep_view() =~= before.push(all[i as int]));
        }
        i += 1;
    }
    assert(all.take(all.len() as int) == all);
    out
}

fn find_allowed_providers<'a>(list: &Vec<&'a Manifest>, lockfile: LockfileInput<'a>) -> (r: Vec<
    &'a Manifest,
>)
    ensures
        r.deep_view() == allowed_providers(list.deep_view(), lockfile.deep_view()),
{
    let ghost all = list.deep_view();
    let ghost lf = lockfile.deep_view();
    let mut out: Vec<&'a Manifest> = Vec::new();
    let mut i: usize = 0;
    proof {
        reveal(Seq::filter);
    }
    assert(out.deep_view() =~= allowed_providers(all.take(0), lf));
    while i < list.len()
        invariant
            i <= list@.len(),
            all == list.deep_view(),
            lf == lockfile.deep_view(),
            out.deep_view() == allowed_providers(all.take(i as int), lf),
        decreases list@.len() - i,
    {
        let ghost before = out.deep_view();
        assert(all[i as int] == list@[i as int]@);
        assert(all.take(i + 1).drop_last() == all.take(i as int));
        proof {
            reveal(Seq::filter);
        }
        let m: &'a Manifest = list[i];
        let allowed = match lockfile {
            Some((lf, LockfileMode::Strict)) => has_lock(&lf.packages, m),
            Some((lf, LockfileMode::Flexible(_))) => is_not_below(
                &lf.packages_for_name(&m.name),
                m,
            ),
            None => true,
        };
        if allowed {
            out.push(m);
            assert(out.deep_view() =~= before.push(all[i as int]));
        }
        i += 1;
    }
    assert(all.take(all.len() as int) == all);
    out
}

fn refs<'a>(list: &'a Vec<Manifest>) -> (r: Vec<&'a Manifest>)
    ensures
        r.deep_view() == list.deep_view(),
{
    let mut out: Vec<&'a Manifest> = Vec::new();
    let mut i: usize = 0;
    while i < list.len()
        invariant
            i <= list@.len(),
            out@.len() == i,
            forall|j: int| 0 <= j < i ==> (#[trigger] out@[j]).deep_view() == list@[j].deep_view(),
        decreases list@.len() - i,
    {
        out.push(&list[i]);
        i += 1;
    }
    assert(out.deep_view() =~= list.deep_view());
    out
}

fn versions_in(list: &Vec<Manifest>) -> (r: Vec<Version>)
    ensures
        r.deep_view() == manifest_versions(list.deep_view()),
{
    let mut out: Vec<Version> = Vec::new();
    let mut i: usize = 0;
    while i < list.len()
        invariant
            i <= list@.len(),
            out@.len() == i,
            forall|j: int| 0 <= j < i ==> (#[trigger] out@[j])@ == list@[j]@.version,
        decreases list@.len() - i,
    {
        out.push(list[i].version.clone());
        i += 1;
    }
    assert(out.deep_view() =~= manifest_versions(list.deep_view()));
    out
}

fn versions_locked(locked: &Vec<&LockfilePackage>) -> (r: Vec<Version>)
    ensures
        r.deep_view() == locked_versions(locked.deep_view()),
{
    let mut out: Vec<Version> = Vec::new();
    let mut i: usize = 0;
    while i < locked.len()
        invariant
            i <= locked@.len(),
            out@.len() == i,
            forall|j: int| 0 <= j < i ==> (#[trigger] out@[j])@ == locked@[j]@.version,
        decreases locked@.len() - i,
    {
        out.push(locked[i].version.clone());
        i += 1;
    }
    assert(out.deep_view() =~= locked_versions(locked.deep_view()));
    out
}

/// The constraint as it is written, if there is one.
fn constraint_string(constraint: Option<&DepConstraint>) -> (r: Option<String>)
    ensures
        r.deep_view() == written(constraint.deep_view()),
{
    match constraint {
        Some(c) => Some(c.to_string()),
        None => None,
    }
}

/// An unsatisfiable failure for the constraint.
pub fn unmet(
    name: &PackageName,
    constraint: Option<&DepConstraint>,
    versions: Vec<Version>,
    reason: Option<&str>,
) -> (r: ResolverFailure)
    ensures
        r@ == failure::unsatisfiable(
            name@,
            written(constraint.deep_view()),
            Some(versions.deep_view()),
            match reason {
                Some(s) => Some(seq![s@]),
                None => None,
            },
        ),
{
    let text = constraint_string(constraint);
    let text = match &text {
        Some(s) => Some(s.as_str()),
        None => None,
    };
    let reasons: Option<Vec<String>> = match reason {
        Some(s) => {
            let v = vec![s.to_owned()];
            assert(v.deep_view() =~= seq![s@]);
            Some(v)
        },
        None => None,
    };
    ResolverFailure::unsatisfiable(name.as_str(), text, Some(versions), reasons)
}

/// The first manifest of the installed version and revision.
fn find_installed<'a>(list: &Vec<&'a Manifest>, e: &InstalledEntry) -> (r: Option<&'a Manifest>)
    ensures
        r.deep_view() == if same_release(list.deep_view(), e@).len() > 0 {
            Some(same_release(list.deep_view(), e@)[0])
        } else {
            None
        },
{
    let ghost all = list.deep_view();
    let mut i: usize = 0;
    proof {
        reveal(Seq::filter);
    }
    while i < list.len()
        invariant
            i <= list@.len(),
            all == list.deep_view(),
            same_release(all.take(i as int), e@).len() == 0,
        decreases list@.len() - i,
    {
        assert(all[i as int] == list@[i as int]@);
        assert(all.take(i + 1).drop_last() == all.take(i as int));
        proof {
            reveal(Seq::filter);
        }
        let m: &'a Manifest = list[i];
        if text::same_text(m.version.as_str(), e.version.as_str()) && m.revision == e.revision {
            proof {
                lists::lemma_filter_first(all, released_as(e@), i + 1);
            }
            return Some(m);
        }
        i += 1;
    }
    assert(all.take(all.len() as int) == all);
    None
}

fn prefer<'a>(ctx: Context<'a>, name: &PackageName, list: &Vec<&'a Manifest>) -> (r: &'a Manifest)
    requires
        list@.len() > 0,
    ensures
        r@ == preferred(ctx@, name@, list.deep_view()),
{
    if !ctx.prefer_upgrade {
        if let Some(e) = ctx.installed.get_by_name(name) {
            if let Some(m) = find_installed(list, e) {
                return m;
            }
        }
    }
    assert(list.deep_view().last() == list@[list@.len() - 1]@);
    list[list.len() - 1]
}

/// Choose which manifest to use for a name: locked-first (prefer installed) unless prefer_upgrade
/// or not installed; then latest in available. When lockfile is present, filter to locked versions
/// (strict) or allow upgrades (flexible). For virtuals, pick a provider.
pub fn choose_manifest<'a>(
    ctx: Context<'a>,
    name: &PackageName,
    constraint: Option<&DepConstraint>,
) -> (r: Result<&'a Manifest, ResolverFailure>)
    ensures
        views::result_view(r) == chosen(ctx@, name@, constraint.deep_view()),
{
    match ctx.available.get_versions(name) {
        Some(versions) => choose_version(ctx, name, constraint, versions),
        None => choose_provider(ctx, name, constraint),
    }
}

fn choose_version<'a>(
    ctx: Context<'a>,
    name: &PackageName,
    constraint: Option<&DepConstraint>,
    versions: &'a Vec<Manifest>,
) -> (r: Result<&'a Manifest, ResolverFailure>)
    ensures
        views::result_view(r) == chosen_version(
            ctx@,
            name@,
            constraint.deep_view(),
            versions.deep_view(),
        ),
{
    let fitting = find_candidates(&refs(versions), constraint);
    if let Some((lf, mode)) = ctx.lockfile {
        let locked = lf.packages_for_name(name);
        match mode {
            LockfileMode::Strict => {
                if locked.len() == 0 {
                    return Err(ResolverFailure::not_in_lockfile(name.as_str()));
                }
                let allowed = find_locked_releases(&fitting, &locked);
                if allowed.len() == 0 {
                    return Err(
                        unmet(
                            name,
                            constraint,
                            versions_locked(&locked),
                            Some("no locked (version, revision) satisfies constraint (strict mode)"),
                        ),
                    );
                }
                return Ok(prefer(ctx, name, &allowed));
            },
            LockfileMode::Flexible(_) => {
                if locked.len() > 0 {
                    let allowed = find_not_older(&fitting, &locked);
                    if allowed.len() == 0 {
                        return Err(
                            unmet(
                                name,
                                constraint,
                                versions_locked(&locked),
                                Some("no version >= locked satisfies constraint (flexible mode)"),
                            ),
                        );
                    }
                    return Ok(prefer(ctx, name, &allowed));
                }
            },
        }
    }
    if fitting.len() == 0 {
        return Err(unmet(name, constraint, versions_in(versions), None));
    }
    Ok(prefer(ctx, name, &fitting))
}

fn choose_provider<'a>(
    ctx: Context<'a>,
    name: &PackageName,
    constraint: Option<&DepConstraint>,
) -> (r: Result<&'a Manifest, ResolverFailure>)
    ensures
        views::result_view(r) == chosen_provider(ctx@, name@, constraint.deep_view()),
{
    let allowed = find_allowed_providers(&ctx.available.providers_of(name.as_str()), ctx.lockfile);
    if let Some((_, LockfileMode::Strict)) = ctx.lockfile {
        if allowed.len() == 0 {
            return Err(ResolverFailure::not_in_lockfile(name.as_str()));
        }
    }
    let fitting = find_candidates(&allowed, constraint);
    if fitting.len() == 0 {
        let reasons = vec!["package not found".to_owned()];
        assert(reasons.deep_view() =~= seq!["package not found"@]);
        return Err(ResolverFailure::unsatisfiable(name.as_str(), None, None, Some(reasons)));
    }
    assert(fitting.deep_view().last() == fitting@[fitting@.len() - 1]@);
    Ok(fitting[fitting.len() - 1])
}

} // verus!
