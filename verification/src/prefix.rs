//! Prefix resolution and filesystem layout.

use vstd::prelude::*;
use vstd::string::*;

use crate::text::Text;

verus! {

/// Directory names under prefix.
pub open spec fn layout() -> Seq<Text> {
    seq![
        "pkgs"@,
        "bin"@,
        "share"@,
        "share/man"@,
        "var"@,
        "var/cache"@,
        "var/backups"@,
        "var/transactions"@,
        "tmp"@,
        "backups"@,
    ]
}

/// The directories of the standard layout, relative to the prefix, each after the one that it lies
/// in.
pub fn layout_dirs() -> (r: Vec<String>)
    ensures
        r.deep_view() == layout(),
{
    let r = vec![
        "pkgs".to_owned(),
        "bin".to_owned(),
        "share".to_owned(),
        "share/man".to_owned(),
        "var".to_owned(),
        "var/cache".to_owned(),
        "var/backups".to_owned(),
        "var/transactions".to_owned(),
        "tmp".to_owned(),
        "backups".to_owned(),
    ];
    assert(r.deep_view() =~= layout());
    r
}

/// What stands where a directory of the layout belongs.
#[derive(Clone, Copy, Debug, Eq, PartialEq, Structural)]
pub enum Found {
    Missing,
    NotDirectory,
    Directory,
}

/// What is wrong with a directory of the layout, if anything.
pub open spec fn layout_issue(dir: Text, found: Found) -> Option<Text> {
    match found {
        Found::Missing => Some("missing: "@ + dir),
        Found::NotDirectory => Some("not a directory: "@ + dir),
        Found::Directory => None,
    }
}

/// What is wrong with the first `n` directories of the layout.
pub open spec fn layout_issues(found: Seq<Found>, n: nat) -> Seq<Text>
    decreases n,
{
    if n == 0 {
        Seq::empty()
    } else {
        let front = layout_issues(found, (n - 1) as nat);
        match layout_issue(layout()[n - 1], found[n - 1]) {
            Some(issue) => front.push(issue),
            None => front,
        }
    }
}

/// Checks the standard layout, given what stands where each of its directories belongs. Returns
/// (true, []) if all required directories exist and are directories; otherwise (false, issues) with
/// one string per issue.
pub fn check_layout(found: &Vec<Found>) -> (r: (bool, Vec<String>))
    requires
        found@.len() == layout().len(),
    ensures
        r.1.deep_view() == layout_issues(found@, layout().len()),
        r.0 == (r.1@.len() == 0),
{
    let dirs = layout_dirs();
    let ghost all = dirs.deep_view();
    let mut issues: Vec<String> = Vec::new();
    let mut i: usize = 0;
    assert(issues.deep_view() =~= Seq::empty());
    while i < dirs.len()
        invariant
            i <= dirs@.len(),
            dirs@.len() == found@.len(),
            all == dirs.deep_view(),
            all == layout(),
            issues.deep_view() == layout_issues(found@, i as nat),
        decreases dirs@.len() - i,
    {
        let ghost before = issues.deep_view();
        assert(all[i as int] == dirs@[i as int]@);
        match found[i] {
            Found::Missing => {
                issues.push("missing: ".to_owned().concat(dirs[i].as_str()));
                assert(issues.deep_view() =~= before.push("missing: "@ + all[i as int]));
            },
            Found::NotDirectory => {
                issues.push("not a directory: ".to_owned().concat(dirs[i].as_str()));
                assert(issues.deep_view() =~= before.push("not a directory: "@ + all[i as int]));
            },
            Found::Directory => {},
        }
        i += 1;
    }
    (issues.len() == 0, issues)
}

/// A layout is in order exactly when all its directories are there.
pub proof fn lemma_layout_ok(found: Seq<Found>, n: nat)
    requires
        n <= found.len(),
        n <= layout().len(),
    ensures
        layout_issues(found, n).len() == 0 <==> (forall|i: int|
            0 <= i < n ==> (#[trigger] found[i]) == Found::Directory),
    decreases n,
{
    if n > 0 {
        lemma_layout_ok(found, (n - 1) as nat);
    }
}

/// What a root directory lies in.
#[derive(Clone, Copy, Debug, Eq, PartialEq, Structural)]
pub enum RootBase {
    /// Nothing: the path stands for itself.
    Itself,
    /// The user's home directory.
    Home,
    /// The current directory.
    CurrentDir,
}

/// The root: the path below the base. A given root that is relative lies in the current directory,
/// where that is known. The default is `.local/sic` in the home directory, or else in the current
/// directory.
pub open spec fn root_of(given: Option<Text>, has_home: bool, has_current_dir: bool) -> (
    RootBase,
    Text,
) {
    match given {
        Some(root) => if root.len() > 0 && root[0] == '/' {
            (RootBase::Itself, root)
        } else if has_current_dir {
            (RootBase::CurrentDir, root)
        } else {
            (RootBase::Itself, root)
        },
        None => if has_home {
            (RootBase::Home, ".local/sic"@)
        } else if has_current_dir {
            (RootBase::CurrentDir, ".local/sic"@)
        } else {
            (RootBase::Itself, "./.local/sic"@)
        },
    }
}

/// Resolves the sic root prefix: the given root (`SIC_ROOT`) if there is one, else `~/.local/sic`.
/// An absolute path when possible: a relative root lies in the current directory, and so does the
/// default where there is no home directory.
pub fn resolve_root(given: Option<&str>, has_home: bool, has_current_dir: bool) -> (r: (
    RootBase,
    String,
))
    ensures
        (r.0, r.1@) == root_of(given.deep_view(), has_home, has_current_dir),
{
    match given {
        Some(root) => {
            if !root.is_empty() && root.get_char(0) == '/' {
                (RootBase::Itself, root.to_owned())
            } else if has_current_dir {
                (RootBase::CurrentDir, root.to_owned())
            } else {
                (RootBase::Itself, root.to_owned())
            }
        },
        None => {
            if has_home {
                (RootBase::Home, ".local/sic".to_owned())
            } else if has_current_dir {
                (RootBase::CurrentDir, ".local/sic".to_owned())
            } else {
                (RootBase::Itself, "./.local/sic".to_owned())
            }
        },
    }
}

} // verus!
