//! What a command prints and the code it exits with.

use vstd::prelude::*;
use vstd::string::*;

use crate::storage::installed;
use crate::storage::installed::InstalledLoadErrorView;
use crate::storage::lockfile;
use crate::storage::lockfile::LockfileLoadErrorView;
use crate::storage::{InstalledLoadError, LockfileLoadError};
use crate::term;
use crate::text::Text;
use crate::views;

verus! {

/// Exit code: success.
pub const EXIT_OK: i32 = 0;

/// Exit code: resolver failure (e.g. unsatisfiable, conflict).
pub const EXIT_RESOLVER: i32 = 1;

/// Exit code: fetch, stage, or commit failure.
pub const EXIT_EXEC: i32 = 2;

/// Exit code: usage error, I/O error, or other.
pub const EXIT_OTHER: i32 = 3;

/// What a command prints and the code it exits with.
#[derive(Debug, Eq, PartialEq)]
pub struct Output {
    pub stdout: String,
    pub stderr: String,
    pub code: i32,
}

/// What an [`Output`] holds.
pub struct OutputView {
    pub stdout: Text,
    pub stderr: Text,
    pub code: i32,
}

impl DeepView for Output {
    type V = OutputView;

    open spec fn deep_view(&self) -> OutputView {
        OutputView { stdout: self.stdout@, stderr: self.stderr@, code: self.code }
    }
}

impl View for Output {
    type V = OutputView;

    open spec fn view(&self) -> OutputView {
        self.deep_view()
    }
}

/// The line for an error.
pub open spec fn error_line(message: Text, use_color: bool) -> Text {
    (if use_color {
        term::colored(message, "31"@)
    } else {
        message
    }) + "\n"@
}

/// The line for a success.
pub open spec fn success_line(message: Text, use_color: bool) -> Text {
    (if use_color {
        term::colored(message, "32"@)
    } else {
        message
    }) + "\n"@
}

/// The output of a command that succeeds.
pub open spec fn succeeded(stdout: Text) -> OutputView {
    OutputView { stdout, stderr: Seq::empty(), code: EXIT_OK }
}

/// The output of a command that fails with a message.
pub open spec fn failed(message: Text, use_color: bool, code: i32) -> OutputView {
    OutputView { stdout: Seq::empty(), stderr: error_line(message, use_color), code }
}

/// The output of a command that prints a document, or that fails because it cannot be written.
pub open spec fn printed(outcome: Result<Text, Text>, use_color: bool, code: i32) -> OutputView {
    match outcome {
        Ok(s) => OutputView { stdout: s + "\n"@, stderr: Seq::empty(), code },
        Err(e) => failed("sic: "@ + e, use_color, EXIT_OTHER),
    }
}

/// The output of a command that succeeds.
pub fn succeed(stdout: String) -> (r: Output)
    ensures
        r@ == succeeded(stdout@),
{
    let r = Output { stdout, stderr: String::new(), code: EXIT_OK };
    assert(r.stderr@ =~= Seq::empty());
    r
}

/// The output of a command that fails with a message.
pub fn fail(message: &str, use_color: bool, code: i32) -> (r: Output)
    ensures
        r@ == failed(message@, use_color, code),
{
    let r = Output { stdout: String::new(), stderr: term::write_error(use_color, message), code };
    assert(r.stdout@ =~= Seq::empty());
    r
}

/// The output of a command that prints a document, or that fails because it cannot be written.
pub fn print_document(outcome: Result<String, String>, use_color: bool, code: i32) -> (r: Output)
    ensures
        r@ == printed(views::result_view(outcome), use_color, code),
{
    match outcome {
        Ok(s) => {
            let r = Output { stdout: s.concat("\n"), stderr: String::new(), code };
            assert(r.stderr@ =~= Seq::empty());
            r
        },
        Err(e) => fail("sic: ".to_owned().concat(e.as_str()).as_str(), use_color, EXIT_OTHER),
    }
}

/// The message where the packages cannot be read.
pub open spec fn unreadable_packages(dir: Text, error: Text) -> Text {
    "sic: failed to read packages from "@ + dir + ": "@ + error
}

/// The message where there are no packages.
pub open spec fn no_packages(dir: Text) -> Text {
    "sic: no packages found in "@ + dir
}

/// The message where the installed packages cannot be loaded.
pub open spec fn unloadable_installed(e: InstalledLoadErrorView) -> Text {
    "sic: failed to load installed.toml: "@ + installed::load_error_text(e)
}

/// The message where the lockfile cannot be loaded.
pub open spec fn unloadable_lockfile(path: Text, e: LockfileLoadErrorView) -> Text {
    "sic: failed to load lockfile "@ + path + ": "@ + lockfile::load_error_text(e)
}

/// The message for a name that is no package name.
pub open spec fn invalid_name(name: Text) -> Text {
    "sic: invalid package name: "@ + name
}

/// The message where the packages cannot be read.
pub fn unreadable_packages_message(dir: &str, error: &str) -> (r: String)
    ensures
        r@ == unreadable_packages(dir@, error@),
{
    "sic: failed to read packages from ".to_owned().concat(dir).concat(": ").concat(error)
}

/// The message where there are no packages.
pub fn no_packages_message(dir: &str) -> (r: String)
    ensures
        r@ == no_packages(dir@),
{
    "sic: no packages found in ".to_owned().concat(dir)
}

/// The message where the installed packages cannot be loaded.
pub fn unloadable_installed_message(e: &InstalledLoadError) -> (r: String)
    ensures
        r@ == unloadable_installed(e.deep_view()),
{
    "sic: failed to load installed.toml: ".to_owned().concat(e.to_string().as_str())
}

/// The message where the lockfile cannot be loaded.
pub fn unloadable_lockfile_message(path: &str, e: &LockfileLoadError) -> (r: String)
    ensures
        r@ == unloadable_lockfile(path@, e.deep_view()),
{
    "sic: failed to load lockfile ".to_owned().concat(path).concat(": ").concat(
        e.to_string().as_str(),
    )
}

/// The message for a name that is no package name.
pub fn invalid_name_message(name: &str) -> (r: String)
    ensures
        r@ == invalid_name(name@),
{
    "sic: invalid package name: ".to_owned().concat(name)
}

} // verus!
