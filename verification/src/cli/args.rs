//! Command-line arguments.

use std::str::FromStr;

use vstd::prelude::*;
use vstd::string::*;

use crate::failure::OutputFormat;
use crate::prefix;
use crate::prefix::RootBase;
use crate::resolver::plan::{LockfileMode, UpgradePolicy};
use crate::text;
use crate::text::Text;
use crate::views;

verus! {

/// Userland package manager for ~/.local
#[derive(Debug)]
pub struct Cli {
    pub global: GlobalOpts,
    pub command: Command,
}

/// Options of all commands.
#[derive(Clone, Debug)]
pub struct GlobalOpts {
    /// Installation prefix (default: SIC_ROOT or ~/.local/sic)
    pub prefix: Option<String>,
    /// Directory containing package.toml files (default: <prefix>/packages or ./packages)
    pub packages: Option<String>,
    /// Path to sic.lock for strict/flexible resolution (optional)
    pub lockfile: Option<String>,
    /// Lockfile mode when --lockfile is set: strict or flexible
    pub lockfile_mode: LockfileModeArg,
    /// Output format for failures and status: human, json, or toml
    pub output: OutputFormatArg,
    /// Only resolve and print plan; do not fetch or commit
    pub dry_run: bool,
    /// Verbose resolver and fetch logging
    pub verbose: bool,
    /// Non-interactive: assume yes for any prompt; never block on user input (for scripts/CI).
    pub yes: bool,
    /// When to use colored output: auto (TTY and no NO_COLOR), never, or always
    pub color: ColorModeArg,
}

/// The commands.
#[derive(Debug)]
pub enum Command {
    /// Install package(s) by name
    Install { packages: Vec<String> },
    /// Upgrade package(s) to latest; omit name to upgrade all installed
    Upgrade { name: Option<String> },
    /// Remove installed package(s), even if dependents exist where forced
    Remove { packages: Vec<String>, force: bool },
    /// List installed packages with versions
    Status,
    /// Run resolver only and print plan; no fetch or commit
    ResolveOnly { name: Option<String> },
    /// Check prefix layout, lockfile vs installed, and broken symlinks
    Doctor,
    /// List available packages from packages dir (no install)
    Search { pattern: Option<String> },
}

/// When to use colored output.
#[derive(Clone, Copy, Debug, Eq, PartialEq, Structural)]
pub enum ColorModeArg {
    Auto,
    Never,
    Always,
}

impl DeepView for ColorModeArg {
    type V = ColorModeArg;

    open spec fn deep_view(&self) -> ColorModeArg {
        *self
    }
}

/// The color mode that the text names, in any case.
pub open spec fn parsed_color(s: Text) -> Result<ColorModeArg, Text> {
    let t = text::lowered(s);
    if t == "auto"@ {
        Ok(ColorModeArg::Auto)
    } else if t == "never"@ {
        Ok(ColorModeArg::Never)
    } else if t == "always"@ {
        Ok(ColorModeArg::Always)
    } else {
        Err("expected 'auto', 'never', or 'always', got '"@ + s + "'"@)
    }
}

/// Whether to use color: as told, or in the auto mode if `NO_COLOR` is not set and the output goes
/// to a terminal.
pub open spec fn colors(mode: ColorModeArg, no_color: bool, terminal: bool) -> bool {
    match mode {
        ColorModeArg::Never => false,
        ColorModeArg::Always => true,
        ColorModeArg::Auto => !no_color && terminal,
    }
}

impl ColorModeArg {
    /// The color mode that the text names, in any case.
    pub fn parse(s: &str) -> (r: Result<Self, String>)
        ensures
            views::result_view(r) == parsed_color(s@),
    {
        let t = text::to_lowercase(s);
        if text::same_text(t.as_str(), "auto") {
            Ok(ColorModeArg::Auto)
        } else if text::same_text(t.as_str(), "never") {
            Ok(ColorModeArg::Never)
        } else if text::same_text(t.as_str(), "always") {
            Ok(ColorModeArg::Always)
        } else {
            Err("expected 'auto', 'never', or 'always', got '".to_owned().concat(s).concat("'"))
        }
    }

    /// Whether to use color for stderr. For Auto: false if NO_COLOR set, else stderr is TTY.
    pub fn use_color_stderr(&self, no_color: bool, stderr_is_terminal: bool) -> (r: bool)
        ensures
            r == colors(*self, no_color, stderr_is_terminal),
    {
        match self {
            ColorModeArg::Never => false,
            ColorModeArg::Always => true,
            ColorModeArg::Auto => !no_color && stderr_is_terminal,
        }
    }

    /// Whether to use color for stdout. For Auto: false if NO_COLOR set, else stdout is TTY.
    pub fn use_color_stdout(&self, no_color: bool, stdout_is_terminal: bool) -> (r: bool)
        ensures
            r == colors(*self, no_color, stdout_is_terminal),
    {
        self.use_color_stderr(no_color, stdout_is_terminal)
    }
}

impl FromStr for ColorModeArg {
    type Err = String;

    fn from_str(s: &str) -> (r: Result<Self, Self::Err>)
        ensures
            views::result_view(r) == parsed_color(s@),
    {
        Self::parse(s)
    }
}

/// How the lockfile is used.
#[derive(Clone, Copy, Debug, Eq, PartialEq, Structural)]
pub enum LockfileModeArg {
    Strict,
    Flexible,
}

impl DeepView for LockfileModeArg {
    type V = LockfileModeArg;

    open spec fn deep_view(&self) -> LockfileModeArg {
        *self
    }
}

/// The lockfile mode that the text names, in any case.
pub open spec fn parsed_mode(s: Text) -> Result<LockfileModeArg, Text> {
    let t = text::lowered(s);
    if t == "strict"@ {
        Ok(LockfileModeArg::Strict)
    } else if t == "flexible"@ {
        Ok(LockfileModeArg::Flexible)
    } else {
        Err("expected 'strict' or 'flexible', got '"@ + s + "'"@)
    }
}

impl LockfileModeArg {
    /// The lockfile mode that the text names, in any case.
    pub fn parse(s: &str) -> (r: Result<Self, String>)
        ensures
            views::result_view(r) == parsed_mode(s@),
    {
        let t = text::to_lowercase(s);
        if text::same_text(t.as_str(), "strict") {
            Ok(LockfileModeArg::Strict)
        } else if text::same_text(t.as_str(), "flexible") {
            Ok(LockfileModeArg::Flexible)
        } else {
            Err("expected 'strict' or 'flexible', got '".to_owned().concat(s).concat("'"))
        }
    }
}

impl FromStr for LockfileModeArg {
    type Err = String;

    fn from_str(s: &str) -> (r: Result<Self, Self::Err>)
        ensures
            views::result_view(r) == parsed_mode(s@),
    {
        Self::parse(s)
    }
}

/// The mode of the resolver.
pub open spec fn mode_of(a: LockfileModeArg) -> LockfileMode {
    match a {
        LockfileModeArg::Strict => LockfileMode::Strict,
        LockfileModeArg::Flexible => LockfileMode::Flexible(UpgradePolicy::AllowUpgrade),
    }
}

impl From<LockfileModeArg> for LockfileMode {
    fn from(a: LockfileModeArg) -> (r: Self) {
        match a {
            LockfileModeArg::Strict => LockfileMode::Strict,
            LockfileModeArg::Flexible => LockfileMode::Flexible(UpgradePolicy::AllowUpgrade),
        }
    }
}

impl vstd::std_specs::convert::FromSpecImpl<LockfileModeArg> for LockfileMode {
    open spec fn obeys_from_spec() -> bool {
        true
    }

    open spec fn from_spec(a: LockfileModeArg) -> Self {
        mode_of(a)
    }
}

/// The format of output.
#[derive(Clone, Copy, Debug, Eq, PartialEq, Structural)]
pub enum OutputFormatArg {
    Human,
    Json,
    Toml,
}

impl DeepView for OutputFormatArg {
    type V = OutputFormatArg;

    open spec fn deep_view(&self) -> OutputFormatArg {
        *self
    }
}

/// The output format that the text names, in any case.
pub open spec fn parsed_format(s: Text) -> Result<OutputFormatArg, Text> {
    let t = text::lowered(s);
    if t == "human"@ {
        Ok(OutputFormatArg::Human)
    } else if t == "json"@ {
        Ok(OutputFormatArg::Json)
    } else if t == "toml"@ {
        Ok(OutputFormatArg::Toml)
    } else {
        Err("expected 'human', 'json', or 'toml', got '"@ + s + "'"@)
    }
}

impl OutputFormatArg {
    /// The output format that the text names, in any case.
    pub fn parse(s: &str) -> (r: Result<Self, String>)
        ensures
            views::result_view(r) == parsed_format(s@),
    {
        let t = text::to_lowercase(s);
        if text::same_text(t.as_str(), "human") {
            Ok(OutputFormatArg::Human)
        } else if text::same_text(t.as_str(), "json") {
            Ok(OutputFormatArg::Json)
        } else if text::same_text(t.as_str(), "toml") {
            Ok(OutputFormatArg::Toml)
        } else {
            Err("expected 'human', 'json', or 'toml', got '".to_owned().concat(s).concat("'"))
        }
    }
}

impl FromStr for OutputFormatArg {
    type Err = String;

    fn from_str(s: &str) -> (r: Result<Self, Self::Err>)
        ensures
            views::result_view(r) == parsed_format(s@),
    {
        Self::parse(s)
    }
}

/// The format of the library.
pub open spec fn format_of(a: OutputFormatArg) -> OutputFormat {
    match a {
        OutputFormatArg::Human => OutputFormat::Human,
        OutputFormatArg::Json => OutputFormat::Json,
        OutputFormatArg::Toml => OutputFormat::Toml,
    }
}

impl From<OutputFormatArg> for OutputFormat {
    fn from(a: OutputFormatArg) -> (r: Self) {
        match a {
            OutputFormatArg::Human => OutputFormat::Human,
            OutputFormatArg::Json => OutputFormat::Json,
            OutputFormatArg::Toml => OutputFormat::Toml,
        }
    }
}

impl vstd::std_specs::convert::FromSpecImpl<OutputFormatArg> for OutputFormat {
    open spec fn obeys_from_spec() -> bool {
        true
    }

    open spec fn from_spec(a: OutputFormatArg) -> Self {
        format_of(a)
    }
}

/// The prefix: the given one, else the root.
pub open spec fn prefix_of(
    given: Option<Text>,
    root: Option<Text>,
    has_home: bool,
    has_current_dir: bool,
) -> (RootBase, Text) {
    match given {
        Some(path) => (RootBase::Itself, path),
        None => prefix::root_of(root, has_home, has_current_dir),
    }
}

/// Resolves prefix: global --prefix or the root.
pub fn resolve_prefix(
    global: &GlobalOpts,
    root: Option<&str>,
    has_home: bool,
    has_current_dir: bool,
) -> (r: (RootBase, String))
    ensures
        (r.0, r.1@) == prefix_of(
            global.prefix.deep_view(),
            root.deep_view(),
            has_home,
            has_current_dir,
        ),
{
    match &global.prefix {
        Some(path) => (RootBase::Itself, path.clone()),
        None => prefix::resolve_root(root, has_home, has_current_dir),
    }
}

/// Where the packages dir is.
#[derive(Debug, Eq, PartialEq)]
pub enum PackagesDir {
    /// At the given path.
    Given(String),
    /// The directory `packages` in the prefix.
    InPrefix,
    /// The directory `packages` in the current directory.
    InCurrentDir,
}

/// Resolves packages dir: global --packages or prefix/packages or ./packages.
pub fn resolve_packages_dir(global: &GlobalOpts, prefix_has_packages: bool) -> (r: PackagesDir)
    ensures
        match r {
            PackagesDir::Given(path) => global.packages matches Some(p) && p@ == path@,
            PackagesDir::InPrefix => global.packages is None && prefix_has_packages,
            PackagesDir::InCurrentDir => global.packages is None && !prefix_has_packages,
        },
{
    match &global.packages {
        Some(path) => PackagesDir::Given(path.clone()),
        None => {
            if prefix_has_packages {
                PackagesDir::InPrefix
            } else {
                PackagesDir::InCurrentDir
            }
        },
    }
}

} // verus!
