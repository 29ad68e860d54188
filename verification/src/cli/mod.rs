//! Command-line arguments and what each command does with what was loaded for it.

pub mod args;
pub mod diagnosis;
pub mod document_laws;
pub mod laws;
pub mod output;
pub mod plan_output;
pub mod plans;
pub mod search;
pub mod status;

pub use args::{
    resolve_packages_dir, resolve_prefix, Cli, ColorModeArg, Command, GlobalOpts, LockfileModeArg,
    OutputFormatArg,
};
pub use diagnosis::run_doctor;
pub use output::{Output, EXIT_EXEC, EXIT_OK, EXIT_OTHER, EXIT_RESOLVER};
pub use plan_output::{emit_shadowing_warnings, print_plan};
pub use plans::{
    open_workspace, report_executed, report_failure, run_install, run_remove, run_resolve_only, run_upgrade, Batch, Deed, Job, Loaded,
    NextStep, Workspace,
};
pub use search::run_search;
pub use status::{run_status, LockfileStatus};
