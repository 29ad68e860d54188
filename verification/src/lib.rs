//! sic: a userland package manager library.

pub mod cli;
pub mod dep_constraint;
pub mod doctor;
pub mod documents;
pub mod failure;
pub mod fetch;
pub mod lists;
pub mod manifest;
pub mod package_laws;
pub mod package_name;
pub mod paths;
pub mod prefix;
pub mod resolver;
pub mod source;
pub mod stage;
pub mod storage;
pub mod system_laws;
pub mod system_packages;
pub mod table;
pub mod term;
pub mod text;
pub mod text_laws;
pub mod transaction;
pub mod undo;
pub mod value_laws;
pub mod version;
pub mod version_laws;
pub mod views;
pub mod work_laws;

pub use dep_constraint::{DepConstraint, DepOp, InvalidDepConstraint};
pub use failure::{
    default_suggested_action, emit_failure, format_human, to_json, to_toml, FailureKind,
    FailureSerializeError, OutputFormat, ResolverFailure,
};
pub use fetch::{compute_file_hash, fetch_to_cache, verify_file_hash, FetchError};
pub use manifest::{
    load_packages_from_dir, parse, parse_and_validate, validate, Manifest, ParseError, ParseOrValidationError,
    ValidationError,
};
pub use package_name::{InvalidPackageName, PackageName};
pub use prefix::{check_layout, resolve_root};
pub use resolver::{
    plan_to_lockfile, resolve, resolve_remove, AvailablePackages, LockfileInput, LockfileMode,
    Plan, PlanAction, PlanStep, Request, UpgradePolicy,
};
pub use source::{InvalidSourceHash, Source, SourceHash};
pub use stage::{stage_plan, StageError};
pub use storage::{
    cache_path, InstalledDb, InstalledEntry, InstalledLoadError, InstalledWriteError, Lockfile,
    LockfileLoadError, LockfilePackage, LockfileWriteError,
};
pub use system_packages::{SystemPackages, DPKG_STATUS_PATH};
pub use transaction::{
    backup_dir, installed_backup_path, staging_path, transaction_log_path, Transaction,
    TransactionError, TransactionState, TransactionType,
};
pub use version::{EmptyVersion, Version};
