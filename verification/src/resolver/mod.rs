//! Resolver: in-memory dependency resolution from request + available packages + installed set.
//!
//! Produces a deterministic Plan (ordered install/upgrade steps) or Failure. No I/O. Recommends
//! are not resolved. When system packages are provided, implicit deps can be satisfied by system.

pub mod available;
pub mod choice;
pub mod choice_laws;
pub mod circle;
pub mod circle_laws;
pub mod laws;
pub mod order;
pub mod order_laws;
pub mod plan;
pub mod plan_laws;
pub mod request;
pub mod request_laws;
pub mod search;
pub mod settle;
pub mod strict_laws;
pub mod success_laws;

pub use available::AvailablePackages;
pub use plan::{
    plan_to_lockfile, LockfileInput, LockfileMode, Plan, PlanAction, PlanStep, Request,
    UpgradePolicy,
};
pub use request::{resolve, resolve_remove};
