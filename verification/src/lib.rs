//! Decides how the contributions of independent modules become visible in a
//! root filesystem, and in which order the mounts that realise the decision
//! are made. The crate computes; its callers touch the filesystem.
//!
//! The work runs one way. `inventory` tells which entries of a module store
//! are modules and what rules each has. `planner` merges the files of all
//! modules into one tree (`tree`) and gives every node a strategy; what holds
//! of every such plan is proved in `plan_laws`. `executor` lays the plan out as
//! steps and hands them to the caller one by one, keeping the record of the
//! modules that were made visible. `overlay`, `magic` and `hymofs` say what goes into
//! the calls behind a step: the arguments and stages of a union mount, the
//! operations that fill a tmpfs skeleton, and the requests to the redirector.
//! `visuals`, `conflicts` and `diagnostics` report on a plan.

pub mod config;
pub mod conflicts;
pub mod diagnostics;
pub mod error;
pub mod executor;
pub mod hymofs;
pub mod inventory;
pub mod lists;
pub mod magic;
pub mod overlay;
pub mod plan_laws;
pub mod planner;
pub mod text;
pub mod tree;
pub mod visuals;
