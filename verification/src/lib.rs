//! A workspace orchestrator library: a declarative manifest describes a set of
//! packages (members), their build-system bindings, their dependency edges and
//! optional nested-repository mirrors.  The library computes, for a loaded set
//! of manifests, the exact schedule of per-member lifecycle actions — each
//! member dispatched at most once per root context, dependencies before
//! dependents — together with the per-member build plans and the workspace
//! membership lists.  Reading manifests from disk and running the external
//! tools is left to the thin shell around the library.

pub mod config;
pub mod depmap;
pub mod dispatch;
pub mod model;
pub mod strmap;
pub mod strutil;
pub mod traverse;
pub mod workspace;

pub use config::{probe_config, ConfigSource};
pub use depmap::{invert, is_subroot_name, subroot_candidates, DepMap};
pub use dispatch::{first_error, hook_for, is_build_verb, is_hook_verb, is_mutating_verb,
    is_publish_verb, submodule_steps, CargoManifest, CargoStep, GitStep, HookCommand,
    NpmManifest, NpmStep, SyncItem};
pub use model::{Cargo, Dep, Member, NPM, Root, RootCore, SubrepoID, Submodule, Subtree};
pub use strmap::StrMap;
pub use traverse::{plan_run, Env, Event, PairSet, PlanError, PlanState};
pub use workspace::{cargo_workspace_members, npm_workspace_members};
