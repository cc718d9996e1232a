//! The runtime: the only scheduler, and the owner of every index.
use crate::entity::EntityTypeId;
use crate::entity::FieldId;
use crate::predicate::Predicate;
use vstd::prelude::*;

pub mod alike;
pub mod api;
pub mod batch;
pub mod bindings;
pub mod buckets;
pub mod clock;
pub mod commit;
pub mod commit_laws;
pub mod conjunction;
pub mod deliveries;
pub mod engine;
pub mod eval;
pub mod exec;
pub mod fold;
pub mod fold_laws;
pub mod frame;
pub mod frame_laws;
pub mod id_laws;
pub mod index;
pub mod indexes;
pub mod items;
pub mod laws;
pub mod lifecycle;
pub mod merge;
pub mod once;
pub mod places;
pub mod plan_laws;
pub mod profile;
pub mod refs;
pub mod register;
pub mod registry;
pub mod replay;
pub mod route;
pub mod routing;
pub mod schedule;
pub mod scope;
pub mod shares;
pub mod store;

verus! {

/// What a calculation declares beside its writes.
pub struct CalcOptions {
    /// The fields of its own instance that it reads, where it declares them.
    pub reads: Option<Vec<FieldId>>,
    pub tier: Tier,
    pub residency: Residency,
}

impl Default for CalcOptions {
    fn default() -> (r: CalcOptions)
        ensures
            r.reads is None,
            r.tier == Tier::General,
            r.residency == Residency::Auto,
    {
        CalcOptions { reads: None, tier: Tier::General, residency: Residency::Auto }
    }
}

/// A registered calculation, without its body.
pub struct CalcInfo {
    pub name: String,
    /// The type whose instances it belongs to.
    pub ty: EntityTypeId,
    pub pred: Predicate,
    /// The number of groups of its scope that must all be written to.
    pub n_groups: u32,
    /// The condition reads nothing of the subscriber.
    pub cond_indep: bool,
    /// Calculations with like conditions share the class.
    pub cond_class: u32,
    pub declared_writes: Vec<FieldId>,
    pub opts: CalcOptions,
}

/// How a calculation is executed.
#[derive(Clone, Copy, Debug, PartialEq, Eq, Structural)]
pub enum Tier {
    /// Any code.
    General,
    /// The restricted kernel subset: no spawning.
    Kernel,
}

impl Default for Tier {
    fn default() -> (r: Tier)
        ensures
            r == Tier::General,
    {
        Tier::General
    }
}

/// Where a calculation runs.
#[derive(Clone, Copy, Debug, PartialEq, Eq, Structural)]
pub enum Residency {
    /// The runtime decides by what it measured.
    Auto,
    Cpu,
    Gpu,
}

impl Default for Residency {
    fn default() -> (r: Residency)
        ensures
            r == Residency::Auto,
    {
        Residency::Auto
    }
}

/// Whether the order of deliveries is fixed.
#[derive(Clone, Copy, Debug, PartialEq, Eq, Structural)]
pub enum Determinism {
    /// The order of a batch is not defined.
    Free,
    /// A batch is sorted by writer and field.
    Canonical,
}

impl Default for Determinism {
    fn default() -> (r: Determinism)
        ensures
            r == Determinism::Free,
    {
        Determinism::Free
    }
}

/// What happens when a calculation breaks its declarations.
#[derive(Clone, Copy, Debug, PartialEq, Eq, Structural)]
pub enum Detect {
    /// Stop.
    Strict,
    /// Report and go on.
    Warn,
    /// Go on.
    Silent,
}

impl Detect {
    /// The setting that a build starts with: a debug build reports, a release build does not.
    pub fn for_build(debug: bool) -> (r: Detect)
        ensures
            r == (if debug {
                Detect::Warn
            } else {
                Detect::Silent
            }),
    {
        if debug {
            Detect::Warn
        } else {
            Detect::Silent
        }
    }
}

}
