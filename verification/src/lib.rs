//! A predicate calculation engine.
//!
//! Four layers: the runtime, entities, calculations, and predicates. The writes of the last
//! frame are the only thing that triggers anything. Every field has one writer, fixed at
//! registration; reads see what was committed before the frame; and what a batch delivers has
//! no order that a calculation could rely on.
//!
//! - [`entity`], [`value`], [`column`], [`genslots`]: data and where it is kept.
//! - [`predicate`], [`calculation`]: what is watched, and what runs when it is hit.
//! - [`runtime`]: routing, execution, merging, commit, snapshots.
//! - [`kernel`], [`kernel_batch`]: the restricted calculations that run on columns.
//! - [`spatial`], [`spatial_query`]: a uniform grid for neighbourhood queries.
//! - [`render`]: the second runtime, which follows the first at its own frame rate.
//! - [`dsl`], [`dsl_resolve`], [`dsl_build`]: predicates by field name.
//! - [`float64`], [`float32`] and their companions: IEEE 754 numbers, with proofs.
//!
//! The modules whose names end in `_laws` state what the operations come to, in terms of the
//! numbers, cells and writes that go in and come out.

pub mod calculation;
pub mod column;
pub mod dsl;
pub mod dsl_build;
pub mod dsl_laws;
pub mod dsl_resolve;
pub mod entity;
pub mod float32;
pub mod float32_laws;
pub mod float64;
pub mod float_arith;
pub mod float_grid;
pub mod float_laws;
pub mod float_order;
pub mod float_root;
pub mod genslots;
pub mod kernel;
pub mod kernel_batch;
pub mod kernel_laws;
pub mod lists;
pub mod predicate;
pub mod predicate_laws;
pub mod render;
pub mod rounding;
pub mod runtime;
pub mod spatial;
pub mod spatial_laws;
pub mod spatial_query;
pub mod value;
pub mod value_laws;

pub use calculation::CalcId;
pub use calculation::Ctx;
pub use calculation::Input;
pub use entity::CellAddr;
pub use entity::EntityTypeId;
pub use entity::FieldDef;
pub use entity::FieldId;
pub use entity::InstanceId;
pub use predicate::CmpOp;
pub use predicate::Cond;
pub use predicate::Delivery;
pub use predicate::Dir;
pub use predicate::Expr;
pub use predicate::FoldOp;
pub use predicate::Predicate;
pub use predicate::Proj;
pub use predicate::Scope;
pub use predicate::ValRef;
pub use runtime::engine::Runtime;
pub use runtime::profile::Profile;
pub use runtime::store::RowPolicy;
pub use runtime::CalcOptions;
pub use runtime::Detect;
pub use runtime::Determinism;
pub use runtime::Residency;
pub use runtime::Tier;
pub use value::Value;
