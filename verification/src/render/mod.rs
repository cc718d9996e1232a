//! The render side: a second runtime that follows the writes of the simulation at its own
//! frame rate.

pub mod api;
pub mod claim_laws;
pub mod clock;
pub mod continuous;
pub mod ctx;
pub mod culling;
pub mod fading;
pub mod frame;
pub mod handoff;
pub mod ingest;
pub mod instance_row;
pub mod interp;
pub mod interp_laws;
pub mod laws;
pub mod local;
pub mod local_api;
pub mod local_laws;
pub mod local_run;
pub mod mirror;
pub mod motion;
pub mod owners;
pub mod reaction;
pub mod register;
pub mod row_laws;
pub mod run_laws;
pub mod runtime;
pub mod sight;
pub mod sight_laws;
pub mod store;
pub mod stream_laws;
pub mod submission;
pub mod view_laws;
pub mod visible;
pub mod writes;

pub use clock::RenderClock;
pub use ctx::RenderCtx;
pub use ctx::RenderInput;
pub use ctx::RenderLocalCtx;
pub use handoff::Publisher;
pub use handoff::SimFrame;
pub use handoff::TrackedDelta;
pub use instance_row::SubmissionInstanceKey;
pub use instance_row::SubmissionInstanceLayout;
pub use instance_row::SubmissionInstanceRow;
pub use instance_row::SubmissionInstanceSlot;
pub use interp::Elementary;
pub use interp::Interp;
pub use interp::Track;
pub use local::RenderLocalFieldDef;
pub use local::RenderLocalId;
pub use local::RenderLocalTypeId;
pub use runtime::RenderError;
pub use runtime::RenderRuntime;
pub use store::RFieldId;
pub use submission::RenderBinding;
pub use submission::RenderPacket;
pub use submission::SubmissionInstanceSpan;
pub use submission::SubmissionInstanceStream;
pub use submission::SubmissionView;
pub use visible::lod_band;
pub use visible::Axes;
pub use visible::CullShape;
pub use writes::RenderNote;
pub use writes::RenderNoteKind;
