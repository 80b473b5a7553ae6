//! The rules by which conversions are accepted, run and finished.

pub mod event;
pub mod finalize;
pub mod kind;
pub mod named;
pub mod placed;
pub mod plan;
pub mod request;
pub mod run;
pub mod staged;
