//! Produces corrupted copies of a byte sequence: each copy equals the
//! original except at chosen offsets, where a freshly drawn random byte
//! stands in place of the original one.
pub mod error;
pub mod naming;
pub mod plan;
pub mod random;
pub mod source;
pub mod substitute;

pub use error::VandalizeError;
pub use plan::{every, vandalize, OutputFile, OutputPlan, Strategy};
pub use source::Source;
pub use substitute::{substitute, vandalize_bytes, vandalize_data};
