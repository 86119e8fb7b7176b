//! Arithmetic circuits over the Mersenne-31 field, and the machine that they describe.
pub mod assembly;
pub mod decoder;
pub mod decoder_laws;
pub mod expression;
pub mod flags;
pub mod machine;
pub mod ops;
pub mod row;
pub mod selection;
pub mod slots;
pub mod state_transition;
pub mod transition;
pub mod writeback;
pub mod agreement;
pub mod completeness;
