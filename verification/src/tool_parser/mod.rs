//! Reading tool calls out of what a model writes.
pub mod call_laws;
pub mod json;
pub mod markup;
pub mod markup_laws;
pub mod params;
pub mod step3p5;
pub mod step3p5_laws;
pub mod types;
pub mod value_laws;
