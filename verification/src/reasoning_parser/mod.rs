//! Telling what a model reasons from what it answers.
pub mod base;
pub mod mistral;
pub mod step3p5;
pub mod stream_laws;
