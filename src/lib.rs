//! Wave-function-collapse text generation over a one-dimensional chain of
//! token positions.
pub mod algorithm;
pub mod post_processing;
pub mod rules;
pub mod text_parse;
