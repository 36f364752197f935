pub mod cli;
pub mod json;
pub mod source;
pub mod text;
