//! Reading Ninja build files and turning them into build graphs.

pub mod convert;
pub mod model;
pub mod parser;
pub mod run;
pub mod tokenizer;
