pub mod hash;
pub mod parser;
pub mod intern;
pub mod term;
pub mod text;
pub mod meta;
pub mod writer;
pub mod compiler;
