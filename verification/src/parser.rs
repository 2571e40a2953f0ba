pub mod ident;
pub mod operator;
pub mod scan;
pub mod term;
pub mod prose_scan;
pub mod prose;
