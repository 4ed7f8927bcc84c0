pub mod environment;
pub mod eval;
pub mod literal;
pub mod parser;
pub mod primitive_procedures;
pub mod printer;
pub mod read_from_file;
pub mod rewrite;
pub mod types;
