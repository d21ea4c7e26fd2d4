pub mod encode;
pub mod helpers;
pub mod instruction;
pub mod lexer;
pub mod machine;
pub mod number;
pub mod parser;
pub mod program;
pub mod source;
