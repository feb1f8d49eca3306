pub mod classes;
pub mod error;
pub mod laws;
pub mod model;
pub mod scanner;
pub mod token;

pub use error::ScanError;
pub use scanner::scan;
pub use token::{Token, TokenKind};
