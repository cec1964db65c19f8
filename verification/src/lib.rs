//! Signed capability tokens whose authorization logic is a small
//! S-expression policy language, evaluated under a bounded-cost interpreter.
pub mod text;
pub mod types;
pub mod render;
pub mod env;
pub mod evaluator;
pub mod parser;
pub mod facade;
pub mod crypto;
pub mod token;
pub mod laws;
pub mod roundtrip;

pub use crypto::generate_keypair;
pub use env::{Bindings, CryptoCallbacks, Env, StubCallbacks};
pub use facade::verify;
pub use parser::parse;
pub use token::{mint, verify_token, Token};
pub use types::{Decimal, Node, SplError};
