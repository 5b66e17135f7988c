//! Type inference for patterns: expected-type-directed typing of pattern trees,
//! default binding modes ("match ergonomics"), and the small type solver the
//! inference runs against.
pub mod ty;
pub mod pat;
pub mod db;
pub mod infer;
