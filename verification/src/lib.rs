//! Compile-time checking of Fluent localization files: loading, parsing,
//! validation and the plan of the generated module, with proofs.

pub mod text;
pub mod ast_util;
pub mod cycles;
pub mod validator;
pub mod custom;
pub mod fluent_model;
pub mod scan;
pub mod syntax_error;
pub mod loader;
pub mod manifest;
pub mod codegen;
