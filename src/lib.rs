//! A preprocessor for Dockerfile-like directive files: template inheritance
//! through `EXTEND`, overridable `BLOCK` sections with `PARENT` splicing,
//! scoped `INCLUDE`s, `{{ variable }}` substitution and sandboxed `COPY`/`ADD`
//! source paths.
pub mod block;
pub mod command;
pub mod error;
pub mod laws;
pub mod path;
pub mod preprocessor;
pub mod substitute;
pub mod text;
pub mod variables;
