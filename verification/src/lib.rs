//! Query-based refactoring that removes a stale feature flag and cleans up
//! the code it leaves behind.
//!
//! Rules are syntactic patterns with replacement templates; edges say which
//! rule comes next after a rule has fired, and at what lexical scope. The
//! [`flag_cleaner`] drives a whole code base to a fixed point, the
//! [`engine`] one file, and the [`rule_store`] keeps the rules that are
//! active. What a run over a file does, step by step and at what cost, is
//! laid down in [`course`].
pub mod config;
pub mod course;
pub mod edit;
pub mod engine;
pub mod flag_cleaner;
pub mod grep;
pub mod matching;
pub mod pattern;
pub mod rule;
pub mod rule_store;
pub mod scopes;
pub mod source_code_unit;
pub mod syntax;
pub mod tag;
pub mod text;
pub mod utilities;
