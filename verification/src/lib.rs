//! A small Lisp-family interpreter core: values, environment, operators and
//! a resumable evaluator whose effects are carried out by the embedding host.

pub mod arith;
pub mod binding;
pub mod builtin;
pub mod compare;
pub mod container;
pub mod control;
pub mod driver;
pub mod effect;
pub mod environment;
pub mod equality;
pub mod error;
pub mod float;
pub mod format;
pub mod key_laws;
pub mod keys;
pub mod laws;
pub mod logic;
pub mod machine;
pub mod output;
pub mod parse;
pub mod semantics;
pub mod text;
pub mod value;
