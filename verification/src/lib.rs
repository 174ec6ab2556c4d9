//! A compile-time source-rewriting engine: it consumes a token sequence
//! written in a small notation for "apply many operations to one receiver
//! without repeating its name" and emits an expanded token sequence in which
//! every operation is rewritten against an explicitly bound receiver.
//!
//! The engine is purely syntactic: it works on an abstract token-tree shape
//! (identifiers, punctuation, literals, delimited groups) and copies anything
//! it does not recognize through unchanged. The embedding host converts its
//! own token representation to and from [`token::Token`].

pub mod engine;
pub mod subst;
pub mod token;

pub use engine::{multicall, multicall_internal, MulticallError};
pub use subst::recursive_replace;
pub use token::{Delimiter, Spacing, Token};
