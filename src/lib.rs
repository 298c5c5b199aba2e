//! Pattern-based deobfuscation of x86-64 machine code.
//!
//! Symbolic instruction patterns with typed variables are turned, by probing an
//! assembler, into byte-level encodings; those become a byte regex whose matches are
//! interpreted back into variable bindings, checked for consistency across
//! instructions, and rewritten in place by a shorter replacement padded with NOPs.

mod byte_regex;
pub mod discovery;
pub mod laws;
pub mod matcher;
pub mod pattern;
pub mod pattern_database;
pub mod replacement;
pub mod text;
