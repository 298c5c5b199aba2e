//! A database of rewrite rules.

use vstd::prelude::*;

use crate::pattern::ObfuscationPattern;

verus! {

/// An ordered list of rewrite rules.
#[derive(Debug, PartialEq)]
pub struct PatternDatabase(Vec<ObfuscationPattern>);

impl PatternDatabase {
    /// The rules, in order.
    pub closed spec fn patterns_spec(&self) -> Seq<ObfuscationPattern> {
        self.0@
    }

    pub fn new(patterns: Vec<ObfuscationPattern>) -> (r: PatternDatabase)
        ensures
            r.patterns_spec() == patterns@,
    {
        PatternDatabase(patterns)
    }

    /// The rules, in order.
    pub fn patterns(&self) -> (r: &[ObfuscationPattern])
        ensures
            r@ == self.patterns_spec(),
    {
        self.0.as_slice()
    }
}

} // verus!
