//! Byte regexes, compiled and run by the `regex` crate.

use vstd::prelude::*;

verus! {

#[verifier::external_type_specification]
#[verifier::external_body]
pub struct ExRegex(regex::bytes::Regex);

#[verifier::external_type_specification]
#[verifier::external_body]
pub struct ExRegexError(regex::Error);

/// The capture groups that `regex::bytes::Regex::captures_iter` reports on `haystack` for
/// the regex compiled from `pattern`: for each successive non-overlapping match, the
/// `(start, end)` span of every group, `None` where the group took no part.
pub uninterp spec fn captures_of(pattern: Seq<char>, haystack: Seq<u8>) -> Seq<Seq<Option<(usize, usize)>>>;

/// Whether `regex::bytes::Regex::new` compiles `pattern`: it is valid and within the
/// default size limit.
pub uninterp spec fn regex_accepts(pattern: Seq<char>) -> bool;

/// A compiled byte regex together with the text it was compiled from.
#[derive(Debug)]
pub struct ByteRegex {
    source: String,
    compiled: regex::bytes::Regex,
}

impl ByteRegex {
    /// The text the regex was compiled from.
    pub closed spec fn source(&self) -> Seq<char> {
        self.source@
    }

    /// Relies on `regex::bytes::Regex::new`: compiles `source`, or fails on an invalid
    /// pattern or one over the default size limit.
    #[verifier::external_body]
    pub fn new(source: String) -> (r: Result<ByteRegex, regex::Error>)
        ensures
            (r is Ok) == regex_accepts(source@),
            r matches Ok(b) ==> b.source() == source@,
    {
        match regex::bytes::Regex::new(&source) {
            Ok(compiled) => Ok(ByteRegex { source, compiled }),
            Err(e) => Err(e),
        }
    }

    /// Relies on `regex::bytes::Regex::captures_iter` and `Captures::get`: the spans of
    /// the capture groups of each successive non-overlapping match in `haystack`.
    #[verifier::external_body]
    pub fn captures_all(&self, haystack: &[u8]) -> (r: Vec<Vec<Option<(usize, usize)>>>)
        ensures
            r@.len() == captures_of(self.source(), haystack@).len(),
            forall|i: int| 0 <= i < r@.len() ==> (#[trigger] r@[i])@ == captures_of(self.source(), haystack@)[i],
    {
        let mut all = Vec::new();
        for caps in self.compiled.captures_iter(haystack) {
            let mut groups = Vec::new();
            for i in 0..caps.len() {
                groups.push(caps.get(i).map(|m| (m.start(), m.end())));
            }
            all.push(groups);
        }
        all
    }
}

} // verus!
