//! Compiled regular-expression patterns.
//!
//! The regex engine is an outside component: compilation success and the
//! leftmost match are pure functions of the pattern and the text, named here
//! by uninterpreted functions, and every call goes through a trusted wrapper.

use vstd::prelude::*;

verus! {

#[verifier::external_type_specification]
#[verifier::external_body]
pub struct ExRegex(regex::Regex);

/// Whether `regex::Regex::new` accepts this pattern; compilation success
/// depends on the pattern text alone.
pub uninterp spec fn regex_valid(pat: Seq<char>) -> bool;

/// The text of the leftmost match `regex::Regex::find` reports for this
/// pattern in this text, if any; it depends on pattern and text alone.
pub uninterp spec fn regex_first_match(pat: Seq<char>, text: Seq<char>) -> Option<Seq<char>>;

/// A pattern together with its compiled form. `compile` is the only
/// constructor, so `compiled` is always the compilation of `source`.
pub struct Pattern {
    source: String,
    compiled: regex::Regex,
}

impl Pattern {
    /// The pattern text this value was compiled from.
    pub closed spec fn src(&self) -> Seq<char> {
        self.source@
    }

    /// Relies on `regex::Regex::new`: whether a pattern compiles depends on
    /// the pattern text alone.
    #[verifier::external_body]
    pub fn compile(pat: &str) -> (r: Option<Pattern>)
        ensures
            r is Some == regex_valid(pat@),
            r matches Some(p) ==> p.src() == pat@,
    {
        match regex::Regex::new(pat) {
            Ok(compiled) => Some(
                Pattern { source: pat.to_string(), compiled },
            ),
            Err(_) => None,
        }
    }

    /// Relies on `regex::Regex::find`: the leftmost match depends on the
    /// pattern and the text alone (no anchoring, no full-match requirement).
    #[verifier::external_body]
    pub fn find_first(&self, text: &str) -> (r: Option<String>)
        ensures
            r is Some == regex_first_match(self.src(), text@) is Some,
            r matches Some(m) ==> regex_first_match(self.src(), text@) == Some(m@),
    {
        self.compiled.find(text).map(|m| m.as_str().to_string())
    }
}

} // verus!
