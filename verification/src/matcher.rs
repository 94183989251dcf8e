//! The query matcher: a compiled set of query terms, plain or regex, combined
//! with OR or AND semantics, as a predicate over extracted text.
//!
//! Plain terms match by case-insensitive substring containment; regex terms
//! match where the pattern finds any occurrence. OR reports the first declared
//! term that matches; AND requires every term to match the full text
//! independently and reports a joined label.

use vstd::prelude::*;

use crate::errors::SearchError;
use crate::pattern::{regex_first_match, regex_valid, Pattern};
use crate::textops::{contains_seq, join_with, lower_of};

verus! {

/// A plain (already lowercased) term matches: it is a substring of the
/// case-folded text.
pub open spec fn plain_term_hits(text: Seq<char>, low_term: Seq<char>) -> bool {
    contains_seq(lower_of(text), low_term)
}

/// A regex term matches: the pattern finds some occurrence in the text.
pub open spec fn regex_term_hits(pat: Seq<char>, text: Seq<char>) -> bool {
    regex_first_match(pat, text) is Some
}

/// The pattern texts of a sequence of compiled patterns.
pub open spec fn pattern_srcs(ps: Seq<Pattern>) -> Seq<Seq<char>> {
    ps.map_values(|p: Pattern| p.src())
}

/// What each term matched in the text, term by term.
pub open spec fn matched_texts(terms: Seq<Seq<char>>, text: Seq<char>) -> Seq<Seq<char>> {
    terms.map_values(|t: Seq<char>| regex_first_match(t, text).unwrap())
}

/// Each query term case-folded, the form plain terms are compiled to.
pub open spec fn lowered_terms(qs: Seq<Seq<char>>) -> Seq<Seq<char>> {
    qs.map_values(|q: Seq<char>| lower_of(q))
}

/// Term `k` of a compiled term list matches the text.
pub open spec fn match_term_hits(is_regex: bool, terms: Seq<Seq<char>>, k: int, text: Seq<char>) -> bool {
    if is_regex {
        regex_term_hits(terms[k], text)
    } else {
        plain_term_hits(text, terms[k])
    }
}

/// Some term matches the text.
pub open spec fn match_any(is_regex: bool, terms: Seq<Seq<char>>, text: Seq<char>) -> bool {
    exists|k: int| 0 <= k < terms.len() && match_term_hits(is_regex, terms, k, text)
}

/// Every term matches the text, each against the full text.
pub open spec fn match_all(is_regex: bool, terms: Seq<Seq<char>>, text: Seq<char>) -> bool {
    forall|k: int| 0 <= k < terms.len() ==> match_term_hits(is_regex, terms, k, text)
}

/// Whether a query of these terms reports a match on this text.
pub open spec fn match_found(
    is_regex: bool,
    and_mode: bool,
    terms: Seq<Seq<char>>,
    text: Seq<char>,
) -> bool {
    if and_mode {
        match_all(is_regex, terms, text)
    } else {
        match_any(is_regex, terms, text)
    }
}

/// The first term index at or after `k` that matches, or the term count.
pub open spec fn match_first_from(
    is_regex: bool,
    terms: Seq<Seq<char>>,
    text: Seq<char>,
    k: int,
) -> int
    decreases terms.len() - k,
{
    if k < 0 || k >= terms.len() {
        terms.len() as int
    } else if match_term_hits(is_regex, terms, k, text) {
        k
    } else {
        match_first_from(is_regex, terms, text, k + 1)
    }
}

/// The label reported in OR mode: the first matching plain term, or what the
/// first matching regex term matched.
pub open spec fn match_or_label(is_regex: bool, terms: Seq<Seq<char>>, text: Seq<char>) -> Seq<
    char,
> {
    let k = match_first_from(is_regex, terms, text, 0);
    if is_regex {
        regex_first_match(terms[k], text).unwrap()
    } else {
        terms[k]
    }
}

/// The label reported in AND mode: every term's contribution joined with a
/// plus sign.
pub open spec fn match_and_label(is_regex: bool, terms: Seq<Seq<char>>, text: Seq<char>) -> Seq<
    char,
> {
    if is_regex {
        join_with(matched_texts(terms, text), " + "@)
    } else {
        join_with(terms, " + "@)
    }
}

/// The label reported on a match.
pub open spec fn match_label(
    is_regex: bool,
    and_mode: bool,
    terms: Seq<Seq<char>>,
    text: Seq<char>,
) -> Seq<char> {
    if and_mode {
        match_and_label(is_regex, terms, text)
    } else {
        match_or_label(is_regex, terms, text)
    }
}

/// Case never affects plain-mode matching: a plain query of these terms
/// matches a text exactly when some term, case-folded, is a substring of the
/// case-folded text.
pub proof fn lemma_plain_match_case_insensitive(queries: Seq<Seq<char>>, text: Seq<char>)
    ensures
        match_any(false, lowered_terms(queries), text) == (exists|k: int|
            0 <= k < queries.len() && contains_seq(
                lower_of(text),
                lower_of(#[trigger] queries[k]),
            )),
{
    let lows = lowered_terms(queries);
    if match_any(false, lows, text) {
        let k = choose|k: int| 0 <= k < lows.len() && match_term_hits(false, lows, k, text);
        assert(contains_seq(lower_of(text), lower_of(queries[k])));
    }
    if exists|k: int|
        0 <= k < queries.len() && contains_seq(lower_of(text), lower_of(#[trigger] queries[k])) {
        let k = choose|k: int|
            0 <= k < queries.len() && contains_seq(lower_of(text), lower_of(#[trigger] queries[k]));
        assert(match_term_hits(false, lows, k, text));
        assert(match_any(false, lows, text));
    }
}

/// AND mode reports a match exactly when every term matches the same full
/// text, independently of order or overlap; OR mode exactly when some term
/// does.
pub proof fn lemma_and_or_semantics(is_regex: bool, terms: Seq<Seq<char>>, text: Seq<char>)
    ensures
        match_found(is_regex, true, terms, text) == (forall|k: int|
            0 <= k < terms.len() ==> match_term_hits(is_regex, terms, k, text)),
        match_found(is_regex, false, terms, text) == (exists|k: int|
            0 <= k < terms.len() && match_term_hits(is_regex, terms, k, text)),
{
}

/// If term `k` matches and no earlier term from `lo` on does, `k` is the
/// first hit from `lo`.
pub proof fn lemma_match_first_from(
    is_regex: bool,
    terms: Seq<Seq<char>>,
    text: Seq<char>,
    lo: int,
    k: int,
)
    requires
        0 <= lo <= k < terms.len(),
        match_term_hits(is_regex, terms, k, text),
        forall|j: int| lo <= j < k ==> !match_term_hits(is_regex, terms, j, text),
    ensures
        match_first_from(is_regex, terms, text, lo) == k,
    decreases k - lo,
{
    if lo < k {
        lemma_match_first_from(is_regex, terms, text, lo + 1, k);
    }
}

/// A compiled query matcher.
pub struct Matcher {
    regexes: Vec<Pattern>,
    plains: Vec<String>,
    use_regex: bool,
    and_mode: bool,
}

impl Matcher {
    /// Whether the terms are regular expressions.
    pub closed spec fn is_regex(&self) -> bool {
        self.use_regex
    }

    /// Whether every term must match (AND) rather than any (OR).
    pub closed spec fn is_and(&self) -> bool {
        self.and_mode
    }

    /// The compiled terms: pattern texts in regex mode, lowercased query
    /// strings in plain mode, in declaration order.
    pub closed spec fn terms(&self) -> Seq<Seq<char>> {
        if self.use_regex {
            pattern_srcs(self.regexes@)
        } else {
            self.plains.deep_view()
        }
    }

    /// Term `k` matches the text.
    pub open spec fn term_hits(&self, k: int, text: Seq<char>) -> bool {
        match_term_hits(self.is_regex(), self.terms(), k, text)
    }

    /// Some term matches the text.
    pub open spec fn any_hit(&self, text: Seq<char>) -> bool {
        match_any(self.is_regex(), self.terms(), text)
    }

    /// Every term matches the text, each against the full text.
    pub open spec fn all_hit(&self, text: Seq<char>) -> bool {
        match_all(self.is_regex(), self.terms(), text)
    }

    /// Whether the matcher reports a match on this text.
    pub open spec fn spec_matches(&self, text: Seq<char>) -> bool {
        match_found(self.is_regex(), self.is_and(), self.terms(), text)
    }

    /// The label reported in AND mode.
    pub open spec fn and_label(&self, text: Seq<char>) -> Seq<char> {
        match_and_label(self.is_regex(), self.terms(), text)
    }

    /// The label reported on a match.
    pub open spec fn spec_label(&self, text: Seq<char>) -> Seq<char> {
        match_label(self.is_regex(), self.is_and(), self.terms(), text)
    }

    /// Compiles a matcher. In plain mode this always succeeds and stores the
    /// case-folded terms; in regex mode it fails, with the offending pattern,
    /// iff some term does not compile.
    pub fn new(queries: &Vec<String>, is_regex: bool, and_mode: bool) -> (r: Result<
        Matcher,
        SearchError,
    >)
        ensures
            ({
                let qs = queries.deep_view();
                &&& (r is Ok <==> (is_regex ==> (forall|i: int|
                    0 <= i < qs.len() ==> regex_valid(#[trigger] qs[i]))))
                &&& (r matches Ok(m) ==> {
                    &&& m.is_and() == and_mode
                    &&& m.is_regex() == is_regex
                    &&& m.terms().len() == qs.len()
                    &&& (is_regex ==> m.terms() == qs)
                    &&& (!is_regex ==> m.terms() == lowered_terms(qs))
                })
                &&& (r matches Err(e) ==> (exists|i: int|
                    {
                        &&& 0 <= i < qs.len()
                        &&& !regex_valid(qs[i])
                        &&& (forall|j: int| 0 <= j < i ==> regex_valid(#[trigger] qs[j]))
                        &&& (e matches SearchError::InvalidRegex { pattern } && pattern@ == qs[i])
                    }))
            }),
    {
        if is_regex {
            let mut regexes: Vec<Pattern> = Vec::new();
            let mut i: usize = 0;
            while i < queries.len()
                invariant
                    is_regex,
                    0 <= i <= queries@.len(),
                    queries.deep_view().len() == queries@.len(),
                    forall|k: int|
                        0 <= k < queries@.len() ==> queries.deep_view()[k] == #[trigger] queries@[k]@,
                    pattern_srcs(regexes@) =~= queries.deep_view().take(i as int),
                    forall|k: int| 0 <= k < i ==> regex_valid(#[trigger] queries.deep_view()[k]),
                decreases queries@.len() - i,
            {
                match Pattern::compile(queries[i].as_str()) {
                    Some(p) => {
                        let ghost before = regexes@;
                        regexes.push(p);
                        proof {
                            let qs = queries.deep_view();
                            assert(pattern_srcs(before).len() == i as int);
                            assert(before.len() == i as int);
                            assert(regexes@ =~= before.push(p));
                            assert(p.src() == qs[i as int]);
                            assert forall|k: int|
                                0 <= k < i + 1 implies #[trigger] pattern_srcs(regexes@)[k]
                                == qs.take(i + 1)[k] by {
                                if k < i {
                                    assert(pattern_srcs(before)[k] == qs.take(i as int)[k]);
                                    assert(regexes@[k] == before[k]);
                                } else {
                                    assert(regexes@[k] == p);
                                }
                            }
                            assert(pattern_srcs(regexes@) =~= qs.take(i + 1));
                        }
                    },
                    None => {
                        let pat = queries[i].clone();
                        let err = SearchError::InvalidRegex { pattern: pat };
                        proof {
                            let qs = queries.deep_view();
                            assert(exists|ix: int|
                                {
                                    &&& 0 <= ix < qs.len()
                                    &&& !regex_valid(qs[ix])
                                    &&& (forall|j: int|
                                        0 <= j < ix ==> regex_valid(#[trigger] qs[j]))
                                    &&& (err matches SearchError::InvalidRegex { pattern }
                                        && pattern@ == qs[ix])
                                }) by {
                                assert(0 <= (i as int) < qs.len());
                                assert(!regex_valid(qs[i as int]));
                                assert(forall|j: int| 0 <= j < i ==> regex_valid(#[trigger] qs[j]));
                                assert(err matches SearchError::InvalidRegex { pattern }
                                    && pattern@ == qs[i as int]);
                            }
                        }
                        return Err(err);
                    },
                }
                i += 1;
            }
            proof {
                assert(queries.deep_view().take(queries@.len() as int) =~= queries.deep_view());
            }
            Ok(Matcher { regexes, plains: Vec::new(), use_regex: true, and_mode })
        } else {
            let mut plains: Vec<String> = Vec::new();
            let mut i: usize = 0;
            while i < queries.len()
                invariant
                    0 <= i <= queries@.len(),
                    queries.deep_view().len() == queries@.len(),
                    forall|k: int|
                        0 <= k < queries@.len() ==> queries.deep_view()[k] == #[trigger] queries@[k]@,
                    plains.deep_view().len() == i,
                    forall|k: int|
                        0 <= k < i ==> plains.deep_view()[k] == lower_of(
                            #[trigger] queries.deep_view()[k],
                        ),
                decreases queries@.len() - i,
            {
                plains.push(crate::textops::to_lowercase(queries[i].as_str()));
                i += 1;
            }
            proof {
                assert(plains.deep_view() =~~= lowered_terms(queries.deep_view()));
            }
            Ok(Matcher { regexes: Vec::new(), plains, use_regex: false, and_mode })
        }
    }

    /// The first declared term that matches the text, with its label; `None`
    /// when no term matches (OR) or some term fails (AND).
    pub fn first_matching_query(&self, text: &str) -> (r: Option<String>)
        ensures
            r is Some == self.spec_matches(text@),
            r matches Some(s) ==> s@ == self.spec_label(text@),
    {
        if self.and_mode {
            return self.all_match(text);
        }
        if self.use_regex {
            let mut k: usize = 0;
            while k < self.regexes.len()
                invariant
                    self.is_regex(),
                    !self.is_and(),
                    self.terms().len() == self.regexes@.len(),
                    0 <= k <= self.regexes@.len(),
                    forall|j: int|
                        0 <= j < self.regexes@.len() ==> self.terms()[j] == #[trigger] self.regexes@[j].src(),
                    forall|j: int|
                        0 <= j < k ==> !match_term_hits(self.is_regex(), self.terms(), j, text@),
                decreases self.regexes@.len() - k,
            {
                match self.regexes[k].find_first(text) {
                    Some(m) => {
                        proof {
                            assert(match_term_hits(self.is_regex(), self.terms(), k as int, text@));
                            lemma_match_first_from(
                                self.is_regex(),
                                self.terms(),
                                text@,
                                0,
                                k as int,
                            );
                        }
                        return Some(m);
                    },
                    None => {},
                }
                k += 1;
            }
            proof {
                assert(!self.any_hit(text@));
            }
            None
        } else {
            let lower = crate::textops::to_lowercase(text);
            let hay = crate::textops::chars_of(lower.as_str());
            let mut k: usize = 0;
            while k < self.plains.len()
                invariant
                    !self.is_regex(),
                    !self.is_and(),
                    hay@ == lower_of(text@),
                    self.terms().len() == self.plains@.len(),
                    0 <= k <= self.plains@.len(),
                    forall|j: int|
                        0 <= j < self.plains@.len() ==> self.terms()[j] == #[trigger] self.plains@[j]@,
                    forall|j: int|
                        0 <= j < k ==> !match_term_hits(self.is_regex(), self.terms(), j, text@),
                decreases self.plains@.len() - k,
            {
                let needle = crate::textops::chars_of(self.plains[k].as_str());
                if crate::textops::contains_chars(&hay, &needle) {
                    proof {
                        assert(match_term_hits(self.is_regex(), self.terms(), k as int, text@));
                        lemma_match_first_from(
                            self.is_regex(),
                            self.terms(),
                            text@,
                            0,
                            k as int,
                        );
                    }
                    return Some(self.plains[k].clone());
                }
                k += 1;
            }
            proof {
                assert(!self.any_hit(text@));
            }
            None
        }
    }

    /// Every term's match, joined with a plus sign, if all terms match the
    /// text independently; `None` as soon as one term fails.
    pub fn all_match(&self, text: &str) -> (r: Option<String>)
        ensures
            r is Some == self.all_hit(text@),
            r matches Some(s) ==> s@ == self.and_label(text@),
    {
        if self.use_regex {
            let mut found: Vec<String> = Vec::new();
            let mut k: usize = 0;
            while k < self.regexes.len()
                invariant
                    self.is_regex(),
                    self.terms().len() == self.regexes@.len(),
                    0 <= k <= self.regexes@.len(),
                    forall|j: int|
                        0 <= j < self.regexes@.len() ==> self.terms()[j] == #[trigger] self.regexes@[j].src(),
                    found.deep_view() =~= matched_texts(self.terms().take(k as int), text@),
                    forall|j: int|
                        0 <= j < k ==> match_term_hits(self.is_regex(), self.terms(), j, text@),
                decreases self.regexes@.len() - k,
            {
                match self.regexes[k].find_first(text) {
                    Some(m) => {
                        let ghost before = found.deep_view();
                        found.push(m);
                        proof {
                            let ts = self.terms();
                            assert(found.deep_view() =~~= before.push(m@));
                            assert(m@ == regex_first_match(ts[k as int], text@).unwrap());
                            assert forall|j: int|
                                0 <= j < k + 1 implies #[trigger] found.deep_view()[j]
                                == matched_texts(ts.take(k + 1), text@)[j] by {
                                if j < k {
                                    assert(before[j] == matched_texts(ts.take(k as int), text@)[j]);
                                }
                            }
                            assert(found.deep_view() =~~= matched_texts(ts.take(k + 1), text@));
                        }
                    },
                    None => {
                        proof {
                            assert(!match_term_hits(self.is_regex(), self.terms(), k as int, text@));
                        }
                        return None;
                    },
                }
                k += 1;
            }
            proof {
                assert(self.terms().take(self.terms().len() as int) =~= self.terms());
                assert(found.deep_view() =~~= matched_texts(self.terms(), text@));
            }
            let r = crate::textops::join_strings(&found, " + ");
            Some(r)
        } else {
            let lower = crate::textops::to_lowercase(text);
            let hay = crate::textops::chars_of(lower.as_str());
            let mut k: usize = 0;
            while k < self.plains.len()
                invariant
                    !self.is_regex(),
                    hay@ == lower_of(text@),
                    self.terms().len() == self.plains@.len(),
                    0 <= k <= self.plains@.len(),
                    forall|j: int|
                        0 <= j < self.plains@.len() ==> self.terms()[j] == #[trigger] self.plains@[j]@,
                    forall|j: int|
                        0 <= j < k ==> match_term_hits(self.is_regex(), self.terms(), j, text@),
                decreases self.plains@.len() - k,
            {
                let needle = crate::textops::chars_of(self.plains[k].as_str());
                if !crate::textops::contains_chars(&hay, &needle) {
                    proof {
                        assert(!match_term_hits(self.is_regex(), self.terms(), k as int, text@));
                    }
                    return None;
                }
                k += 1;
            }
            proof {
                assert(self.plains.deep_view() =~= self.terms());
            }
            let r = crate::textops::join_strings(&self.plains, " + ");
            Some(r)
        }
    }
}

} // verus!
