//! Regular expressions of the `regex` crate, and what the library relies on
//! of them.

use vstd::prelude::*;
use regex::Regex;

verus! {

#[verifier::external_type_specification]
#[verifier::external_body]
pub struct ExRegex(Regex);

/// Whether `regex::Regex::new` builds a regex from `pattern`.
pub uninterp spec fn regex_accepts(pattern: Seq<char>) -> bool;

/// What `regex::Regex::captures` finds in `haystack` with a regex built from
/// `pattern`: nothing without a match; otherwise the text of each capture
/// group, group 0 being the whole match and a group that took no part in the
/// match having no text.
pub uninterp spec fn regex_captures(pattern: Seq<char>, haystack: Seq<char>) -> Option<
    Seq<Option<Seq<char>>>,
>;

/// The capture groups of one match, as values.
pub type Groups = Seq<Option<Seq<char>>>;

/// The text of group `i` of a match, or `default` when the group did not take
/// part or does not exist.
pub open spec fn group_or(g: Groups, i: int, default: Seq<char>) -> Seq<char> {
    if 0 <= i < g.len() && g[i] is Some {
        g[i]->0
    } else {
        default
    }
}

/// The text of group `i` of a match, or nothing.
pub open spec fn group(g: Groups, i: int) -> Seq<char> {
    group_or(g, i, seq![])
}

/// A regex together with the pattern that it was built from.
pub struct Pattern {
    re: Regex,
    source: String,
}

impl Pattern {
    /// The pattern that this regex was built from.
    pub closed spec fn source(&self) -> Seq<char> {
        self.source@
    }

    /// Builds a regex with `regex::Regex::new`; `None` where that refuses
    /// the pattern. Claimed: the result is present exactly when
    /// `regex_accepts` holds of the pattern, and it remembers the pattern.
    #[verifier::external_body]
    pub(crate) fn build(pattern: &str) -> (r: Option<Pattern>)
        ensures
            r is Some == regex_accepts(pattern@),
            r matches Some(p) ==> p.source() == pattern@,
    {
        match Regex::new(pattern) {
            Ok(re) => Some(Pattern { re, source: pattern.to_string() }),
            Err(_) => None,
        }
    }

    /// The capture groups of the first match in `haystack`, by
    /// `regex::Regex::captures`. Claimed: the texts are those that
    /// `regex_captures` names for this pattern and haystack, and a match
    /// always has group 0 (its documentation says so).
    #[verifier::external_body]
    pub(crate) fn captures(&self, haystack: &str) -> (r: Option<Vec<Option<String>>>)
        ensures
            r.deep_view() == regex_captures(self.source(), haystack@),
            r matches Some(g) ==> g.len() > 0 && g@[0] is Some,
    {
        match self.re.captures(haystack) {
            None => None,
            Some(c) => {
                let mut groups: Vec<Option<String>> = Vec::new();
                for m in c.iter() {
                    groups.push(
                        match m {
                            Some(m) => Some(m.as_str().to_string()),
                            None => None,
                        },
                    );
                }
                Some(groups)
            },
        }
    }

    /// The capture groups of the first match in the text `haystack`.
    pub fn captures_in(&self, haystack: &[char]) -> (r: Option<Vec<Option<String>>>)
        ensures
            r.deep_view() == regex_captures(self.source(), haystack@),
    {
        let s = crate::text::string_of(haystack);
        self.captures(s.as_str())
    }
}

/// The text of group `i` of a match, or `default`.
pub fn group_chars_or(g: &Vec<Option<String>>, i: usize, default: &str) -> (r: Vec<char>)
    ensures
        r@ == group_or(g.deep_view(), i as int, default@),
{
    if i < g.len() {
        match &g[i] {
            Some(t) => {
                return crate::text::chars_of(t.as_str());
            },
            None => {},
        }
    }
    crate::text::chars_of(default)
}

} // verus!
