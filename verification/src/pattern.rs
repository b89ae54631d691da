use vstd::prelude::*;

verus! {

#[verifier::external_type_specification]
#[verifier::external_body]
pub struct ExRegex(regex::Regex);

#[verifier::external_type_specification]
#[verifier::external_body]
pub struct ExRegexError(regex::Error);

/// Whether `regex::Regex::new` compiles this pattern (it refuses invalid syntax and patterns
/// over its default size limit).
pub uninterp spec fn regex_accepts(pattern: Seq<char>) -> bool;

/// The capture groups of the leftmost-first match of `pattern` in `haystack`, as
/// `regex::Regex::captures` reports them: `None` when nothing matches, else one entry per group
/// (group 0 being the whole match), each the matched text or `None` for a group that did not
/// take part.
pub uninterp spec fn regex_captures(pattern: Seq<char>, haystack: Seq<char>) -> Option<
    Seq<Option<Seq<char>>>,
>;

/// The text `regex::Regex::replace_all` produces from `haystack`, each non-overlapping match of
/// `pattern` replaced by `replacement` with its `$name` references expanded.
pub uninterp spec fn regex_replace_all(
    pattern: Seq<char>,
    haystack: Seq<char>,
    replacement: Seq<char>,
) -> Seq<char>;

/// A compiled regular expression together with the text it was compiled from.
pub struct Pattern {
    regex: regex::Regex,
    source: String,
}

/// Compiles `source` with `regex::Regex::new`. The contract claims that compilation succeeds
/// exactly when the pattern is one the crate accepts, a function of the text alone, and that the
/// result remembers that text.
#[verifier::external_body]
fn compile_regex(source: &str) -> (r: Result<Pattern, regex::Error>)
    ensures
        r is Ok <==> regex_accepts(source@),
        r matches Ok(p) ==> p.source_view() == source@,
{
    match regex::Regex::new(source) {
        Ok(regex) => Ok(Pattern { regex, source: source.to_owned() }),
        Err(e) => Err(e),
    }
}

/// Calls `regex::Regex::captures` and copies out each group's text. The contract claims the
/// result is the named function of the pattern's text and the haystack, and, as the crate
/// documents for `Captures`, that group 0 (the whole match) is present in every match.
#[verifier::external_body]
fn captures_of(p: &Pattern, haystack: &str) -> (r: Option<Vec<Option<String>>>)
    ensures
        r.deep_view() == regex_captures(p.source_view(), haystack@),
        r matches Some(g) ==> g.len() >= 1 && g[0] is Some,
{
    p.regex.captures(haystack).map(
        |caps| caps.iter().map(|m| m.map(|m| m.as_str().to_owned())).collect(),
    )
}

/// Calls `regex::Regex::replace_all` with a text replacement. The contract claims the result is
/// the named function of the pattern's text, the haystack and the replacement.
#[verifier::external_body]
fn replace_all_of(p: &Pattern, haystack: &str, replacement: &str) -> (r: String)
    ensures
        r@ == regex_replace_all(p.source_view(), haystack@, replacement@),
{
    p.regex.replace_all(haystack, replacement).into_owned()
}

/// Why a pattern was refused.
#[derive(Debug, Clone, Copy, PartialEq, Eq)]
pub enum PatternError {
    Invalid,
}

impl Pattern {
    /// The text the expression was compiled from.
    pub closed spec fn source_view(&self) -> Seq<char> {
        self.source@
    }

    /// Compiles a regular expression.
    pub fn new(source: &str) -> (r: Result<Pattern, PatternError>)
        ensures
            r is Ok <==> regex_accepts(source@),
            r matches Ok(p) ==> p.source_view() == source@,
    {
        match compile_regex(source) {
            Ok(p) => Ok(p),
            Err(_) => Err(PatternError::Invalid),
        }
    }

    /// The text the expression was compiled from, as `regex::Regex::as_str` gives it.
    pub fn as_str(&self) -> (r: &str)
        ensures
            r@ == self.source_view(),
    {
        self.source.as_str()
    }

    /// The capture groups of the first match in `haystack`.
    pub fn captures(&self, haystack: &str) -> (r: Option<Vec<Option<String>>>)
        ensures
            r.deep_view() == regex_captures(self.source_view(), haystack@),
            r matches Some(g) ==> g.len() >= 1 && g[0] is Some,
    {
        captures_of(self, haystack)
    }

    /// `haystack` with every match replaced by `replacement`.
    pub fn replace_all(&self, haystack: &str, replacement: &str) -> (r: String)
        ensures
            r@ == regex_replace_all(self.source_view(), haystack@, replacement@),
    {
        replace_all_of(self, haystack, replacement)
    }
}

/// Calls `regex::Regex::clone`; nothing is claimed of the copy beyond its type, the text it was
/// compiled from being kept beside it.
#[verifier::external_body]
fn clone_regex(regex: &regex::Regex) -> regex::Regex {
    regex.clone()
}

impl Clone for Pattern {
    fn clone(&self) -> (r: Self)
        ensures
            r.source_view() == self.source_view(),
    {
        Pattern { regex: clone_regex(&self.regex), source: self.source.clone() }
    }
}

} // verus!
