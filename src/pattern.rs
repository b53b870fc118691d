use vstd::prelude::*;

verus! {

#[verifier::external_type_specification]
#[verifier::external_body]
pub struct ExRegex(regex::Regex);

/// Whether the regular expression written `pattern` matches somewhere in `haystack`.
pub uninterp spec fn regex_matches(pattern: Seq<char>, haystack: Seq<char>) -> bool;

/// A compiled regular expression, kept together with the text it was compiled from.
pub struct Pattern {
    source: String,
    re: regex::Regex,
}

impl Pattern {
    /// The text of the regular expression.
    pub closed spec fn source_view(&self) -> Seq<char> {
        self.source@
    }

    /// Compiles `source`; `None` when it is not a valid regular expression.
    ///
    /// Relies on regex::Regex::new, which compiles the pattern text it is given.
    #[verifier::external_body]
    pub fn new(source: &str) -> (r: Option<Pattern>)
        ensures
            r matches Some(p) ==> p.source_view() == source@,
    {
        regex::Regex::new(source).ok().map(|re| Pattern { source: source.to_string(), re })
    }

    /// The text of the regular expression.
    pub fn as_str(&self) -> (r: &str)
        ensures
            r@ == self.source_view(),
    {
        self.source.as_str()
    }

    /// Whether the expression matches somewhere in `haystack` (Unicode-aware).
    ///
    /// Relies on regex::Regex::is_match, whose answer depends on the compiled
    /// pattern text and the haystack alone.
    #[verifier::external_body]
    pub fn is_match(&self, haystack: &str) -> (r: bool)
        ensures
            r == regex_matches(self.source_view(), haystack@),
    {
        self.re.is_match(haystack)
    }
}

} // verus!
