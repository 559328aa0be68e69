use vstd::prelude::*;

verus! {

/// Whether `pattern` compiles as a regular expression.
pub uninterp spec fn pattern_ok(pattern: Seq<char>) -> bool;

/// Whether the regular expression `pattern` matches anywhere in `text`.
pub uninterp spec fn regex_match(pattern: Seq<char>, text: Seq<char>) -> bool;

/// The exclusion filter a caller asked for: no filter when the pattern text
/// is empty, otherwise the pattern itself.
pub open spec fn pat_of(pattern: Seq<char>) -> Option<Seq<char>> {
    if pattern.len() == 0 {
        Option::None
    } else {
        Option::Some(pattern)
    }
}

/// Whether `text` is excluded under an optional pattern: an absent pattern
/// excludes nothing.
pub open spec fn excluded(pat: Option<Seq<char>>, text: Seq<char>) -> bool {
    match pat {
        Option::None => false,
        Option::Some(p) => regex_match(p, text),
    }
}

#[verifier::external_type_specification]
#[verifier::external_body]
pub struct ExRegex(regex::Regex);

/// A compiled exclusion pattern, paired with the pattern text it was built
/// from so that contracts can speak of the pattern.
pub(crate) struct Matcher {
    pattern: String,
    re: regex::Regex,
}

impl Matcher {
    /// The pattern text this matcher was compiled from.
    pub(crate) closed spec fn pat(&self) -> Seq<char> {
        self.pattern@
    }

    /// Relies on regex::Regex::new: compiling a pattern is a function of the
    /// pattern text alone and succeeds exactly when the text is a valid
    /// regular expression.
    #[verifier::external_body]
    pub(crate) fn new(pattern: &str) -> (r: Option<Matcher>)
        ensures
            r is Some <==> pattern_ok(pattern@),
            r is Some ==> r->0.pat() == pattern@,
    {
        match regex::Regex::new(pattern) {
            Ok(re) => Some(Matcher { pattern: pattern.to_owned(), re }),
            Err(_) => None,
        }
    }

    /// Relies on regex::Regex::is_match: whether a match exists anywhere in
    /// `text`, a function of the pattern and the text alone.
    #[verifier::external_body]
    pub(crate) fn is_match(&self, text: &str) -> (r: bool)
        ensures
            r == regex_match(self.pat(), text@),
    {
        self.re.is_match(text)
    }
}

/// Whether `text` is excluded by an optional compiled matcher; mirrors
/// [`excluded`] on the matchers' patterns.
pub(crate) fn is_excluded(m: &Option<Matcher>, text: &str) -> (r: bool)
    ensures
        r == excluded(opt_pat(m), text@),
{
    match m {
        Option::Some(matcher) => matcher.is_match(text),
        Option::None => false,
    }
}

/// The pattern carried by an optional compiled matcher.
pub(crate) open spec fn opt_pat(m: &Option<Matcher>) -> Option<Seq<char>> {
    match m {
        Option::Some(matcher) => Option::Some(matcher.pat()),
        Option::None => Option::None,
    }
}

/// Compile the exclusion pattern a caller supplied: an empty text asks for no
/// filtering, any other text must compile.
pub(crate) fn compile_pattern(pattern: &str) -> (r: Result<Option<Matcher>, crate::errors::TreeError>)
    ensures
        r is Ok <==> (pattern@.len() == 0 || pattern_ok(pattern@)),
        r is Ok ==> opt_pat(&r->Ok_0) == pat_of(pattern@),
        r is Err ==> r->Err_0 == crate::errors::TreeError::InvalidExcludePattern,
    {
    if pattern.is_empty() {
        Ok(Option::None)
    } else {
        match Matcher::new(pattern) {
            Option::Some(m) => Ok(Option::Some(m)),
            Option::None => Err(crate::errors::TreeError::InvalidExcludePattern),
        }
    }
}

} // verus!
