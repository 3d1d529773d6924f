//! Search keys compiled as regular expressions.
use vstd::prelude::*;
use crate::error::MemoError;

verus! {

/// Whether `pattern` compiles as a regular expression, case-insensitive or not.
pub uninterp spec fn regex_compiles(pattern: Seq<char>, ignore_case: bool) -> bool;

/// Whether the compiled `pattern` matches somewhere in `hay`.
pub uninterp spec fn regex_is_match(pattern: Seq<char>, ignore_case: bool, hay: Seq<char>) -> bool;

/// `hay` with every match of the compiled `pattern` replaced by `rep`.
pub uninterp spec fn regex_replace_all(
    pattern: Seq<char>,
    ignore_case: bool,
    hay: Seq<char>,
    rep: Seq<char>,
) -> Seq<char>;

/// regex's compiled `Regex`, carried opaquely inside a `Pattern`.
#[verifier::external_type_specification]
#[verifier::external_body]
pub struct ExRegex(regex::Regex);

/// regex's compile error, which `Pattern::new` maps to `InvalidValue`.
#[verifier::external_type_specification]
#[verifier::external_body]
pub struct ExRegexError(regex::Error);

/// A compiled regular expression together with the source and the case
/// setting it was built from. Only `Pattern::new` builds one.
pub(crate) struct Pattern {
    re: regex::Regex,
    source: String,
    ignore_case: bool,
}

impl Pattern {
    pub closed spec fn source(&self) -> Seq<char> {
        self.source@
    }

    pub closed spec fn ignore_case(&self) -> bool {
        self.ignore_case
    }

    /// Compiles `source`; fails with `InvalidValue` where it is no valid
    /// regular expression.
    pub fn new(source: &str, ignore_case: bool) -> (r: Result<Pattern, MemoError>)
        ensures
            r is Ok <==> regex_compiles(source@, ignore_case),
            r matches Ok(p) ==> p.source() == source@ && p.ignore_case() == ignore_case,
            r matches Err(e) ==> e == MemoError::InvalidValue,
    {
        match build_regex(source, ignore_case) {
            Ok(re) => Ok(Pattern { re, source: String::from_str(source), ignore_case }),
            Err(_) => Err(MemoError::InvalidValue),
        }
    }

    /// Relies on regex's `Regex::is_match`: `self.re` was built by `new` from
    /// `self.source` and `self.ignore_case`, and nothing changes it after.
    #[verifier::external_body]
    pub(crate) fn is_match(&self, hay: &str) -> (r: bool)
        ensures
            r == regex_is_match(self.source(), self.ignore_case(), hay@),
    {
        self.re.is_match(hay)
    }

    /// Relies on regex's `Regex::replace_all`, with `rep` taken literally:
    /// `self.re` was built by `new` from `self.source` and `self.ignore_case`.
    #[verifier::external_body]
    pub(crate) fn replace_all(&self, hay: &str, rep: &str) -> (r: String)
        ensures
            r@ == regex_replace_all(self.source(), self.ignore_case(), hay@, rep@),
    {
        self.re.replace_all(hay, regex::NoExpand(rep)).into_owned()
    }
}

/// Relies on regex's `RegexBuilder::build`: whether it succeeds depends on
/// the source and the case setting alone.
#[verifier::external_body]
fn build_regex(source: &str, ignore_case: bool) -> (r: Result<regex::Regex, regex::Error>)
    ensures
        r is Ok <==> regex_compiles(source@, ignore_case),
{
    regex::RegexBuilder::new(source).case_insensitive(ignore_case).build()
}

} // verus!
