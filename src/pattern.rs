use vstd::prelude::*;
use vstd::string::StrSliceExecFns;

verus! {

#[verifier::external_type_specification]
#[verifier::external_body]
pub struct ExRegex(regex::Regex);

#[verifier::external_type_specification]
#[verifier::external_body]
pub struct ExRegexError(regex::Error);

/// Whether `regex::Regex::new` accepts the pattern `p`.
pub uninterp spec fn regex_valid(p: Seq<char>) -> bool;

/// Whether the regular expression `p` matches somewhere in `text`.
pub uninterp spec fn regex_matches(p: Seq<char>, text: Seq<char>) -> bool;

/// Relies on `regex::Regex::new`: it compiles `p` with the default limits, and
/// whether it fails depends on the pattern alone.
#[verifier::external_body]
fn compile(p: &str) -> (r: Result<regex::Regex, regex::Error>)
    ensures
        r is Ok <==> regex_valid(p@),
{
    regex::Regex::new(p)
}

/// A compiled regular expression, with the pattern it was compiled from.
pub struct Pattern {
    re: regex::Regex,
    source: String,
}

/// Relies on `regex::Regex::is_match`: whether the expression matches
/// somewhere in `text`. `p.re` is always compiled from `p.source`.
#[verifier::external_body]
fn is_match(p: &Pattern, text: &str) -> (r: bool)
    ensures
        r == regex_matches(p.source@, text@),
{
    p.re.is_match(text)
}

impl Pattern {
    /// The pattern text.
    pub closed spec fn view(&self) -> Seq<char> {
        self.source@
    }

    /// Compiles `p`; fails exactly on patterns that the regex engine refuses.
    pub fn new(p: &str) -> (r: Result<Pattern, regex::Error>)
        ensures
            r is Ok <==> regex_valid(p@),
            r matches Ok(x) ==> x.view() == p@,
    {
        match compile(p) {
            Ok(re) => Ok(Pattern { re, source: p.to_owned() }),
            Err(e) => Err(e),
        }
    }

    /// Whether the expression matches somewhere in `text`.
    pub fn matches(&self, text: &str) -> (r: bool)
        ensures
            r == regex_matches(self.view(), text@),
    {
        is_match(self, text)
    }
}

} // verus!

verus! {

/// Whether `p` asks for the events that do not match: it starts with `!`.
pub open spec fn is_negated(p: Seq<char>) -> bool {
    p.len() > 0 && p[0] == '!'
}

/// The expression of `p`, without a leading `!`.
pub open spec fn inner_pattern(p: Seq<char>) -> Seq<char> {
    if is_negated(p) {
        p.drop_first()
    } else {
        p
    }
}

/// Splits a leading `!` off `p`.
pub fn split_negation(p: &str) -> (r: (bool, &str))
    ensures
        r.0 == is_negated(p@),
        r.1@ == inner_pattern(p@),
{
    let n = p.unicode_len();
    if n > 0 && p.get_char(0) == '!' {
        let rest = p.substring_char(1, n);
        assert(rest@ =~= p@.drop_first());
        (true, rest)
    } else {
        (false, p)
    }
}

} // verus!
