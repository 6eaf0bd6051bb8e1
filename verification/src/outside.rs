//! The calls into the `regex`, `glob` and `serde_json` crates, with what
//! the library believes of them.
use vstd::prelude::*;

use crate::models::strings_view;

verus! {

#[verifier::external_type_specification]
#[verifier::external_body]
pub struct ExRegex(regex::Regex);

#[verifier::external_type_specification]
#[verifier::external_body]
pub struct ExRegexError(regex::Error);

#[verifier::external_type_specification]
#[verifier::external_body]
pub struct ExGlobPattern(glob::Pattern);

#[verifier::external_type_specification]
#[verifier::external_body]
pub struct ExGlobPatternError(glob::PatternError);

/// Whether `regex::Regex::new` accepts `pattern`.
pub uninterp spec fn regex_accepts(pattern: Seq<char>) -> bool;

/// What `regex::Regex::is_match` answers for the regex compiled from
/// `pattern` on `haystack`: whether it matches anywhere in it.
pub uninterp spec fn regex_finds(pattern: Seq<char>, haystack: Seq<char>) -> bool;

/// What `regex::Regex::replace_all` gives for the regex compiled from
/// `pattern`, on `haystack`, with the replacement template `replacement`
/// (`$1`, `${name}` expand to capture groups).
pub uninterp spec fn regex_replaced(
    pattern: Seq<char>,
    haystack: Seq<char>,
    replacement: Seq<char>,
) -> Seq<char>;

/// The text (`Display`) of the error that `regex::Regex::new` gives for a
/// pattern it rejects.
pub uninterp spec fn regex_rejection(pattern: Seq<char>) -> Seq<char>;

/// Whether `glob::Pattern::new` accepts `pattern`.
pub uninterp spec fn glob_accepts(pattern: Seq<char>) -> bool;

/// What `glob::Pattern::matches` answers for the pattern compiled from
/// `pattern` on `text`, with the default match options.
pub uninterp spec fn glob_matches(pattern: Seq<char>, text: Seq<char>) -> bool;

/// A regular expression together with the pattern it was compiled from.
/// Only `compile_regex` makes one.
pub(crate) struct CompiledRegex {
    source: String,
    re: regex::Regex,
}

impl View for CompiledRegex {
    type V = Seq<char>;

    /// The pattern this regex was compiled from.
    closed spec fn view(&self) -> Seq<char> {
        self.source@
    }
}

/// The error of `regex::Regex::new` together with the pattern it rejected.
/// Only `compile_regex` makes one.
pub(crate) struct RegexRejection {
    pattern: String,
    err: regex::Error,
}

impl View for RegexRejection {
    type V = Seq<char>;

    /// The pattern that was rejected.
    closed spec fn view(&self) -> Seq<char> {
        self.pattern@
    }
}

/// A glob pattern together with the text it was compiled from.
/// Only `compile_glob` makes one.
pub(crate) struct CompiledGlob {
    source: String,
    pat: glob::Pattern,
}

impl View for CompiledGlob {
    type V = Seq<char>;

    /// The text this pattern was compiled from.
    closed spec fn view(&self) -> Seq<char> {
        self.source@
    }
}

/// Calls `regex::Regex::new`. Believed: it succeeds exactly when the
/// pattern is accepted, and the regex or the error keeps the pattern it
/// came from.
#[verifier::external_body]
pub(crate) fn compile_regex(pattern: &str) -> (res: Result<CompiledRegex, RegexRejection>)
    ensures
        res is Ok <==> regex_accepts(pattern@),
        res matches Ok(r) ==> r@ == pattern@,
        res matches Err(e) ==> e@ == pattern@,
{
    match regex::Regex::new(pattern) {
        Ok(re) => Ok(CompiledRegex { source: pattern.to_string(), re }),
        Err(err) => Err(RegexRejection { pattern: pattern.to_string(), err }),
    }
}

/// Calls `regex::Regex::is_match`. Believed: the answer is the named result
/// for the regex (by the pattern it was compiled from) and the haystack.
#[verifier::external_body]
pub(crate) fn regex_is_match(re: &CompiledRegex, haystack: &str) -> (b: bool)
    ensures
        b == regex_finds(re@, haystack@),
{
    re.re.is_match(haystack)
}

/// Calls `regex::Regex::replace_all`. Believed: the result is the named
/// result for the pattern, haystack and replacement, and, as its source
/// shows, the haystack comes back unchanged when the regex matches nowhere.
#[verifier::external_body]
pub(crate) fn regex_replace_all(re: &CompiledRegex, haystack: &str, replacement: &str) -> (s: String)
    ensures
        s@ == regex_replaced(re@, haystack@, replacement@),
        !regex_finds(re@, haystack@) ==> s@ == haystack@,
{
    re.re.replace_all(haystack, replacement).into_owned()
}

/// Calls `regex::Error`'s `Display`. Believed: the text is the named one
/// for the rejected pattern.
#[verifier::external_body]
pub(crate) fn regex_error_text(e: &RegexRejection) -> (s: String)
    ensures
        s@ == regex_rejection(e@),
{
    e.err.to_string()
}

/// Calls `glob::Pattern::new`. Believed: it succeeds exactly when the
/// pattern is accepted, and the result keeps the text it came from.
#[verifier::external_body]
pub(crate) fn compile_glob(pattern: &str) -> (res: Result<CompiledGlob, glob::PatternError>)
    ensures
        res is Ok <==> glob_accepts(pattern@),
        res matches Ok(g) ==> g@ == pattern@,
{
    match glob::Pattern::new(pattern) {
        Ok(pat) => Ok(CompiledGlob { source: pattern.to_string(), pat }),
        Err(e) => Err(e),
    }
}

/// Calls `glob::Pattern::matches`. Believed: the answer is the named result
/// for the pattern's text and `text`.
#[verifier::external_body]
pub(crate) fn glob_match(g: &CompiledGlob, text: &str) -> (b: bool)
    ensures
        b == glob_matches(g@, text@),
{
    g.pat.matches(text)
}

/// Whether `serde_json::from_str` accepts `text` as a JSON `Value`.
pub uninterp spec fn json_accepts(text: Seq<char>) -> bool;

/// The text (`Display`) of the error that `serde_json::from_str` gives for
/// a text it does not accept.
pub uninterp spec fn json_rejection(text: Seq<char>) -> Seq<char>;

/// The keys of the member `member` of the JSON document `text`, in the
/// order in which `serde_json` lists an object's keys, when that member is
/// an object; `None` when there is no such member or it is no object.
pub uninterp spec fn json_member_keys(text: Seq<char>, member: Seq<char>) -> Option<Seq<Seq<char>>>;

/// Calls `serde_json::from_str` into a `serde_json::Value`, and lists the
/// keys of its member `member` when that is an object (`Value::get`,
/// `Value::as_object`, `Map::keys`). Believed: it succeeds exactly when the
/// text is accepted, with the named keys, and fails with the named message.
#[verifier::external_body]
pub(crate) fn json_member_keys_of(text: &str, member: &str) -> (r: Result<Option<Vec<String>>, String>)
    ensures
        r is Ok <==> json_accepts(text@),
        r matches Ok(Some(v)) ==> json_member_keys(text@, member@) == Some(strings_view(v@)),
        r matches Ok(None) ==> json_member_keys(text@, member@) is None,
        r matches Err(m) ==> m@ == json_rejection(text@),
{
    match serde_json::from_str::<serde_json::Value>(text) {
        Ok(doc) => Ok(doc.get(member).and_then(|v| v.as_object()).map(|o| o.keys().cloned().collect())),
        Err(e) => Err(e.to_string()),
    }
}

} // verus!
