use vstd::prelude::*;

verus! {

/// Whether `text` matches the regular expression `pattern`.
pub uninterp spec fn regex_matches(pattern: Seq<char>, text: Seq<char>) -> bool;

/// Relies on regex's `Regex::new` and `Regex::is_match`: none when the pattern does not
/// compile, else whether `text` matches it.
#[verifier::external_body]
fn regex_is_match(pattern: &str, text: &str) -> (r: Option<bool>)
    ensures
        r matches Some(b) ==> b == regex_matches(pattern@, text@),
{
    regex::Regex::new(pattern).ok().map(|re| re.is_match(text))
}

/// Request paths that name a paste: a slash, six letters or digits, then the end, a dot
/// or a query.
pub open spec fn paste_path_pattern() -> Seq<char> {
    "^/[a-zA-Z0-9]{6}(\\.|\\?|$)"@
}

/// Whether `path` names a paste; false also when the pattern cannot be used.
pub fn is_paste_path(path: &str) -> (r: bool)
    ensures
        r ==> regex_matches(paste_path_pattern(), path@),
{
    match regex_is_match("^/[a-zA-Z0-9]{6}(\\.|\\?|$)", path) {
        Some(b) => b,
        None => false,
    }
}

/// The paste id at the start of a path segment: its first six characters.
pub fn paste_id_of(segment: &str) -> (r: String)
    ensures
        r@ == segment@.take(if segment@.len() < 6 { segment@.len() as int } else { 6 }),
{
    let n = segment.unicode_len();
    let end: usize = if n < 6 { n } else { 6 };
    segment.substring_char(0, end).to_owned()
}

} // verus!
