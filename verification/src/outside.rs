//! What the library has from other crates and, where Verus knows nothing of it,
//! from std: the claims in this file are believed, not proved.
use crate::numbers::is_digit;
use crate::text::{byte_count, is_whitespace, opt_text, utf8_width};
use vstd::prelude::*;
use vstd::string::*;
use vstd::utf8::*;

verus! {

// ---------------------------------------------------------------------------
// regex
// ---------------------------------------------------------------------------

/// The error of the `regex` crate for a pattern that does not compile.
#[verifier::external_type_specification]
#[verifier::external_body]
pub struct ExRegexError(regex::Error);

/// What `regex::Regex::new` finds wrong with a pattern; `None` where it compiles.
pub uninterp spec fn regex_error(pattern: Seq<char>) -> Option<regex::Error>;

/// Whether `regex::Regex::is_match` finds a match of a pattern in a text, the
/// pattern compiled by `regex::Regex::new`. A pattern that does not compile
/// matches nothing.
pub uninterp spec fn regex_matches(pattern: Seq<char>, text: Seq<char>) -> bool;

/// Compiles a pattern with `regex::Regex::new`, whose outcome depends on the
/// pattern alone.
#[verifier::external_body]
pub(crate) fn check_regex(pattern: &str) -> (r: Result<(), regex::Error>)
    ensures
        match r {
            Ok(()) => regex_error(pattern@) is None,
            Err(error) => regex_error(pattern@) == Some(error),
        },
{
    match regex::Regex::new(pattern) {
        Ok(_) => Ok(()),
        Err(error) => Err(error),
    }
}

/// Searches a text with `regex::Regex::is_match`, whose outcome depends on the
/// pattern that was compiled and on the text alone.
#[verifier::external_body]
pub(crate) fn search_regex(pattern: &str, text: &str) -> (r: bool)
    ensures
        r == regex_matches(pattern@, text@),
{
    match regex::Regex::new(pattern) {
        Ok(regex) => regex.is_match(text),
        Err(_) => false,
    }
}

// ---------------------------------------------------------------------------
// url
// ---------------------------------------------------------------------------

/// The error of the `url` crate for a text that is no URL.
#[verifier::external_type_specification]
#[verifier::external_body]
pub struct ExUrlParseError(url::ParseError);

/// A URL taken apart: its normal form, and the parts of that.
pub struct UrlParts {
    pub href: String,
    pub scheme: String,
    pub host: Option<String>,
    pub path: String,
    pub query: Option<String>,
    pub fragment: Option<String>,
}

/// A URL by the texts of its parts.
pub struct UrlModel {
    pub href: Seq<char>,
    pub scheme: Seq<char>,
    pub host: Option<Seq<char>>,
    pub path: Seq<char>,
    pub query: Option<Seq<char>>,
    pub fragment: Option<Seq<char>>,
}

impl View for UrlParts {
    type V = UrlModel;

    open spec fn view(&self) -> UrlModel {
        UrlModel {
            href: self.href@,
            scheme: self.scheme@,
            host: opt_text(self.host),
            path: self.path@,
            query: opt_text(self.query),
            fragment: opt_text(self.fragment),
        }
    }
}

/// What `url::Url::parse` makes of a text.
pub uninterp spec fn url_of(text: Seq<char>) -> Result<UrlModel, url::ParseError>;

/// A URL after `url::Url::set_path`; `None` where the text is no URL.
pub uninterp spec fn url_with_path(url: Seq<char>, path: Seq<char>) -> Option<Seq<char>>;

/// A URL after `url::Url::set_query(None)`; `None` where the text is no URL.
pub uninterp spec fn url_without_query(url: Seq<char>) -> Option<Seq<char>>;

/// A URL after `url::Url::set_fragment(None)`; `None` where the text is no URL.
pub uninterp spec fn url_without_fragment(url: Seq<char>) -> Option<Seq<char>>;

/// A URL after `append_pair` on `url::Url::query_pairs_mut`; `None` where the
/// text is no URL.
pub uninterp spec fn url_with_pair(url: Seq<char>, key: Seq<char>, value: Seq<char>) -> Option<
    Seq<char>,
>;

/// Reads a URL with `url::Url::parse` and takes it apart with `as_str`, `scheme`,
/// `host_str`, `path`, `query` and `fragment`. The outcome depends on the text
/// alone.
#[verifier::external_body]
pub(crate) fn read_url(text: &str) -> (r: Result<UrlParts, url::ParseError>)
    ensures
        match r {
            Ok(parts) => url_of(text@) == Ok::<UrlModel, url::ParseError>(parts@),
            Err(error) => url_of(text@) == Err::<UrlModel, url::ParseError>(error),
        },
{
    match url::Url::parse(text) {
        Ok(url) => Ok(
            UrlParts {
                href: url.as_str().to_owned(),
                scheme: url.scheme().to_owned(),
                host: url.host_str().map(str::to_owned),
                path: url.path().to_owned(),
                query: url.query().map(str::to_owned),
                fragment: url.fragment().map(str::to_owned),
            },
        ),
        Err(error) => Err(error),
    }
}

/// How many bytes a path takes at most once it is written: a visible ASCII character
/// takes one, except for those that are escaped, and an escaped byte takes three.
pub open spec fn path_bytes(path: Seq<char>) -> nat
    decreases path.len(),
{
    if path.len() == 0 {
        0
    } else {
        path_bytes(path.drop_last()) + if is_plain(path.last()) {
            1
        } else {
            3 * utf8_width(path.last())
        }
    }
}

/// The characters that stand in a path as they are.
pub open spec fn is_plain(c: char) -> bool {
    &&& '!' <= c <= '~'
    &&& c != '"' && c != '#' && c != '<' && c != '>' && c != '?' && c != '`' && c != '{' && c != '}'
}

/// Where the last of a URL's query and fragment starts, in bytes, or its end where it
/// has neither.
pub open spec fn last_position(url: UrlModel) -> int {
    byte_count(url.href) - match (url.fragment, url.query) {
        (Some(fragment), _) => byte_count(fragment) + 1,
        (None, Some(query)) => byte_count(query) + 1,
        (None, None) => 0,
    }
}

/// The positions in a URL stay within 32 bits if it gets another path.
pub open spec fn path_fits(url: UrlModel, path: Seq<char>) -> bool {
    &&& last_position(url) <= u32::MAX
    &&& last_position(url) - byte_count(url.path) + path_bytes(path) + 2 <= u32::MAX
}

/// The positions in a URL stay within 32 bits if its query gets another pair.
pub open spec fn pair_fits(url: UrlModel, key: Seq<char>, value: Seq<char>) -> bool {
    last_position(url) + match url.fragment {
        Some(_) => 3 * (byte_count(key) + byte_count(value)) + 3,
        None => 0,
    } <= u32::MAX
}

/// Gives a URL another path with `url::Url::set_path`. The outcome depends on the
/// two texts alone, and there is one wherever the first is a URL. The positions that
/// a URL keeps take 32 bits, and `set_path` panics where one does not fit. The bound
/// leaves room for a slash that is escaped, and for what is written before segments
/// of dots are taken away.
#[verifier::external_body]
pub(crate) fn set_url_path(url: &str, path: &str) -> (r: Option<String>)
    requires
        url_of(url@) matches Ok(parts) ==> path_fits(parts, path@),
    ensures
        opt_text(r) == url_with_path(url@, path@),
        r is Some <==> url_of(url@) is Ok,
{
    match url::Url::parse(url) {
        Ok(mut parsed) => {
            parsed.set_path(path);
            Some(String::from(parsed))
        },
        Err(_) => None,
    }
}

/// Takes the query off a URL with `url::Url::set_query`. The outcome depends on
/// the text alone, and there is one wherever it is a URL.
#[verifier::external_body]
pub(crate) fn clear_url_query(url: &str) -> (r: Option<String>)
    ensures
        opt_text(r) == url_without_query(url@),
        r is Some <==> url_of(url@) is Ok,
{
    match url::Url::parse(url) {
        Ok(mut parsed) => {
            parsed.set_query(None);
            Some(String::from(parsed))
        },
        Err(_) => None,
    }
}

/// Takes the fragment off a URL with `url::Url::set_fragment`. The outcome
/// depends on the text alone, and there is one wherever it is a URL.
#[verifier::external_body]
pub(crate) fn clear_url_fragment(url: &str) -> (r: Option<String>)
    ensures
        opt_text(r) == url_without_fragment(url@),
        r is Some <==> url_of(url@) is Ok,
{
    match url::Url::parse(url) {
        Ok(mut parsed) => {
            parsed.set_fragment(None);
            Some(String::from(parsed))
        },
        Err(_) => None,
    }
}

/// Adds a pair to the query of a URL with `append_pair` on
/// `url::Url::query_pairs_mut`. The outcome depends on the three texts alone, and
/// there is one wherever the first is a URL. It panics where the query would start,
/// or the fragment come to start, beyond the 32 bits that positions take.
#[verifier::external_body]
pub(crate) fn add_url_pair(url: &str, key: &str, value: &str) -> (r: Option<String>)
    requires
        url_of(url@) matches Ok(parts) ==> pair_fits(parts, key@, value@),
    ensures
        opt_text(r) == url_with_pair(url@, key@, value@),
        r is Some <==> url_of(url@) is Ok,
{
    match url::Url::parse(url) {
        Ok(mut parsed) => {
            parsed.query_pairs_mut().append_pair(key, value);
            Some(String::from(parsed))
        },
        Err(_) => None,
    }
}

// ---------------------------------------------------------------------------
// humantime
// ---------------------------------------------------------------------------

/// The error of the `humantime` crate for a text that is no duration.
#[verifier::external_type_specification]
#[verifier::external_body]
pub struct ExDurationError(humantime::DurationError);

/// What `humantime::parse_duration` makes of a text, in seconds and nanoseconds.
pub uninterp spec fn duration_of(text: Seq<char>) -> Result<(u64, u32), humantime::DurationError>;

/// The letters that units are written with.
pub open spec fn is_unit_letter(c: char) -> bool {
    'a' <= c <= 'z' || 'A' <= c <= 'Z' || c == '\u{b5}'
}

/// At the end of the text stands a unit, with nothing but white space after it.
pub open spec fn ends_in_unit(text: Seq<char>) -> bool
    decreases text.len(),
{
    if text.len() == 0 {
        false
    } else if is_whitespace(text.last()) {
        ends_in_unit(text.drop_last())
    } else {
        is_unit_letter(text.last())
    }
}

/// The parts of a duration, each a number and its unit: a digit behind a unit starts
/// the next part.
pub open spec fn duration_parts(text: Seq<char>) -> Seq<Seq<char>>
    decreases text.len(),
{
    if text.len() == 0 {
        Seq::empty()
    } else {
        let before = duration_parts(text.drop_last());
        let c = text.last();
        if before.len() == 0 || (is_digit(c) && ends_in_unit(before.last())) {
            before.push(seq![c])
        } else {
            before.drop_last().push(before.last().push(c))
        }
    }
}

/// The nanoseconds in all the seconds that 64 bits hold, and one more.
pub const DURATION_LIMIT: u128 = 18_446_744_073_709_551_616_000_000_000;

/// What some durations come to, in nanoseconds, where each of the texts is one and
/// their sum stays below the limit.
pub open spec fn sum_of_durations(parts: Seq<Seq<char>>) -> Option<nat>
    decreases parts.len(),
{
    if parts.len() == 0 {
        Some(0)
    } else {
        match (sum_of_durations(parts.drop_last()), duration_of(parts.last())) {
            (Some(sum), Ok((secs, nanos))) => {
                let more = sum + secs as nat * 1_000_000_000 + nanos as nat;
                if more < DURATION_LIMIT {
                    Some(more)
                } else {
                    None
                }
            },
            _ => None,
        }
    }
}

/// A text whose parts can be added up: it has but one, or all of them are durations
/// that fit together.
pub open spec fn can_be_summed(text: Seq<char>) -> bool {
    ||| duration_parts(text).len() <= 1
    ||| sum_of_durations(duration_parts(text)) is Some
}

/// Reads a duration with `humantime::parse_duration`. The outcome depends on the
/// text alone. `humantime` reads the parts one after the other and adds them up; it
/// panics where the sum reaches the limit by a full second of nanoseconds, which a
/// single part never does.
#[verifier::external_body]
pub(crate) fn read_duration(text: &str) -> (r: Result<(u64, u32), humantime::DurationError>)
    requires
        can_be_summed(text@),
    ensures
        r == duration_of(text@),
{
    match humantime::parse_duration(text) {
        Ok(duration) => Ok((duration.as_secs(), duration.subsec_nanos())),
        Err(error) => Err(error),
    }
}

// ---------------------------------------------------------------------------
// std
// ---------------------------------------------------------------------------

/// `String::push` of std appends one character to the end of the string.
pub assume_specification[ String::push ](s: &mut String, c: char)
    ensures
        final(s)@ == old(s)@.push(c),
;

/// The text that `String::from_utf8_lossy` of std makes of bytes.
pub uninterp spec fn lossy_text(bytes: Seq<u8>) -> Seq<char>;

/// Reads bytes as text with `String::from_utf8_lossy`: bytes that are UTF-8 are
/// read as such, and what is not is replaced by U+FFFD.
#[verifier::external_body]
pub(crate) fn read_lossy(bytes: &[u8]) -> (r: String)
    ensures
        r@ == lossy_text(bytes@),
        valid_utf8(bytes@) ==> r@ == decode_utf8(bytes@),
{
    String::from_utf8_lossy(bytes).into_owned()
}

} // verus!
