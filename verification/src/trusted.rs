//! The library's contracts for the text transformations it takes from
//! outside crates. Each wrapper makes exactly one outside call; what the
//! call returns is either stated exactly (HTML escaping) or given a name
//! (title casing, slugs, lower casing), since those transformations are
//! deterministic functions of their input but far too large to state.

use vstd::prelude::*;
use crate::post::PostDate;
use chrono::Datelike;

verus! {

/// The title-cased form of a character sequence, as the `titlecase` crate
/// defines it.
pub uninterp spec fn titlecased_of(s: Seq<char>) -> Seq<char>;

/// Relies on `titlecase::titlecase`: English title casing driven by fixed
/// tables, a deterministic function of the input characters.
#[verifier::external_body]
pub(crate) fn titlecase_text(s: &str) -> (r: String)
    ensures
        r@ == titlecased_of(s@),
{
    titlecase::titlecase(s)
}

/// The slug of a character sequence for a given separator, as the `slugify`
/// crate derives it with no stop words and no maximum length.
pub uninterp spec fn slug_of(s: Seq<char>, sep: Seq<char>) -> Seq<char>;

/// Relies on `slugify::slugify` with empty stop words and no maximum
/// length: transliterates, lower-cases and joins with the separator, a
/// deterministic function of its arguments. An empty separator makes the
/// call panic (it indexes the separator's first character), and a
/// non-ASCII first character makes it panic too (that character is
/// truncated to one byte and the buffer re-read as UTF-8), so both are
/// excluded.
#[verifier::external_body]
pub(crate) fn slugify_text(s: &str, sep: &str) -> (r: String)
    requires
        sep@.len() > 0,
        (sep@[0] as u32) < 128,
    ensures
        r@ == slug_of(s@, sep@),
{
    slugify::slugify(s, "", sep, None)
}

/// The Unicode lower-cased form of a character sequence.
pub uninterp spec fn lowercased_of(s: Seq<char>) -> Seq<char>;

/// Relies on `str::to_lowercase`: Unicode lower casing, a deterministic
/// function of the input characters.
#[verifier::external_body]
pub(crate) fn lowercase_text(s: &str) -> (r: String)
    ensures
        r@ == lowercased_of(s@),
{
    s.to_lowercase()
}

/// What one character becomes in HTML text: `&`, `<` and `>` turn into
/// entities, everything else stays itself.
pub open spec fn escape_entity(c: char) -> Seq<char> {
    if c == '&' {
        seq!['&', 'a', 'm', 'p', ';']
    } else if c == '<' {
        seq!['&', 'l', 't', ';']
    } else if c == '>' {
        seq!['&', 'g', 't', ';']
    } else {
        seq![c]
    }
}

/// A character sequence with every `&`, `<` and `>` escaped.
pub open spec fn escaped_text(s: Seq<char>) -> Seq<char>
    decreases s.len(),
{
    if s.len() == 0 {
        Seq::empty()
    } else {
        escape_entity(s[0]) + escaped_text(s.drop_first())
    }
}

/// Relies on `html_escape::encode_text`: escapes exactly `&`, `<` and `>`
/// as `&amp;`, `&lt;` and `&gt;`.
#[verifier::external_body]
pub(crate) fn escape_html(s: &str) -> (r: String)
    ensures
        r@ == escaped_text(s@),
{
    html_escape::encode_text(s).to_string()
}

/// Relies on `dateparser::parse_with_timezone` with the local timezone and
/// on chrono's calendar accessors. The local timezone makes the result
/// machine-dependent, so nothing ties it to the input text; of a parsed
/// date only the documented calendar ranges are stated. A text ending in
/// a numeric offset designator of 24 hours or more is excluded: the
/// parser reads it as a UTC offset and aborts constructing an offset
/// outside its type's range; every other offset it accepts (hours up to
/// 23, minutes up to 59) stays inside that range.
#[verifier::external_body]
pub(crate) fn parse_date_local(s: &str) -> (r: Option<PostDate>)
    requires
        !crate::post::has_oversized_offset(s@),
    ensures
        match r {
            Some(d) => 1 <= d.month <= 12 && 1 <= d.day <= 31,
            None => true,
        },
{
    match dateparser::parse_with_timezone(s, &chrono::offset::Local) {
        Ok(utc) => {
            let local: chrono::DateTime<chrono::Local> = utc.into();
            Some(
                PostDate {
                    stamp: local.timestamp(),
                    year: local.year(),
                    month: local.month(),
                    day: local.day(),
                },
            )
        },
        Err(_) => None,
    }
}

} // verus!
