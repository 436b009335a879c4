//! The assembled unit of the site: one post per content folder, plus its
//! date and tag types and the formatting rules the page record uses.

use vstd::prelude::*;
use crate::frontmatter::{FrontmatterInfo, FrontmatterView};
use crate::publish::{analytics_snippet_of, generate_google_analytics_id, BlogConfig};
use crate::render::{meta_view, SelectedMetaImage};
use crate::sorting::sort_by_ins;
use crate::text::{dec_digits_of, int_digits_of, lex_le, push_i32, push_u64};
use crate::trusted::{lowercased_of, slug_of, titlecased_of};

verus! {

/// A calendar date with the instant it was parsed from: `stamp` (seconds
/// since the epoch) orders posts, the calendar fields only format them.
#[derive(Clone, Copy, PartialEq, Eq, Structural)]
pub struct PostDate {
    pub stamp: i64,
    pub year: i32,
    pub month: u32,
    pub day: u32,
}

/// A tag: the slug routes and groups, the label is shown.
pub struct Tag {
    pub slug: String,
    pub tag: String,
}

#[verifier::ext_equal]
pub struct TagView {
    pub slug: Seq<char>,
    pub tag: Seq<char>,
}

impl View for Tag {
    type V = TagView;

    open spec fn view(&self) -> TagView {
        TagView { slug: self.slug@, tag: self.tag@ }
    }
}

/// One rendered, assembled post.
pub struct Post {
    pub date: PostDate,
    pub description: String,
    pub src: String,
    pub md: String,
    pub title: String,
    pub tags: Vec<Tag>,
    pub word_count: usize,
    pub repo: String,
    pub blog_title: String,
    pub blog_url: String,
    pub quipquick_version: String,
    pub google_analytics: String,
    pub read_time: u64,
    pub older_post: Option<(String, String)>,
    pub newer_post: Option<(String, String)>,
    pub discussion_url: Option<String>,
    pub meta_img: Option<String>,
    pub langs: Vec<String>,
}

#[verifier::ext_equal]
pub struct PostView {
    pub date: PostDate,
    pub description: Seq<char>,
    pub src: Seq<char>,
    pub md: Seq<char>,
    pub title: Seq<char>,
    pub tags: Seq<TagView>,
    pub word_count: nat,
    pub repo: Seq<char>,
    pub blog_title: Seq<char>,
    pub blog_url: Seq<char>,
    pub quipquick_version: Seq<char>,
    pub google_analytics: Seq<char>,
    pub read_time: nat,
    pub older_post: Option<(Seq<char>, Seq<char>)>,
    pub newer_post: Option<(Seq<char>, Seq<char>)>,
    pub discussion_url: Option<Seq<char>>,
    pub meta_img: Option<Seq<char>>,
    pub langs: Seq<Seq<char>>,
}

pub open spec fn link_view(l: Option<(String, String)>) -> Option<(Seq<char>, Seq<char>)> {
    match l {
        Some(p) => Some((p.0@, p.1@)),
        None => None,
    }
}

pub open spec fn opt_view(l: Option<String>) -> Option<Seq<char>> {
    match l {
        Some(s) => Some(s@),
        None => None,
    }
}

impl View for Post {
    type V = PostView;

    open spec fn view(&self) -> PostView {
        PostView {
            date: self.date,
            description: self.description@,
            src: self.src@,
            md: self.md@,
            title: self.title@,
            tags: self.tags@.map_values(|t: Tag| t@),
            word_count: self.word_count as nat,
            repo: self.repo@,
            blog_title: self.blog_title@,
            blog_url: self.blog_url@,
            quipquick_version: self.quipquick_version@,
            google_analytics: self.google_analytics@,
            read_time: self.read_time as nat,
            older_post: link_view(self.older_post),
            newer_post: link_view(self.newer_post),
            discussion_url: opt_view(self.discussion_url),
            meta_img: opt_view(self.meta_img),
            langs: self.langs.deep_view(),
        }
    }
}

/// An error surfaced by post construction, naming the offending field.
pub enum BuildError {
    /// The frontmatter date did not parse as a date.
    InvalidDate { date: String },
}

/// A number padded with zeros to at least two digits.
pub open spec fn pad2(n: nat) -> Seq<char> {
    if n < 10 {
        seq!['0'] + dec_digits_of(n)
    } else {
        dec_digits_of(n)
    }
}

/// `YYYY-MM-DD`, the date format handed to templates and logs.
pub open spec fn date_string_of(y: int, m: nat, d: nat) -> Seq<char> {
    int_digits_of(y) + seq!['-'] + pad2(m) + seq!['-'] + pad2(d)
}

impl PostDate {
    /// Formats the calendar date as `YYYY-MM-DD`, months and days padded
    /// to two digits.
    pub fn date_string(&self) -> (r: String)
        ensures
            r@ == date_string_of(self.year as int, self.month as nat, self.day as nat),
    {
        let mut out = String::new();
        push_i32(&mut out, self.year);
        out.append("-");
        if self.month < 10 {
            out.append("0");
        }
        push_u64(&mut out, self.month as u64);
        out.append("-");
        if self.day < 10 {
            out.append("0");
        }
        push_u64(&mut out, self.day as u64);
        proof {
            reveal_strlit("-");
            reveal_strlit("0");
            assert(out@ =~= date_string_of(self.year as int, self.month as nat, self.day as nat));
        }
        out
    }
}

/// The label shown for a read time: `1 Min` up to one minute, `N Mins`
/// beyond.
pub open spec fn read_time_label_of(m: nat) -> Seq<char> {
    if m > 1 {
        dec_digits_of(m) + " Mins"@
    } else {
        dec_digits_of(m) + " Min"@
    }
}

/// Formats the read-time label as the page record shows it.
pub fn read_time_label(minutes: u64) -> (r: String)
    ensures
        r@ == read_time_label_of(minutes as nat),
{
    let mut out = String::new();
    push_u64(&mut out, minutes);
    if minutes > 1 {
        out.append(" Mins");
    } else {
        out.append(" Min");
    }
    out
}


/// What a post's fields must be, given what the renderer produced and the
/// blog configuration: the title is title-cased; each raw tag becomes a
/// slug (separator `-`) and a lower-cased label; the languages are sorted;
/// the read time is the word count divided by 238 words per minute,
/// rounded down; the neighbour links start empty.
pub open spec fn post_built(
    p: Post,
    fm: FrontmatterView,
    d: PostDate,
    html: Seq<char>,
    word_count: nat,
    langs: Seq<Seq<char>>,
    meta: Option<crate::render::MetaImageView>,
    src: Seq<char>,
    cfg: BlogConfig,
) -> bool {
    &&& p.date == d
    &&& p.description@ == fm.description
    &&& p.src@ == src
    &&& p.md@ == html
    &&& p.title@ == titlecased_of(fm.title)
    &&& p.tags@.len() == fm.tags.len()
    &&& forall|i: int|
        0 <= i < fm.tags.len() ==> (#[trigger] p.tags@[i]).slug@ == slug_of(fm.tags[i], "-"@)
            && p.tags@[i].tag@ == lowercased_of(fm.tags[i])
    &&& p.word_count == word_count
    &&& p.read_time == word_count / 238
    &&& p.repo@ == cfg.repo@
    &&& p.blog_title@ == cfg.blog_title@
    &&& p.blog_url@ == cfg.blog_url@
    &&& p.quipquick_version@ == cfg.version@
    &&& p.google_analytics@ == analytics_snippet_of(cfg.google_analytics_id@)
    &&& p.older_post is None
    &&& p.newer_post is None
    &&& opt_view(p.discussion_url) == opt_view(cfg.discussion_url)
    &&& opt_view(p.meta_img) == (match meta {
        Some(m) => Some(m.url),
        None => None,
    })
    &&& p.langs.deep_view() == sort_by_ins(|a: Seq<char>, b: Seq<char>| lex_le(a, b), langs)
}

/// A decimal digit, by Unicode scalar value.
pub open spec fn is_dec_digit(c: char) -> bool {
    48 <= c as u32 && c as u32 <= 57
}

/// The value of a decimal digit.
pub open spec fn dec_val(c: char) -> int {
    c as u32 - 48
}

/// Position `i` starts a trailing numeric offset designator that runs to
/// the end of the text: a sign, a two-digit hour of 24 or more, and a
/// valid two-digit minute, with at most one colon between them. The date
/// parser reads such a trailing token as a UTC offset, and offsets of 24
/// hours or more are outside the range its offset type accepts.
pub open spec fn oversized_offset_at(s: Seq<char>, i: int) -> bool {
    let n = s.len() as int;
    &&& 0 <= i
    &&& (n - i == 5 || n - i == 6)
    &&& (s[i] == '+' || s[i] == '-')
    &&& is_dec_digit(s[i + 1])
    &&& is_dec_digit(s[i + 2])
    &&& 10 * dec_val(s[i + 1]) + dec_val(s[i + 2]) >= 24
    &&& if n - i == 5 {
        is_dec_digit(s[i + 3]) && dec_val(s[i + 3]) <= 5 && is_dec_digit(s[i + 4])
    } else {
        (s[i + 3] == ':' && is_dec_digit(s[i + 4]) && dec_val(s[i + 4]) <= 5 && is_dec_digit(
            s[i + 5],
        )) || (is_dec_digit(s[i + 3]) && dec_val(s[i + 3]) <= 5 && is_dec_digit(s[i + 4]))
    }
}

/// The text ends in a numeric offset designator of 24 hours or more.
pub open spec fn has_oversized_offset(s: Seq<char>) -> bool {
    exists|i: int| oversized_offset_at(s, i)
}

fn is_digit_exec(c: char) -> (r: bool)
    ensures
        r == is_dec_digit(c),
{
    48 <= (c as u32) && (c as u32) <= 57
}

fn oversized_at(s: &str, i: usize) -> (r: bool)
    requires
        i < s@.len(),
        s@.len() - i == 5 || s@.len() - i == 6,
    ensures
        r == oversized_offset_at(s@, i as int),
{
    let len = s.unicode_len();
    let c0 = s.get_char(i);
    if c0 != '+' && c0 != '-' {
        return false;
    }
    let h1 = s.get_char(i + 1);
    let h2 = s.get_char(i + 2);
    if !is_digit_exec(h1) || !is_digit_exec(h2) {
        return false;
    }
    if 10 * ((h1 as u32) - 48) + ((h2 as u32) - 48) < 24 {
        return false;
    }
    let c3 = s.get_char(i + 3);
    let c4 = s.get_char(i + 4);
    let two_digit_minute = is_digit_exec(c3) && ((c3 as u32) - 48) <= 5 && is_digit_exec(c4);
    if len - i == 5 {
        two_digit_minute
    } else {
        let c5 = s.get_char(i + 5);
        (c3 == ':' && is_digit_exec(c4) && ((c4 as u32) - 48) <= 5 && is_digit_exec(c5))
            || two_digit_minute
    }
}

/// Decides whether the text ends in an out-of-range numeric offset
/// designator; such a date text is rejected before the date parser sees
/// it, since the parser cannot represent the offset.
pub fn offset_out_of_range(s: &str) -> (r: bool)
    ensures
        r == has_oversized_offset(s@),
{
    let len = s.unicode_len();
    let near = if len >= 5 {
        oversized_at(s, len - 5)
    } else {
        false
    };
    let far = if len >= 6 {
        oversized_at(s, len - 6)
    } else {
        false
    };
    proof {
        if !near && !far && has_oversized_offset(s@) {
            let i = choose|i: int| oversized_offset_at(s@, i);
            assert(i == s@.len() - 5 || i == s@.len() - 6);
        }
        if near {
            assert(oversized_offset_at(s@, len - 5 as int));
        }
        if far {
            assert(oversized_offset_at(s@, len - 6 as int));
        }
    }
    near || far
}

/// Builds the post record for one rendered document. Fails exactly when
/// the frontmatter date did not parse, and then names that date.
pub fn make_post(
    fm: &FrontmatterInfo,
    date: Option<PostDate>,
    html: String,
    word_count: usize,
    langs: Vec<String>,
    meta: Option<SelectedMetaImage>,
    src: &str,
    cfg: &BlogConfig,
) -> (r: Result<Post, BuildError>)
    ensures
        r is Ok <==> date is Some,
        r is Ok ==> post_built(
            r->Ok_0,
            fm@,
            date->Some_0,
            html@,
            word_count as nat,
            langs.deep_view(),
            meta_view(meta),
            src@,
            *cfg,
        ),
        r is Err ==> (r->Err_0 matches BuildError::InvalidDate { date: d } && d@ == fm@.date),
{
    let d = match date {
        Some(d) => d,
        None => {
            return Err(BuildError::InvalidDate { date: fm.date.clone() });
        },
    };
    let mut tags: Vec<Tag> = Vec::new();
    proof {
        reveal_strlit("-");
    }
    let mut i: usize = 0;
    while i < fm.tags.len()
        invariant
            0 <= i <= fm.tags.len(),
            tags@.len() == i,
            "-"@.len() == 1,
            "-"@[0] == '-',
            forall|k: int|
                0 <= k < i ==> (#[trigger] tags@[k]).slug@ == slug_of(fm@.tags[k], "-"@)
                    && tags@[k].tag@ == lowercased_of(fm@.tags[k]),
        decreases fm.tags.len() - i,
    {
        proof {
            assert(fm.tags@[i as int]@ == fm@.tags[i as int]);
        }
        let slug = crate::trusted::slugify_text(fm.tags[i].as_str(), "-");
        let label = crate::trusted::lowercase_text(fm.tags[i].as_str());
        tags.push(Tag { slug: slug, tag: label });
        i = i + 1;
    }
    let langs_sorted = crate::render::sort_strings(langs);
    let discussion = match &cfg.discussion_url {
        Some(u) => Some(u.clone()),
        None => None,
    };
    let meta_img = match meta {
        Some(m) => Some(m.url),
        None => None,
    };
    let p = Post {
        date: d,
        description: fm.description.clone(),
        src: src.to_owned(),
        md: html,
        title: crate::trusted::titlecase_text(fm.title.as_str()),
        tags: tags,
        word_count: word_count,
        repo: cfg.repo.clone(),
        blog_title: cfg.blog_title.clone(),
        blog_url: cfg.blog_url.clone(),
        quipquick_version: cfg.version.clone(),
        google_analytics: generate_google_analytics_id(cfg.google_analytics_id.as_str()),
        read_time: (word_count as u64) / 238,
        older_post: None,
        newer_post: None,
        discussion_url: discussion,
        meta_img: meta_img,
        langs: langs_sorted,
    };
    Ok(p)
}


/// Builds the post for one rendered document, parsing the frontmatter
/// date through the date parser. A date text ending in an out-of-range
/// offset designator is rejected up front (the parser cannot represent
/// it); otherwise whether the date parses is the parser's decision.
/// Either way, a success carries a fully built post (with the parsed
/// calendar fields in their documented ranges) and a failure names the
/// offending date text.
pub fn build_post(
    fm: &FrontmatterInfo,
    html: String,
    word_count: usize,
    langs: Vec<String>,
    meta: Option<SelectedMetaImage>,
    src: &str,
    cfg: &BlogConfig,
) -> (r: Result<Post, BuildError>)
    ensures
        has_oversized_offset(fm@.date) ==> r is Err,
        r is Ok ==> post_built(
            r->Ok_0,
            fm@,
            r->Ok_0.date,
            html@,
            word_count as nat,
            langs.deep_view(),
            meta_view(meta),
            src@,
            *cfg,
        ),
        r is Ok ==> 1 <= r->Ok_0.date.month <= 12 && 1 <= r->Ok_0.date.day <= 31,
        r is Err ==> (r->Err_0 matches BuildError::InvalidDate { date: d } && d@ == fm@.date),
{
    if offset_out_of_range(fm.date.as_str()) {
        return Err(BuildError::InvalidDate { date: fm.date.clone() });
    }
    let parsed = crate::trusted::parse_date_local(fm.date.as_str());
    make_post(fm, parsed, html, word_count, langs, meta, src, cfg)
}

} // verus!
