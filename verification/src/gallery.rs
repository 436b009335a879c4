//! The gallery page's data: its images ordered by date, newest first,
//! and the preview file name derived from each video file.

use vstd::prelude::*;
use crate::post::{offset_out_of_range, BuildError, PostDate};
use crate::sorting::{lemma_insert_by_at, lemma_sort_by_ins_step, sort_by_ins};
use crate::trusted::titlecased_of;

verus! {

/// One gallery item: a dated video file and the name of its preview
/// image.
pub struct GalleryImage {
    pub date: PostDate,
    pub title: String,
    pub file: String,
    pub preview: String,
}

/// The gallery order: newest first, ties keeping their order.
pub open spec fn gallery_date_desc(a: GalleryImage, b: GalleryImage) -> bool {
    a.date.stamp >= b.date.stamp
}

pub open spec fn gallery_order() -> spec_fn(GalleryImage, GalleryImage) -> bool {
    |a: GalleryImage, b: GalleryImage| gallery_date_desc(a, b)
}

/// Sorts gallery images by date, newest first, with a stable insertion
/// sort.
pub fn sort_gallery_images(v: Vec<GalleryImage>) -> (r: Vec<GalleryImage>)
    ensures
        r@ == sort_by_ins(gallery_order(), v@),
{
    let ghost orig = v@;
    let mut rest = v;
    let mut r: Vec<GalleryImage> = Vec::new();
    let ghost mut k: int = 0;
    proof {
        assert(orig.take(0) =~= Seq::<GalleryImage>::empty());
        assert(r@ =~= sort_by_ins(gallery_order(), orig.take(0)));
        assert(rest@ =~= orig.skip(0));
    }
    while rest.len() > 0
        invariant
            0 <= k <= orig.len(),
            rest@ == orig.skip(k),
            rest@.len() == orig.len() - k,
            r@ == sort_by_ins(gallery_order(), orig.take(k)),
        decreases rest.len(),
    {
        let x = rest.remove(0);
        proof {
            assert(rest@ =~= orig.skip(k).drop_first());
            assert(orig.skip(k).drop_first() =~= orig.skip(k + 1));
            assert(x == orig.skip(k)[0]);
            assert(orig.skip(k)[0] == orig[k]);
            lemma_sort_by_ins_step(gallery_order(), orig, k);
        }
        let ghost rv = r@;
        let mut j: usize = 0;
        let mut searching = true;
        while searching && j < r.len()
            invariant
                0 <= j <= r.len(),
                rv == r@,
                forall|m: int| 0 <= m < j ==> gallery_order()(#[trigger] rv[m], x),
                !searching && j < r.len() ==> !gallery_order()(rv[j as int], x),
            decreases r.len() - j, (if searching {
                1int
            } else {
                0int
            }),
        {
            proof {
                assert(gallery_order()(rv[j as int], x) == (rv[j as int].date.stamp
                    >= x.date.stamp));
            }
            if r[j].date.stamp >= x.date.stamp {
                j = j + 1;
            } else {
                searching = false;
            }
        }
        proof {
            if (j as int) < rv.len() {
                assert(gallery_order()(rv[j as int], x) == (rv[j as int].date.stamp
                    >= x.date.stamp));
            }
            lemma_insert_by_at(gallery_order(), rv, x, j as int);
        }
        r.insert(j, x);
        proof {
            assert(r@ =~= rv.take(j as int) + seq![x] + rv.skip(j as int));
            k = k + 1;
        }
    }
    proof {
        assert(orig.take(orig.len() as int) =~= orig);
    }
    r
}

/// The position after the last occurrence of `c`, or 0 when it does not
/// occur.
pub open spec fn after_last(s: Seq<char>, c: char) -> int
    decreases s.len(),
{
    if s.len() == 0 {
        0
    } else if s.last() == c {
        s.len() as int
    } else {
        after_last(s.drop_last(), c)
    }
}

proof fn lemma_after_last(s: Seq<char>, c: char)
    ensures
        0 <= after_last(s, c) <= s.len(),
        after_last(s, c) > 0 ==> s[after_last(s, c) - 1] == c,
        forall|m: int| after_last(s, c) <= m < s.len() ==> s[m] != c,
    decreases s.len(),
{
    if s.len() > 0 && s.last() != c {
        lemma_after_last(s.drop_last(), c);
        assert forall|m: int| after_last(s, c) <= m < s.len() implies s[m] != c by {
            if m < s.len() - 1 {
                assert(s.drop_last()[m] == s[m]);
            }
        }
    }
}

/// The file's base name: what follows the last slash.
pub open spec fn base_name_of(s: Seq<char>) -> Seq<char> {
    s.skip(after_last(s, '/'))
}

/// The stem of a file's base name: the part before its last dot, the
/// whole name when there is no dot or when the only dot leads a hidden
/// file's name.
pub open spec fn stem_of(s: Seq<char>) -> Seq<char> {
    let name = base_name_of(s);
    let d = after_last(name, '.');
    if d <= 1 {
        name
    } else {
        name.take(d - 1)
    }
}

/// The preview image's name for a gallery file: its stem with
/// `_preview.png` appended.
pub open spec fn preview_name_of(s: Seq<char>) -> Seq<char> {
    stem_of(s) + "_preview.png"@
}

fn after_last_exec(s: &str, c: char) -> (r: usize)
    ensures
        r == after_last(s@, c),
{
    let len = s.unicode_len();
    let mut i: usize = len;
    proof {
        assert(s@.take(len as int) =~= s@);
    }
    while i > 0
        invariant
            0 <= i <= len,
            len == s@.len(),
            forall|m: int| i <= m < len ==> s@[m] != c,
            after_last(s@, c) == after_last(s@.take(i as int), c),
        decreases i,
    {
        proof {
            lemma_after_last(s@.take(i as int), c);
            assert(s@.take(i as int).last() == s@[i - 1]);
            assert(s@.take(i as int).drop_last() =~= s@.take(i as int - 1));
        }
        if s.get_char(i - 1) == c {
            proof {
                assert(after_last(s@.take(i as int), c) == i);
            }
            return i;
        }
        i = i - 1;
    }
    proof {
        assert(s@.take(0) =~= Seq::<char>::empty());
    }
    0
}

/// Derives the preview image name for a gallery file.
pub fn preview_name(file: &str) -> (r: String)
    ensures
        r@ == preview_name_of(file@),
{
    let len = file.unicode_len();
    let slash = after_last_exec(file, '/');
    proof {
        lemma_after_last(file@, '/');
    }
    let name = file.substring_char(slash, len);
    proof {
        assert(name@ == base_name_of(file@));
    }
    let dot = after_last_exec(name, '.');
    proof {
        lemma_after_last(name@, '.');
    }
    let stem = if dot <= 1 {
        name
    } else {
        name.substring_char(0, dot - 1)
    };
    proof {
        assert(stem@ == stem_of(file@));
    }
    let mut out = stem.to_owned();
    out.append("_preview.png");
    out
}


/// Builds one gallery item: parses its date through the date parser and
/// derives its preview name. A date text ending in an out-of-range
/// offset designator is rejected up front (the parser cannot represent
/// it); otherwise whether the date parses is the parser's decision. A
/// success carries the item with the parsed calendar fields in their
/// documented ranges, a failure names the offending date text.
pub fn make_gallery_image(title: &str, file: &str, date: &str) -> (r: Result<
    GalleryImage,
    BuildError,
>)
    ensures
        crate::post::has_oversized_offset(date@) ==> r is Err,
        r is Ok ==> r->Ok_0.title@ == title@ && r->Ok_0.file@ == file@ && r->Ok_0.preview@
            == preview_name_of(file@) && 1 <= r->Ok_0.date.month <= 12 && 1 <= r->Ok_0.date.day
            <= 31,
        r is Err ==> (r->Err_0 matches BuildError::InvalidDate { date: d } && d@ == date@),
{
    if offset_out_of_range(date) {
        return Err(BuildError::InvalidDate { date: date.to_owned() });
    }
    match crate::trusted::parse_date_local(date) {
        Some(d) => Ok(
            GalleryImage {
                date: d,
                title: title.to_owned(),
                file: file.to_owned(),
                preview: preview_name(file),
            },
        ),
        None => Err(BuildError::InvalidDate { date: date.to_owned() }),
    }
}


/// Title-cases a display label, as the gallery pages show their titles.
pub fn titlecase_label(s: &str) -> (r: String)
    ensures
        r@ == titlecased_of(s@),
{
    crate::trusted::titlecase_text(s)
}

} // verus!
