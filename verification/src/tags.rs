//! The tag index: one entry per distinct tag slug, in order of first
//! encounter, each listing the positions of the posts that carry the tag
//! in the order of the post list (one occurrence per carrying tag).

use vstd::prelude::*;
use crate::post::{Post, Tag};

verus! {

/// One tag index entry: the slug, the label shown for it (from its first
/// occurrence), and the positions of the posts carrying it.
pub struct TagEntry {
    pub slug: String,
    pub tag: String,
    pub posts: Vec<usize>,
}

/// The slugs of a tag list, in order.
pub open spec fn slugs_of(ts: Seq<Tag>) -> Seq<Seq<char>> {
    ts.map_values(|t: Tag| t.slug@)
}

/// Every tag slug of every post, post-major, tag-minor.
pub open spec fn all_slugs(posts: Seq<Post>) -> Seq<Seq<char>>
    decreases posts.len(),
{
    if posts.len() == 0 {
        Seq::empty()
    } else {
        all_slugs(posts.drop_last()) + slugs_of(posts.last().tags@)
    }
}

/// The distinct values of a sequence, each at its first occurrence.
pub open spec fn firsts(s: Seq<Seq<char>>) -> Seq<Seq<char>>
    decreases s.len(),
{
    if s.len() == 0 {
        Seq::empty()
    } else {
        let r = firsts(s.drop_last());
        if r.contains(s.last()) {
            r
        } else {
            r.push(s.last())
        }
    }
}

/// How many of the tags carry this slug.
pub open spec fn tag_count(ts: Seq<Tag>, slug: Seq<char>) -> nat
    decreases ts.len(),
{
    if ts.len() == 0 {
        0
    } else {
        tag_count(ts.drop_last(), slug) + if ts.last().slug@ == slug {
            1nat
        } else {
            0nat
        }
    }
}

/// The positions of the posts carrying this slug, in post order, one
/// occurrence per carrying tag.
pub open spec fn occ_list(posts: Seq<Post>, slug: Seq<char>) -> Seq<int>
    decreases posts.len(),
{
    if posts.len() == 0 {
        Seq::empty()
    } else {
        occ_list(posts.drop_last(), slug) + Seq::new(
            tag_count(posts.last().tags@, slug),
            |q: int| posts.len() - 1,
        )
    }
}

/// The label of the first tag in the list carrying this slug.
pub open spec fn label_in(ts: Seq<Tag>, slug: Seq<char>) -> Option<Seq<char>>
    decreases ts.len(),
{
    if ts.len() == 0 {
        None
    } else if ts[0].slug@ == slug {
        Some(ts[0].tag@)
    } else {
        label_in(ts.drop_first(), slug)
    }
}

/// The label of the first occurrence of this slug over all posts.
pub open spec fn first_label(posts: Seq<Post>, slug: Seq<char>) -> Option<Seq<char>>
    decreases posts.len(),
{
    if posts.len() == 0 {
        None
    } else {
        match label_in(posts[0].tags@, slug) {
            Some(l) => Some(l),
            None => first_label(posts.drop_first(), slug),
        }
    }
}

/// The distinct-firsts list holds a value exactly when the input does,
/// and holds it once.
pub proof fn lemma_firsts(s: Seq<Seq<char>>)
    ensures
        forall|x: Seq<char>| firsts(s).contains(x) <==> s.contains(x),
        forall|e1: int, e2: int|
            0 <= e1 < e2 < firsts(s).len() ==> firsts(s)[e1] != firsts(s)[e2],
    decreases s.len(),
{
    if s.len() > 0 {
        let d = s.drop_last();
        lemma_firsts(d);
        let r = firsts(d);
        assert forall|x: Seq<char>| firsts(s).contains(x) implies s.contains(x) by {
            if r.contains(x) {
                assert(d.contains(x));
                let w = choose|w: int| 0 <= w < d.len() && d[w] == x;
                assert(s[w] == x);
            } else {
                let w = choose|w: int| 0 <= w < firsts(s).len() && firsts(s)[w] == x;
                if w < r.len() {
                    assert(r.contains(x));
                    assert(d.contains(x));
                    let v = choose|v: int| 0 <= v < d.len() && d[v] == x;
                    assert(s[v] == x);
                } else {
                    assert(x == s.last());
                    assert(s[s.len() - 1] == x);
                }
            }
        }
        assert forall|x: Seq<char>| s.contains(x) implies firsts(s).contains(x) by {
            let w = choose|w: int| 0 <= w < s.len() && s[w] == x;
            if w < d.len() {
                assert(d[w] == x);
                assert(d.contains(x));
                assert(r.contains(x));
                if !r.contains(s.last()) {
                    let v = choose|v: int| 0 <= v < r.len() && r[v] == x;
                    assert(firsts(s)[v] == x);
                }
            } else {
                assert(x == s.last());
                if r.contains(x) {
                    let v = choose|v: int| 0 <= v < r.len() && r[v] == x;
                    assert(firsts(s)[v] == x);
                } else {
                    assert(firsts(s)[r.len() as int] == x);
                }
            }
        }
        assert forall|e1: int, e2: int|
            0 <= e1 < e2 < firsts(s).len() implies firsts(s)[e1] != firsts(s)[e2] by {
            if r.contains(s.last()) {
            } else {
                if e2 < r.len() {
                } else {
                    assert(firsts(s)[e2] == s.last());
                    if firsts(s)[e1] == s.last() {
                        assert(r[e1] == s.last());
                        assert(r.contains(s.last()));
                    }
                }
            }
        }
    }
}

/// A slug is counted among tags exactly when it occurs among them.
pub proof fn lemma_tag_count_contains(ts: Seq<Tag>, slug: Seq<char>)
    ensures
        tag_count(ts, slug) > 0 <==> slugs_of(ts).contains(slug),
    decreases ts.len(),
{
    if ts.len() > 0 {
        let d = ts.drop_last();
        lemma_tag_count_contains(d, slug);
        if ts.last().slug@ == slug {
            assert(slugs_of(ts)[ts.len() - 1] == slug);
        } else {
            if slugs_of(d).contains(slug) {
                let w = choose|w: int| 0 <= w < d.len() && slugs_of(d)[w] == slug;
                assert(slugs_of(ts)[w] == slug);
            }
            if slugs_of(ts).contains(slug) {
                let w = choose|w: int| 0 <= w < ts.len() && slugs_of(ts)[w] == slug;
                assert(w < d.len());
                assert(slugs_of(d)[w] == slug);
            }
        }
    }
}

/// The occurrence list of a slug holds exactly the positions of the
/// posts among whose tags the slug occurs.
pub proof fn lemma_occ_list_members(posts: Seq<Post>, slug: Seq<char>)
    ensures
        forall|x: int|
            #[trigger] occ_list(posts, slug).contains(x) <==> (0 <= x < posts.len() && slugs_of(
                posts[x].tags@,
            ).contains(slug)),
    decreases posts.len(),
{
    if posts.len() > 0 {
        let d = posts.drop_last();
        let n = posts.len() - 1;
        lemma_occ_list_members(d, slug);
        lemma_tag_count_contains(posts.last().tags@, slug);
        let tail = Seq::new(tag_count(posts.last().tags@, slug), |q: int| posts.len() - 1);
        assert forall|x: int|
            #[trigger] occ_list(posts, slug).contains(x) implies (0 <= x < posts.len()
            && slugs_of(posts[x].tags@).contains(slug)) by {
            let w = choose|w: int|
                0 <= w < occ_list(posts, slug).len() && occ_list(posts, slug)[w] == x;
            if w < occ_list(d, slug).len() {
                assert(occ_list(d, slug)[w] == x);
                assert(occ_list(d, slug).contains(x));
                assert(d[x] == posts[x]);
            } else {
                assert(x == n);
                assert(tail.len() > 0);
            }
        }
        assert forall|x: int|
            (0 <= x < posts.len() && slugs_of(posts[x].tags@).contains(slug)) implies
            #[trigger] occ_list(posts, slug).contains(x) by {
            if x < n {
                assert(d[x] == posts[x]);
                assert(occ_list(d, slug).contains(x));
                let w = choose|w: int|
                    0 <= w < occ_list(d, slug).len() && occ_list(d, slug)[w] == x;
                assert(occ_list(posts, slug)[w] == x);
            } else {
                assert(posts[x] == posts.last());
                assert(tag_count(posts.last().tags@, slug) > 0);
                assert(occ_list(posts, slug)[occ_list(d, slug).len() as int] == n);
            }
        }
    }
}

/// Tag indexing is sound and complete: a slug has an entry exactly when
/// some post carries it, the entry list is free of duplicate slugs, and
/// a slug's occurrence list holds exactly the posts carrying it.
pub proof fn lemma_tag_index_law(posts: Seq<Post>, slug: Seq<char>)
    ensures
        firsts(all_slugs(posts)).contains(slug) <==> exists|k: int|
            0 <= k < posts.len() && slugs_of(#[trigger] posts[k].tags@).contains(slug),
        forall|e1: int, e2: int|
            0 <= e1 < e2 < firsts(all_slugs(posts)).len() ==> firsts(all_slugs(posts))[e1]
                != firsts(all_slugs(posts))[e2],
        forall|x: int|
            #[trigger] occ_list(posts, slug).contains(x) <==> (0 <= x < posts.len() && slugs_of(
                posts[x].tags@,
            ).contains(slug)),
{
    lemma_firsts(all_slugs(posts));
    lemma_occ_list_members(posts, slug);
    lemma_all_slugs_members(posts);
    if firsts(all_slugs(posts)).contains(slug) {
        assert(all_slugs(posts).contains(slug));
    }
    if exists|k: int| 0 <= k < posts.len() && slugs_of(#[trigger] posts[k].tags@).contains(slug) {
        assert(all_slugs(posts).contains(slug));
    }
}

/// A slug occurs among all slugs exactly when some post's tags carry it.
pub proof fn lemma_all_slugs_members(posts: Seq<Post>)
    ensures
        forall|x: Seq<char>|
            #[trigger] all_slugs(posts).contains(x) <==> exists|k: int|
                0 <= k < posts.len() && slugs_of(#[trigger] posts[k].tags@).contains(x),
    decreases posts.len(),
{
    if posts.len() > 0 {
        let d = posts.drop_last();
        let n = posts.len() - 1;
        lemma_all_slugs_members(d);
        assert forall|x: Seq<char>| #[trigger] all_slugs(posts).contains(x) implies exists|k: int|
            0 <= k < posts.len() && slugs_of(#[trigger] posts[k].tags@).contains(x) by {
            let w = choose|w: int|
                0 <= w < all_slugs(posts).len() && all_slugs(posts)[w] == x;
            if w < all_slugs(d).len() {
                assert(all_slugs(d)[w] == x);
                assert(all_slugs(d).contains(x));
                let k = choose|k: int|
                    0 <= k < d.len() && slugs_of(#[trigger] d[k].tags@).contains(x);
                assert(posts[k] == d[k]);
                assert(slugs_of(posts[k].tags@).contains(x));
            } else {
                assert(slugs_of(posts.last().tags@)[w - all_slugs(d).len()] == x);
                assert(slugs_of(posts[n as int].tags@).contains(x));
            }
        }
        assert forall|x: Seq<char>|
            (exists|k: int|
                0 <= k < posts.len() && slugs_of(#[trigger] posts[k].tags@).contains(
                    x,
                )) implies #[trigger] all_slugs(posts).contains(x) by {
            let k = choose|k: int|
                0 <= k < posts.len() && slugs_of(#[trigger] posts[k].tags@).contains(x);
            if k < n {
                assert(d[k] == posts[k]);
                assert(all_slugs(d).contains(x));
                let w = choose|w: int|
                    0 <= w < all_slugs(d).len() && all_slugs(d)[w] == x;
                assert(all_slugs(posts)[w] == x);
            } else {
                assert(posts[k] == posts.last());
                let m = choose|m: int|
                    0 <= m < slugs_of(posts.last().tags@).len() && slugs_of(
                        posts.last().tags@,
                    )[m] == x;
                assert(all_slugs(posts)[all_slugs(d).len() + m] == x);
            }
        }
    }
}


/// Occurrence lists run in post order: every recorded position is in
/// range, and positions never decrease along the list.
pub proof fn lemma_occ_list_bounds(posts: Seq<Post>, slug: Seq<char>)
    ensures
        forall|q: int|
            0 <= q < occ_list(posts, slug).len() ==> 0 <= #[trigger] occ_list(posts, slug)[q]
                < posts.len(),
        forall|q1: int, q2: int|
            0 <= q1 < q2 < occ_list(posts, slug).len() ==> occ_list(posts, slug)[q1] <= occ_list(
                posts,
                slug,
            )[q2],
    decreases posts.len(),
{
    if posts.len() > 0 {
        let d = posts.drop_last();
        lemma_occ_list_bounds(d, slug);
        let pre = occ_list(d, slug);
        let tail = Seq::new(tag_count(posts.last().tags@, slug), |q: int| posts.len() - 1);
        assert forall|q: int|
            0 <= q < occ_list(posts, slug).len() implies 0 <= #[trigger] occ_list(posts, slug)[q]
            < posts.len() by {
            if q < pre.len() {
                assert(occ_list(posts, slug)[q] == pre[q]);
            } else {
                assert(occ_list(posts, slug)[q] == tail[q - pre.len()]);
            }
        }
        assert forall|q1: int, q2: int|
            0 <= q1 < q2 < occ_list(posts, slug).len() implies occ_list(posts, slug)[q1]
            <= occ_list(posts, slug)[q2] by {
            if q2 < pre.len() {
                assert(occ_list(posts, slug)[q1] == pre[q1]);
                assert(occ_list(posts, slug)[q2] == pre[q2]);
            } else if q1 < pre.len() {
                assert(occ_list(posts, slug)[q1] == pre[q1]);
                assert(occ_list(posts, slug)[q2] == tail[q2 - pre.len()]);
                assert(pre[q1] < d.len());
            } else {
                assert(occ_list(posts, slug)[q1] == tail[q1 - pre.len()]);
                assert(occ_list(posts, slug)[q2] == tail[q2 - pre.len()]);
            }
        }
    }
}

/// No two of these tags carry the same slug.
pub open spec fn distinct_slugs(ts: Seq<Tag>) -> bool {
    forall|m1: int, m2: int|
        0 <= m1 < m2 < ts.len() ==> (#[trigger] ts[m1]).slug@ != (#[trigger] ts[m2]).slug@
}

proof fn lemma_tag_count_at_most_one(ts: Seq<Tag>, slug: Seq<char>)
    requires
        distinct_slugs(ts),
    ensures
        tag_count(ts, slug) <= 1,
    decreases ts.len(),
{
    if ts.len() > 0 {
        let d = ts.drop_last();
        assert forall|m1: int, m2: int|
            0 <= m1 < m2 < d.len() implies (#[trigger] d[m1]).slug@ != (
        #[trigger] d[m2]).slug@ by {
            assert(d[m1] == ts[m1] && d[m2] == ts[m2]);
        }
        lemma_tag_count_at_most_one(d, slug);
        if ts.last().slug@ == slug {
            lemma_tag_count_contains(d, slug);
            if slugs_of(d).contains(slug) {
                let w = choose|w: int| 0 <= w < d.len() && slugs_of(d)[w] == slug;
                assert(d[w].slug@ == slug);
                assert(ts[w].slug@ != ts[ts.len() - 1].slug@);
            }
            assert(tag_count(d, slug) == 0);
        }
    }
}

/// When each post's tag slugs are pairwise distinct, a slug's occurrence
/// list holds each post at most once: the positions are strictly
/// increasing, so the global post order is preserved exactly.
pub proof fn lemma_occ_list_strict(posts: Seq<Post>, slug: Seq<char>)
    requires
        forall|k: int| 0 <= k < posts.len() ==> distinct_slugs((#[trigger] posts[k]).tags@),
    ensures
        forall|q1: int, q2: int|
            0 <= q1 < q2 < occ_list(posts, slug).len() ==> occ_list(posts, slug)[q1] < occ_list(
                posts,
                slug,
            )[q2],
    decreases posts.len(),
{
    if posts.len() > 0 {
        let d = posts.drop_last();
        assert forall|k: int|
            0 <= k < d.len() implies distinct_slugs((#[trigger] d[k]).tags@) by {
            assert(d[k] == posts[k]);
        }
        lemma_occ_list_strict(d, slug);
        lemma_occ_list_bounds(d, slug);
        assert(distinct_slugs(posts[posts.len() - 1].tags@));
        lemma_tag_count_at_most_one(posts.last().tags@, slug);
        let pre = occ_list(d, slug);
        let tail = Seq::new(tag_count(posts.last().tags@, slug), |q: int| posts.len() - 1);
        assert forall|q1: int, q2: int|
            0 <= q1 < q2 < occ_list(posts, slug).len() implies occ_list(posts, slug)[q1]
            < occ_list(posts, slug)[q2] by {
            if q2 < pre.len() {
                assert(occ_list(posts, slug)[q1] == pre[q1]);
                assert(occ_list(posts, slug)[q2] == pre[q2]);
            } else if q1 < pre.len() {
                assert(occ_list(posts, slug)[q1] == pre[q1]);
                assert(occ_list(posts, slug)[q2] == tail[q2 - pre.len()]);
                assert(pre[q1] < d.len());
            } else {
                assert(tail.len() <= 1);
            }
        }
    }
}

/// Slugs seen after the first `i` posts and the first `j` tags of post `i`.
pub open spec fn seen_slugs(posts: Seq<Post>, i: int, j: int) -> Seq<Seq<char>> {
    all_slugs(posts.take(i)) + slugs_of(posts[i].tags@.take(j))
}

/// Occurrences recorded for a slug after the first `i` posts and the
/// first `j` tags of post `i`.
pub open spec fn partial_occ(posts: Seq<Post>, slug: Seq<char>, i: int, j: int) -> Seq<int> {
    occ_list(posts.take(i), slug) + Seq::new(tag_count(posts[i].tags@.take(j), slug), |q: int| i)
}

proof fn lemma_all_slugs_snoc(posts: Seq<Post>, i: int)
    requires
        0 <= i < posts.len(),
    ensures
        all_slugs(posts.take(i + 1)) == all_slugs(posts.take(i)) + slugs_of(posts[i].tags@),
{
    assert(posts.take(i + 1).drop_last() =~= posts.take(i));
    assert(posts.take(i + 1).last() == posts[i]);
}

proof fn lemma_occ_snoc(posts: Seq<Post>, slug: Seq<char>, i: int)
    requires
        0 <= i < posts.len(),
    ensures
        occ_list(posts.take(i + 1), slug) == occ_list(posts.take(i), slug) + Seq::new(
            tag_count(posts[i].tags@, slug),
            |q: int| i,
        ),
{
    assert(posts.take(i + 1).drop_last() =~= posts.take(i));
    assert(posts.take(i + 1).last() == posts[i]);
    assert(Seq::new(tag_count(posts[i].tags@, slug), |q: int| posts.take(i + 1).len() - 1) =~= Seq::new(
        tag_count(posts[i].tags@, slug),
        |q: int| i,
    ));
}

proof fn lemma_tag_count_snoc(ts: Seq<Tag>, slug: Seq<char>, j: int)
    requires
        0 <= j < ts.len(),
    ensures
        tag_count(ts.take(j + 1), slug) == tag_count(ts.take(j), slug) + (if ts[j].slug@ == slug {
            1nat
        } else {
            0nat
        }),
{
    assert(ts.take(j + 1).drop_last() =~= ts.take(j));
    assert(ts.take(j + 1).last() == ts[j]);
}

proof fn lemma_firsts_snoc(s: Seq<Seq<char>>, x: Seq<char>)
    ensures
        firsts(s).contains(x) ==> firsts(s.push(x)) == firsts(s),
        !firsts(s).contains(x) ==> firsts(s.push(x)) == firsts(s).push(x),
{
    assert(s.push(x).drop_last() =~= s);
    assert(s.push(x).last() == x);
}

proof fn lemma_occ_empty(posts: Seq<Post>, slug: Seq<char>)
    requires
        !all_slugs(posts).contains(slug),
    ensures
        occ_list(posts, slug) =~= Seq::<int>::empty(),
    decreases posts.len(),
{
    if posts.len() > 0 {
        let d = posts.drop_last();
        assert forall|w: int| 0 <= w < all_slugs(d).len() implies all_slugs(d)[w] != slug by {
            assert(all_slugs(posts)[w] == all_slugs(d)[w]);
        }
        lemma_occ_empty(d, slug);
        lemma_tag_count_contains(posts.last().tags@, slug);
        if slugs_of(posts.last().tags@).contains(slug) {
            let m = choose|m: int|
                0 <= m < slugs_of(posts.last().tags@).len() && slugs_of(posts.last().tags@)[m]
                    == slug;
            assert(all_slugs(posts)[all_slugs(d).len() + m] == slug);
        }
    }
}

proof fn lemma_label_in_at(ts: Seq<Tag>, slug: Seq<char>, j: int)
    requires
        0 <= j < ts.len(),
        ts[j].slug@ == slug,
        forall|m: int| 0 <= m < j ==> (#[trigger] ts[m]).slug@ != slug,
    ensures
        label_in(ts, slug) == Some(ts[j].tag@),
    decreases j,
{
    if j > 0 {
        assert(ts[0].slug@ != slug);
        lemma_label_in_at(ts.drop_first(), slug, j - 1);
        assert(ts.drop_first()[j - 1] == ts[j]);
    }
}

proof fn lemma_label_in_none(ts: Seq<Tag>, slug: Seq<char>)
    requires
        !slugs_of(ts).contains(slug),
    ensures
        label_in(ts, slug) is None,
    decreases ts.len(),
{
    if ts.len() > 0 {
        assert(slugs_of(ts)[0] == ts[0].slug@);
        assert(ts[0].slug@ != slug);
        assert forall|w: int|
            0 <= w < slugs_of(ts.drop_first()).len() implies slugs_of(ts.drop_first())[w]
            != slug by {
            assert(slugs_of(ts)[w + 1] == slugs_of(ts.drop_first())[w]);
        }
        lemma_label_in_none(ts.drop_first(), slug);
    }
}

proof fn lemma_first_label_at(posts: Seq<Post>, slug: Seq<char>, i: int)
    requires
        0 <= i < posts.len(),
        forall|k: int| 0 <= k < i ==> !slugs_of((#[trigger] posts[k]).tags@).contains(slug),
        label_in(posts[i].tags@, slug) is Some,
    ensures
        first_label(posts, slug) == label_in(posts[i].tags@, slug),
    decreases i,
{
    if i == 0 {
    } else {
        lemma_label_in_none(posts[0].tags@, slug);
        assert forall|k: int|
            0 <= k < i - 1 implies !slugs_of((#[trigger] posts.drop_first()[k]).tags@).contains(
            slug) by {
            assert(posts.drop_first()[k] == posts[k + 1]);
        }
        lemma_first_label_at(posts.drop_first(), slug, i - 1);
        assert(posts.drop_first()[i - 1] == posts[i]);
    }
}

/// Finds the index entry for a slug, if one exists.
fn find_entry(r: &Vec<TagEntry>, slug: &String) -> (res: Option<usize>)
    ensures
        match res {
            Some(e) => e < r@.len() && r@[e as int].slug@ == slug@,
            None => forall|e: int| 0 <= e < r@.len() ==> (#[trigger] r@[e]).slug@ != slug@,
        },
{
    let mut e: usize = 0;
    while e < r.len()
        invariant
            0 <= e <= r@.len(),
            forall|m: int| 0 <= m < e ==> (#[trigger] r@[m]).slug@ != slug@,
        decreases r.len() - e,
    {
        if r[e].slug == *slug {
            return Some(e);
        }
        e = e + 1;
    }
    None
}

/// The three facts the index construction guarantees, entry by entry.
pub open spec fn tag_index_ok(posts: Seq<Post>, r: Seq<TagEntry>) -> bool {
    &&& r.map_values(|e: TagEntry| e.slug@) == firsts(all_slugs(posts))
    &&& forall|e: int|
        0 <= e < r.len() ==> (#[trigger] r[e]).posts@.map_values(|u: usize| u as int) == occ_list(
            posts,
            r[e].slug@,
        )
    &&& forall|e: int|
        0 <= e < r.len() ==> first_label(posts, (#[trigger] r[e]).slug@) == Some(r[e].tag@)
}

/// Builds the tag index in one pass over the posts: entries appear in
/// order of first encounter, each holding the label of that first
/// occurrence and one position per carrying tag, post order preserved.
pub fn build_tag_index(posts: &Vec<Post>) -> (r: Vec<TagEntry>)
    ensures
        tag_index_ok(posts@, r@),
{
    let ghost pv = posts@;
    let mut r: Vec<TagEntry> = Vec::new();
    let mut i: usize = 0;
    proof {
        assert(pv.take(0) =~= Seq::<Post>::empty());
        assert(r@.map_values(|e: TagEntry| e.slug@) =~= firsts(all_slugs(pv.take(0))));
    }
    while i < posts.len()
        invariant
            0 <= i <= pv.len(),
            pv == posts@,
            r@.map_values(|e: TagEntry| e.slug@) == firsts(all_slugs(pv.take(i as int))),
            forall|e: int|
                0 <= e < r@.len() ==> (#[trigger] r@[e]).posts@.map_values(|u: usize| u as int)
                    == occ_list(pv.take(i as int), r@[e].slug@),
            forall|e: int|
                0 <= e < r@.len() ==> first_label(pv, (#[trigger] r@[e]).slug@) == Some(
                    r@[e].tag@,
                ),
            forall|e1: int, e2: int|
                0 <= e1 < e2 < r@.len() ==> (#[trigger] r@[e1]).slug@ != (
                #[trigger] r@[e2]).slug@,
        decreases posts.len() - i,
    {
        let ghost tv = posts@[i as int].tags@;
        let mut j: usize = 0;
        proof {
            assert(tv.take(0) =~= Seq::<Tag>::empty());
            assert(slugs_of(tv.take(0)) =~= Seq::<Seq<char>>::empty());
            assert(seen_slugs(pv, i as int, 0) =~= all_slugs(pv.take(i as int)));
            assert forall|e: int| 0 <= e < r@.len() implies (#[trigger] r@[e]).posts@.map_values(
                |u: usize| u as int,
            ) == partial_occ(pv, r@[e].slug@, i as int, 0) by {
                assert(partial_occ(pv, r@[e].slug@, i as int, 0) =~= occ_list(
                    pv.take(i as int),
                    r@[e].slug@,
                ));
            }
        }
        while j < posts[i].tags.len()
            invariant
                0 <= i < pv.len(),
                0 <= j <= tv.len(),
                pv == posts@,
                tv == posts@[i as int].tags@,
                r@.map_values(|e: TagEntry| e.slug@) == firsts(seen_slugs(pv, i as int, j as int)),
                forall|e: int|
                    0 <= e < r@.len() ==> (#[trigger] r@[e]).posts@.map_values(
                        |u: usize| u as int,
                    ) == partial_occ(pv, r@[e].slug@, i as int, j as int),
                forall|e: int|
                    0 <= e < r@.len() ==> first_label(pv, (#[trigger] r@[e]).slug@) == Some(
                        r@[e].tag@,
                    ),
                forall|e1: int, e2: int|
                    0 <= e1 < e2 < r@.len() ==> (#[trigger] r@[e1]).slug@ != (
                    #[trigger] r@[e2]).slug@,
            decreases tv.len() - j,
        {
            let ghost slug = tv[j as int].slug@;
            let ghost seen = seen_slugs(pv, i as int, j as int);
            proof {
                lemma_tag_count_snoc(tv, slug, j as int);
                assert forall|sl: Seq<char>| sl != slug implies tag_count(
                    tv.take(j as int + 1),
                    sl,
                ) == tag_count(tv.take(j as int), sl) by {
                    lemma_tag_count_snoc(tv, sl, j as int);
                }
                assert(slugs_of(tv.take(j as int + 1)) =~= slugs_of(tv.take(j as int)).push(
                    slug,
                ));
                assert(seen_slugs(pv, i as int, j as int + 1) =~= seen.push(slug));
            }
            match find_entry(&r, &posts[i].tags[j].slug) {
                Some(e) => {
                    proof {
                        // the slug is already recorded, so the seen set and
                        // the entry row are unchanged; only its list grows
                        assert(r@.map_values(|x: TagEntry| x.slug@)[e as int] == slug);
                        assert(firsts(seen).contains(slug));
                        lemma_firsts(seen);
                        lemma_firsts_snoc(seen, slug);
                    }
                    let ghost before = r@;
                    let mut entry = r.remove(e);
                    entry.posts.push(i);
                    r.insert(e, entry);
                    proof {
                        assert(r@ =~= before.update(
                            e as int,
                            TagEntry {
                                slug: before[e as int].slug,
                                tag: before[e as int].tag,
                                posts: entry.posts,
                            },
                        ));
                        assert(r@.map_values(|x: TagEntry| x.slug@) =~= before.map_values(
                            |x: TagEntry| x.slug@,
                        ));
                        assert(r@[e as int].posts@.map_values(|u: usize| u as int) =~= before[
                            e as int].posts@.map_values(|u: usize| u as int).push(i as int));
                        assert forall|x: int| 0 <= x < r@.len() implies (
                        #[trigger] r@[x]).posts@.map_values(|u: usize| u as int) == partial_occ(
                            pv,
                            r@[x].slug@,
                            i as int,
                            j as int + 1,
                        ) by {
                            if x == e {
                                assert(partial_occ(pv, slug, i as int, j as int + 1)
                                    =~= partial_occ(pv, slug, i as int, j as int).push(i as int));
                            } else {
                                assert(r@[x] == before[x]);
                                assert(r@[x].slug@ != slug);
                                assert(partial_occ(pv, r@[x].slug@, i as int, j as int + 1)
                                    =~= partial_occ(pv, r@[x].slug@, i as int, j as int));
                            }
                        }
                    }
                },
                None => {
                    proof {
                        // a fresh slug: nothing recorded anywhere yet
                        lemma_firsts(seen);
                        if seen.contains(slug) {
                            let w = choose|w: int|
                                0 <= w < firsts(seen).len() && firsts(seen)[w] == slug;
                            assert(r@.map_values(|x: TagEntry| x.slug@)[w] == slug);
                            assert(r@[w].slug@ == slug);
                        }
                        assert(!seen.contains(slug));
                        lemma_firsts_snoc(seen, slug);
                        assert forall|w: int|
                            0 <= w < all_slugs(pv.take(i as int)).len() implies all_slugs(
                            pv.take(i as int))[w] != slug by {
                            assert(seen[w] == all_slugs(pv.take(i as int))[w]);
                        }
                        assert forall|w: int|
                            0 <= w < slugs_of(tv.take(j as int)).len() implies slugs_of(
                            tv.take(j as int))[w] != slug by {
                            assert(seen[all_slugs(pv.take(i as int)).len() + w] == slugs_of(
                                tv.take(j as int),
                            )[w]);
                        }
                        lemma_occ_empty(pv.take(i as int), slug);
                        lemma_tag_count_contains(tv.take(j as int), slug);
                        assert(tag_count(tv.take(j as int), slug) == 0);
                        // the first occurrence overall is this very tag
                        lemma_all_slugs_members(pv.take(i as int));
                        assert forall|k: int|
                            0 <= k < i implies !slugs_of((#[trigger] pv[k]).tags@).contains(
                            slug) by {
                            assert(pv.take(i as int)[k] == pv[k]);
                            if slugs_of(pv[k].tags@).contains(slug) {
                                assert(all_slugs(pv.take(i as int)).contains(slug));
                            }
                        }
                        assert forall|m: int| 0 <= m < j implies (#[trigger] tv[m]).slug@
                            != slug by {
                            if tv[m].slug@ == slug {
                                assert(slugs_of(tv.take(j as int))[m] == slug);
                            }
                        }
                        lemma_label_in_at(tv, slug, j as int);
                        lemma_first_label_at(pv, slug, i as int);
                    }
                    let mut occs: Vec<usize> = Vec::new();
                    occs.push(i);
                    let ghost before = r@;
                    r.push(
                        TagEntry {
                            slug: posts[i].tags[j].slug.clone(),
                            tag: posts[i].tags[j].tag.clone(),
                            posts: occs,
                        },
                    );
                    proof {
                        assert(r@.map_values(|x: TagEntry| x.slug@) =~= before.map_values(
                            |x: TagEntry| x.slug@,
                        ).push(slug));
                        assert forall|x: int| 0 <= x < r@.len() implies (
                        #[trigger] r@[x]).posts@.map_values(|u: usize| u as int) == partial_occ(
                            pv,
                            r@[x].slug@,
                            i as int,
                            j as int + 1,
                        ) by {
                            if x < before.len() {
                                assert(r@[x] == before[x]);
                                assert(r@[x].slug@ != slug);
                                assert(partial_occ(pv, r@[x].slug@, i as int, j as int + 1)
                                    =~= partial_occ(pv, r@[x].slug@, i as int, j as int));
                            } else {
                                assert(r@[x].posts@.map_values(|u: usize| u as int) =~= seq![
                                    i as int,
                                ]);
                                assert(partial_occ(pv, slug, i as int, j as int + 1) =~= seq![
                                    i as int,
                                ]);
                            }
                        }
                    }
                },
            }
            j = j + 1;
        }
        proof {
            assert(tv.take(tv.len() as int) =~= tv);
            lemma_all_slugs_snoc(pv, i as int);
            assert(seen_slugs(pv, i as int, tv.len() as int) =~= all_slugs(pv.take(i as int + 1)));
            assert forall|e: int| 0 <= e < r@.len() implies (#[trigger] r@[e]).posts@.map_values(
                |u: usize| u as int,
            ) == occ_list(pv.take(i as int + 1), r@[e].slug@) by {
                lemma_occ_snoc(pv, r@[e].slug@, i as int);
                assert(partial_occ(pv, r@[e].slug@, i as int, tv.len() as int) =~= occ_list(
                    pv.take(i as int + 1),
                    r@[e].slug@,
                ));
            }
        }
        i = i + 1;
    }
    proof {
        assert(pv.take(pv.len() as int) =~= pv);
    }
    r
}

} // verus!
