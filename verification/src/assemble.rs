//! The post assembler: orders the rendered posts by date, newest first,
//! links each post to its neighbours, and paginates listings into pages
//! of five.

use vstd::prelude::*;
use crate::post::Post;
use crate::sorting::{
    lemma_insert_by_at, lemma_sort_by_ins_multiset, lemma_sort_by_ins_sorted,
    lemma_sort_by_ins_step, sort_by_ins, total_preorder,
};
use crate::text::{dec_digits_of, push_u64};
use crate::trusted::titlecased_of;

verus! {

/// The assembly order: `a` may stay before `b` when its date is not
/// older — descending by the parsed instant, ties keeping their order.
pub open spec fn date_desc(a: Post, b: Post) -> bool {
    a.date.stamp >= b.date.stamp
}

pub open spec fn date_order() -> spec_fn(Post, Post) -> bool {
    |a: Post, b: Post| date_desc(a, b)
}

/// The date order relates every pair and is transitive.
pub proof fn lemma_date_order_total()
    ensures
        total_preorder(date_order()),
{
    assert forall|a: Post, b: Post| #[trigger] date_order()(a, b) || #[trigger] date_order()(
        b,
        a,
    ) by {
        assert(date_order()(a, b) == (a.date.stamp >= b.date.stamp));
        assert(date_order()(b, a) == (b.date.stamp >= a.date.stamp));
    }
    assert forall|a: Post, b: Post, c: Post|
        #[trigger] date_order()(a, b) && #[trigger] date_order()(b, c) implies date_order()(
        a,
        c,
    ) by {
        assert(a.date.stamp >= b.date.stamp >= c.date.stamp);
    }
}

/// Sorts posts by date, newest first, with a stable insertion sort:
/// posts with equal dates keep their original order.
pub fn sort_posts(v: Vec<Post>) -> (r: Vec<Post>)
    ensures
        r@ == sort_by_ins(date_order(), v@),
{
    let ghost orig = v@;
    let mut rest = v;
    let mut r: Vec<Post> = Vec::new();
    let ghost mut k: int = 0;
    proof {
        assert(orig.take(0) =~= Seq::<Post>::empty());
        assert(r@ =~= sort_by_ins(date_order(), orig.take(0)));
        assert(rest@ =~= orig.skip(0));
    }
    while rest.len() > 0
        invariant
            0 <= k <= orig.len(),
            rest@ == orig.skip(k),
            rest@.len() == orig.len() - k,
            r@ == sort_by_ins(date_order(), orig.take(k)),
        decreases rest.len(),
    {
        let x = rest.remove(0);
        proof {
            assert(rest@ =~= orig.skip(k).drop_first());
            assert(orig.skip(k).drop_first() =~= orig.skip(k + 1));
            assert(x == orig.skip(k)[0]);
            assert(orig.skip(k)[0] == orig[k]);
            lemma_sort_by_ins_step(date_order(), orig, k);
        }
        let ghost rv = r@;
        let mut j: usize = 0;
        let mut searching = true;
        while searching && j < r.len()
            invariant
                0 <= j <= r.len(),
                rv == r@,
                forall|m: int| 0 <= m < j ==> date_order()(#[trigger] rv[m], x),
                !searching && j < r.len() ==> !date_order()(rv[j as int], x),
            decreases r.len() - j, (if searching {
                1int
            } else {
                0int
            }),
        {
            proof {
                assert(date_order()(rv[j as int], x) == (rv[j as int].date.stamp
                    >= x.date.stamp));
            }
            if r[j].date.stamp >= x.date.stamp {
                j = j + 1;
            } else {
                searching = false;
            }
        }
        proof {
            if (j as int) < rv.len() {
                assert(date_order()(rv[j as int], x) == (rv[j as int].date.stamp
                    >= x.date.stamp));
            }
            lemma_insert_by_at(date_order(), rv, x, j as int);
        }
        r.insert(j, x);
        proof {
            assert(r@ =~= rv.take(j as int) + seq![x] + rv.skip(j as int));
            k = k + 1;
        }
    }
    proof {
        assert(orig.take(orig.len() as int) =~= orig);
    }
    r
}

/// All fields but the two neighbour links are unchanged.
pub open spec fn same_except_links(p: Post, q: Post) -> bool {
    &&& q.date == p.date
    &&& q.description == p.description
    &&& q.src == p.src
    &&& q.md == p.md
    &&& q.title == p.title
    &&& q.tags == p.tags
    &&& q.word_count == p.word_count
    &&& q.repo == p.repo
    &&& q.blog_title == p.blog_title
    &&& q.blog_url == p.blog_url
    &&& q.quipquick_version == p.quipquick_version
    &&& q.google_analytics == p.google_analytics
    &&& q.read_time == p.read_time
    &&& q.discussion_url == p.discussion_url
    &&& q.meta_img == p.meta_img
    &&& q.langs == p.langs
}

/// What cross-linking makes of position `i` of the sorted list: the
/// newer link names the post just before it (absent for the newest), the
/// older link the post just after (absent for the oldest); link titles
/// are title-cased again, as the page shows them.
pub open spec fn post_linked(orig: Seq<Post>, q: Post, i: int) -> bool {
    &&& same_except_links(orig[i], q)
    &&& (i == 0 ==> q.newer_post is None)
    &&& (i > 0 ==> match q.newer_post {
        Some(l) => l.0@ == titlecased_of(orig[i - 1].title@) && l.1@ == orig[i - 1].src@,
        None => false,
    })
    &&& (i == orig.len() - 1 ==> q.older_post is None)
    &&& (i < orig.len() - 1 ==> match q.older_post {
        Some(l) => l.0@ == titlecased_of(orig[i + 1].title@) && l.1@ == orig[i + 1].src@,
        None => false,
    })
}

/// Assigns the neighbour links over the already sorted list; the only
/// mutation a post sees after construction.
pub fn link_posts(posts: &mut Vec<Post>)
    ensures
        final(posts)@.len() == old(posts)@.len(),
        forall|i: int|
            0 <= i < old(posts)@.len() ==> post_linked(old(posts)@, #[trigger] final(posts)@[i], i),
{
    let ghost orig = posts@;
    let n = posts.len();
    let mut infos: Vec<(String, String)> = Vec::new();
    let mut i: usize = 0;
    while i < n
        invariant
            0 <= i <= n,
            n == posts@.len(),
            posts@ == orig,
            infos@.len() == i,
            forall|k: int|
                0 <= k < i ==> (#[trigger] infos@[k]).0@ == titlecased_of(orig[k].title@)
                    && infos@[k].1@ == orig[k].src@,
        decreases n - i,
    {
        let t = crate::trusted::titlecase_text(posts[i].title.as_str());
        let s = posts[i].src.clone();
        infos.push((t, s));
        i = i + 1;
    }
    let mut j: usize = 0;
    while j < n
        invariant
            0 <= j <= n,
            n == posts@.len(),
            n == orig.len(),
            infos@.len() == n,
            forall|k: int|
                0 <= k < n ==> (#[trigger] infos@[k]).0@ == titlecased_of(orig[k].title@)
                    && infos@[k].1@ == orig[k].src@,
            forall|k: int| j <= k < n ==> #[trigger] posts@[k] == orig[k],
            forall|k: int| 0 <= k < j ==> post_linked(orig, #[trigger] posts@[k], k),
        decreases n - j,
    {
        let newer: Option<(String, String)> = if j > 0 {
            Some((infos[j - 1].0.clone(), infos[j - 1].1.clone()))
        } else {
            None
        };
        let older: Option<(String, String)> = if j + 1 < n {
            Some((infos[j + 1].0.clone(), infos[j + 1].1.clone()))
        } else {
            None
        };
        let ghost before = posts@;
        let p = posts.remove(j);
        let q = Post { newer_post: newer, older_post: older, ..p };
        posts.insert(j, q);
        proof {
            assert(posts@ =~= before.update(j as int, q));
            assert(post_linked(orig, q, j as int));
        }
        j = j + 1;
    }
}

/// Posts with pairwise distinct dates sort into strictly descending
/// date order.
pub proof fn lemma_sorted_strictly_desc(s: Seq<Post>)
    requires
        forall|i: int, j: int|
            0 <= i < j < s.len() ==> (#[trigger] s[i]).date.stamp != (#[trigger] s[j]).date.stamp,
    ensures
        forall|i: int, j: int|
            0 <= i < j < sort_by_ins(date_order(), s).len() ==> (#[trigger] sort_by_ins(
                date_order(),
                s,
            )[i]).date.stamp > (#[trigger] sort_by_ins(date_order(), s)[j]).date.stamp,
{
    broadcast use vstd::seq_lib::group_to_multiset_ensures;

    lemma_date_order_total();
    lemma_sort_by_ins_sorted(date_order(), s);
    lemma_sort_by_ins_multiset(date_order(), s);
    let r = sort_by_ins(date_order(), s);
    assert forall|i: int, j: int| 0 <= i < j < r.len() implies (#[trigger] r[i]).date.stamp > (
    #[trigger] r[j]).date.stamp by {
        assert(date_order()(r[i], r[j]));
        assert(r[i].date.stamp >= r[j].date.stamp);
        if r[i].date.stamp == r[j].date.stamp {
            if r[i] == r[j] {
                // the same value twice: it occurs twice in the input,
                // so two input positions share a date
                assert(r.to_multiset().count(r[i]) >= 2) by {
                    lemma_dup_count(r, i, j);
                }
                assert(s.to_multiset().count(r[i]) >= 2);
                assert(s.contains(r[i]));
                let a = choose|a: int| 0 <= a < s.len() && s[a] == r[i];
                let s1 = s.remove(a);
                assert(s1.to_multiset() =~= s.to_multiset().remove(r[i]));
                assert(s1.to_multiset().count(r[i]) >= 1);
                assert(s1.contains(r[i]));
                let b = choose|b: int| 0 <= b < s1.len() && s1[b] == r[i];
                if b < a {
                    assert(s[b] == s1[b]);
                    assert(s[b].date.stamp != s[a].date.stamp);
                } else {
                    assert(s[b + 1] == s1[b]);
                    assert(s[a].date.stamp != s[b + 1].date.stamp);
                }
            } else {
                // two values with the same date: both occur in the input
                assert(r.contains(r[i]));
                assert(r.contains(r[j]));
                assert(r.to_multiset().count(r[i]) > 0);
                assert(r.to_multiset().count(r[j]) > 0);
                assert(s.to_multiset().count(r[i]) > 0);
                assert(s.to_multiset().count(r[j]) > 0);
                assert(s.contains(r[i]));
                assert(s.contains(r[j]));
                let a = choose|a: int| 0 <= a < s.len() && s[a] == r[i];
                let b = choose|b: int| 0 <= b < s.len() && s[b] == r[j];
                assert(a != b);
                if a < b {
                    assert(s[a].date.stamp != s[b].date.stamp);
                } else {
                    assert(s[b].date.stamp != s[a].date.stamp);
                }
            }
        }
    }
}

/// A value at two positions is counted at least twice.
proof fn lemma_dup_count(s: Seq<Post>, i: int, j: int)
    requires
        0 <= i < j < s.len(),
        s[i] == s[j],
    ensures
        s.to_multiset().count(s[i]) >= 2,
{
    broadcast use vstd::seq_lib::group_to_multiset_ensures;

    let s1 = s.remove(j);
    assert(s1.to_multiset() =~= s.to_multiset().remove(s[j]));
    assert(s1[i] == s[i]);
    assert(s1.contains(s[i]));
    assert(s1.to_multiset().count(s[i]) >= 1);
    assert(s.to_multiset().count(s[i]) == s1.to_multiset().count(s[i]) + 1);
}

/// Given posts with pairwise distinct dates, the assembled list is in
/// strictly descending date order and the neighbour links form the
/// correct chain: each post's newer link names the post just before it
/// and its older link the post just after it.
pub proof fn lemma_assembly_chain(orig: Seq<Post>, linked: Seq<Post>)
    requires
        forall|i: int, j: int|
            0 <= i < j < orig.len() ==> (#[trigger] orig[i]).date.stamp != (
            #[trigger] orig[j]).date.stamp,
        linked.len() == sort_by_ins(date_order(), orig).len(),
        forall|i: int|
            0 <= i < linked.len() ==> post_linked(
                sort_by_ins(date_order(), orig),
                #[trigger] linked[i],
                i,
            ),
    ensures
        forall|i: int, j: int|
            0 <= i < j < linked.len() ==> (#[trigger] linked[i]).date.stamp > (
            #[trigger] linked[j]).date.stamp,
        forall|i: int|
            1 <= i < linked.len() ==> match (#[trigger] linked[i]).newer_post {
                Some(l) => l.1@ == linked[i - 1].src@,
                None => false,
            },
        forall|i: int|
            0 <= i < linked.len() - 1 ==> match (#[trigger] linked[i]).older_post {
                Some(l) => l.1@ == linked[i + 1].src@,
                None => false,
            },
{
    let sorted = sort_by_ins(date_order(), orig);
    lemma_sorted_strictly_desc(orig);
    assert forall|i: int, j: int| 0 <= i < j < linked.len() implies (
    #[trigger] linked[i]).date.stamp > (#[trigger] linked[j]).date.stamp by {
        assert(post_linked(sorted, linked[i], i));
        assert(post_linked(sorted, linked[j], j));
    }
    assert forall|i: int| 1 <= i < linked.len() implies match (#[trigger] linked[i]).newer_post {
        Some(l) => l.1@ == linked[i - 1].src@,
        None => false,
    } by {
        assert(post_linked(sorted, linked[i], i));
        assert(post_linked(sorted, linked[i - 1], i - 1));
    }
    assert forall|i: int| 0 <= i < linked.len() - 1 implies match (
    #[trigger] linked[i]).older_post {
        Some(l) => l.1@ == linked[i + 1].src@,
        None => false,
    } by {
        assert(post_linked(sorted, linked[i], i));
        assert(post_linked(sorted, linked[i + 1], i + 1));
    }
}

/// Two strictly descending sequences with the same elements are equal.
proof fn lemma_strictly_sorted_unique(a: Seq<Post>, b: Seq<Post>)
    requires
        a.to_multiset() == b.to_multiset(),
        forall|i: int, j: int|
            0 <= i < j < a.len() ==> (#[trigger] a[i]).date.stamp > (#[trigger] a[j]).date.stamp,
        forall|i: int, j: int|
            0 <= i < j < b.len() ==> (#[trigger] b[i]).date.stamp > (#[trigger] b[j]).date.stamp,
    ensures
        a == b,
    decreases a.len(),
{
    broadcast use vstd::seq_lib::group_to_multiset_ensures;

    if a.len() == 0 {
        assert(b.len() == a.to_multiset().len());
        assert(a =~= b);
    } else {
        assert(a.to_multiset().count(a[0]) > 0);
        assert(b.contains(a[0]));
        let j = choose|j: int| 0 <= j < b.len() && b[j] == a[0];
        assert(b.to_multiset().count(b[0]) > 0);
        assert(a.contains(b[0]));
        let k = choose|k: int| 0 <= k < a.len() && a[k] == b[0];
        if j > 0 {
            assert(b[0].date.stamp > a[0].date.stamp);
            assert(a[0].date.stamp >= a[k].date.stamp);
        }
        assert(j == 0);
        assert(a[0] == b[0]);
        let a1 = a.remove(0);
        let b1 = b.remove(0);
        assert(a1.to_multiset() =~= a.to_multiset().remove(a[0]));
        assert(b1.to_multiset() =~= b.to_multiset().remove(b[0]));
        assert forall|i: int, m: int|
            0 <= i < m < a1.len() implies (#[trigger] a1[i]).date.stamp > (
        #[trigger] a1[m]).date.stamp by {
            assert(a1[i] == a[i + 1] && a1[m] == a[m + 1]);
        }
        assert forall|i: int, m: int|
            0 <= i < m < b1.len() implies (#[trigger] b1[i]).date.stamp > (
        #[trigger] b1[m]).date.stamp by {
            assert(b1[i] == b[i + 1] && b1[m] == b[m + 1]);
        }
        lemma_strictly_sorted_unique(a1, b1);
        assert(a.len() == a.to_multiset().len());
        assert(b.len() == b.to_multiset().len());
        assert forall|i: int| 1 <= i < a.len() implies a[i] == b[i] by {
            assert(a1[i - 1] == a[i]);
            assert(b1[i - 1] == b[i]);
        }
        assert(a =~= b);
    }
}

/// With pairwise distinct dates, the assembled order does not depend on
/// the configured content order: any two orderings of the same posts
/// sort to the same list.
pub proof fn lemma_sort_order_independent(s1: Seq<Post>, s2: Seq<Post>)
    requires
        s1.to_multiset() == s2.to_multiset(),
        forall|i: int, j: int|
            0 <= i < j < s1.len() ==> (#[trigger] s1[i]).date.stamp != (
            #[trigger] s1[j]).date.stamp,
    ensures
        sort_by_ins(date_order(), s1) == sort_by_ins(date_order(), s2),
{
    broadcast use vstd::seq_lib::group_to_multiset_ensures;

    // distinctness carries to the second ordering through the multiset
    assert forall|i: int, j: int|
        0 <= i < j < s2.len() implies (#[trigger] s2[i]).date.stamp != (
    #[trigger] s2[j]).date.stamp by {
        if s2[i].date.stamp == s2[j].date.stamp {
            if s2[i] == s2[j] {
                lemma_dup_count(s2, i, j);
                assert(s1.to_multiset().count(s2[i]) >= 2);
                assert(s1.contains(s2[i]));
                let a = choose|a: int| 0 <= a < s1.len() && s1[a] == s2[i];
                let r1 = s1.remove(a);
                assert(r1.to_multiset() =~= s1.to_multiset().remove(s2[i]));
                assert(r1.to_multiset().count(s2[i]) >= 1);
                assert(r1.contains(s2[i]));
                let b = choose|b: int| 0 <= b < r1.len() && r1[b] == s2[i];
                if b < a {
                    assert(s1[b] == r1[b]);
                    assert(s1[b].date.stamp != s1[a].date.stamp);
                } else {
                    assert(s1[b + 1] == r1[b]);
                    assert(s1[a].date.stamp != s1[b + 1].date.stamp);
                }
            } else {
                assert(s2.to_multiset().count(s2[i]) > 0);
                assert(s2.to_multiset().count(s2[j]) > 0);
                assert(s1.to_multiset().count(s2[i]) > 0);
                assert(s1.to_multiset().count(s2[j]) > 0);
                assert(s1.contains(s2[i]));
                assert(s1.contains(s2[j]));
                let a = choose|a: int| 0 <= a < s1.len() && s1[a] == s2[i];
                let b = choose|b: int| 0 <= b < s1.len() && s1[b] == s2[j];
                assert(a != b);
                if a < b {
                    assert(s1[a].date.stamp != s1[b].date.stamp);
                } else {
                    assert(s1[b].date.stamp != s1[a].date.stamp);
                }
            }
        }
    }
    lemma_sorted_strictly_desc(s1);
    lemma_sorted_strictly_desc(s2);
    lemma_sort_by_ins_multiset(date_order(), s1);
    lemma_sort_by_ins_multiset(date_order(), s2);
    lemma_strictly_sorted_unique(sort_by_ins(date_order(), s1), sort_by_ins(date_order(), s2));
}

/// One page of a paginated listing: the slice bounds of its posts, the
/// link row for every page, and the neighbouring pages when they exist.
pub struct PageLink {
    pub id: u64,
    pub current: bool,
    pub link: String,
}

pub struct PageBundle {
    pub start: usize,
    pub end: usize,
    pub pages: Vec<PageLink>,
    pub prev: Option<String>,
    pub next: Option<String>,
}

/// Five posts to a page; the last page takes the remainder.
pub open spec fn page_count_of(n: nat) -> nat {
    (n + 4) / 5
}

/// Where a page's file lives relative to its listing root: the first
/// page is `index.html`, later pages are numbered from 2.
pub open spec fn page_link_of(k: nat) -> Seq<char> {
    if k == 0 {
        "/index.html"@
    } else {
        "/index"@ + dec_digits_of(k + 1) + ".html"@
    }
}

/// What each bundle of a listing over `total` posts must hold.
pub open spec fn wf_bundle(b: PageBundle, i: int, total: nat, prefix: Seq<char>) -> bool {
    &&& b.start == 5 * i
    &&& b.end == (if 5 * i + 5 <= total {
        5 * i + 5
    } else {
        total as int
    })
    &&& b.pages@.len() == page_count_of(total)
    &&& forall|k: int|
        0 <= k < b.pages@.len() ==> (#[trigger] b.pages@[k]).id == k + 1 && b.pages@[k].current
            == (k == i) && b.pages@[k].link@ == page_link_of(k as nat)
    &&& (i == 0 ==> b.prev is None)
    &&& (i > 0 ==> match b.prev {
        Some(s) => s@ == prefix + page_link_of((i - 1) as nat),
        None => false,
    })
    &&& (i == page_count_of(total) - 1 ==> b.next is None)
    &&& (i < page_count_of(total) - 1 ==> match b.next {
        Some(s) => s@ == prefix + page_link_of((i + 1) as nat),
        None => false,
    })
}

/// Builds the page link path for page `k` (counting from zero).
fn page_link_string(k: usize) -> (r: String)
    requires
        k < usize::MAX,
    ensures
        r@ == page_link_of(k as nat),
{
    if k == 0 {
        "/index.html".to_owned()
    } else {
        let mut out = "/index".to_owned();
        proof {
            assert(k as u64 as nat + 1 == k as nat + 1);
        }
        push_u64(&mut out, (k as u64) + 1);
        out.append(".html");
        out
    }
}

/// Splits `total` posts into pages of five: page `i` covers posts
/// `5 * i` up to `5 * i + 5` (the last page stopping at `total`), every
/// page lists all page links with its own marked current, and the
/// previous and next links are present exactly away from the ends.
pub fn paginate(total: usize, prefix: &str) -> (r: Vec<PageBundle>)
    ensures
        r@.len() == page_count_of(total as nat),
        forall|i: int| 0 <= i < r@.len() ==> wf_bundle(#[trigger] r@[i], i, total as nat, prefix@),
{
    let count = (total / 5) + (if total % 5 == 0 {
        0
    } else {
        1
    });
    proof {
        assert(count == page_count_of(total as nat));
        assert(count <= total / 5 + 1);
    }
    let mut r: Vec<PageBundle> = Vec::new();
    let mut i: usize = 0;
    while i < count
        invariant
            0 <= i <= count,
            count == page_count_of(total as nat),
            count <= total / 5 + 1,
            r@.len() == i,
            forall|k: int|
                0 <= k < i ==> wf_bundle(#[trigger] r@[k], k, total as nat, prefix@),
        decreases count - i,
    {
        let mut pages: Vec<PageLink> = Vec::new();
        let mut k: usize = 0;
        while k < count
            invariant
                0 <= k <= count,
                count <= total / 5 + 1,
                pages@.len() == k,
                forall|m: int|
                    0 <= m < k ==> (#[trigger] pages@[m]).id == m + 1 && pages@[m].current == (m
                        == i) && pages@[m].link@ == page_link_of(m as nat),
            decreases count - k,
        {
            pages.push(PageLink { id: (k as u64) + 1, current: k == i, link: page_link_string(k) });
            k = k + 1;
        }
        proof {
            vstd::arithmetic::div_mod::lemma_fundamental_div_mod(total as int, 5);
            assert(5 * (i as int) < total || total == 0);
        }
        let start = 5 * i;
        let end = if total - start >= 5 {
            start + 5
        } else {
            total
        };
        let prev: Option<String> = if i > 0 {
            let mut p = prefix.to_owned();
            let link = page_link_string(i - 1);
            p.append(link.as_str());
            Some(p)
        } else {
            None
        };
        let next: Option<String> = if i + 1 < count {
            let mut p = prefix.to_owned();
            let link = page_link_string(i + 1);
            p.append(link.as_str());
            Some(p)
        } else {
            None
        };
        r.push(PageBundle { start: start, end: end, pages: pages, prev: prev, next: next });
        i = i + 1;
    }
    r
}

/// Pagination arithmetic: there are ceiling-of-fifths pages, and the
/// last page holds the remainder — five exactly when the total is a
/// multiple of five.
pub proof fn lemma_pagination_law(total: nat)
    requires
        total > 0,
    ensures
        5 * (page_count_of(total) - 1) < total <= 5 * page_count_of(total),
        total - 5 * (page_count_of(total) - 1) == (if total % 5 == 0 {
            5nat
        } else {
            total % 5
        }),
{
    assert(total == 5 * (total / 5) + total % 5) by {
        vstd::arithmetic::div_mod::lemma_fundamental_div_mod(total as int, 5);
    }
}

} // verus!
