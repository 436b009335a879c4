use quipquick::assemble::{link_posts, paginate, sort_posts};
use quipquick::feed::{build_feed_items, feed_xml};
use quipquick::frontmatter::FrontmatterInfo;
use quipquick::post::{build_post, make_post, read_time_label, BuildError, Post, PostDate};
use quipquick::publish::{generate_google_analytics_id, BlogConfig};
use quipquick::tags::build_tag_index;

fn config() -> BlogConfig {
    BlogConfig {
        blog_title: String::from("My Blog"),
        blog_description: String::from("about things"),
        repo: String::from("https://example.org/repo"),
        blog_url: String::from("https://example.org"),
        google_analytics_id: String::from("G-1"),
        discussion_url: None,
        version: String::from("0.1.0"),
    }
}

fn post_with(title: &str, date: &str, tags: Vec<String>) -> Post {
    let fm = FrontmatterInfo {
        title: String::from(title),
        date: String::from(date),
        description: String::from("desc"),
        tags,
        is_draft: false,
    };
    build_post(&fm, String::from("<p>x</p>"), 476, vec![], None, title, &config())
        .ok()
        .unwrap()
}

#[test]
fn three_posts_sort_newest_first_and_chain() {
    // dated 2021-01-01, 2021-06-01, 2021-12-01: the assembled order is
    // December, June, January; June links newer to December and older to
    // January
    let jan = post_with("jan post", "2021-01-01", vec![]);
    let jun = post_with("jun post", "2021-06-01", vec![]);
    let dec = post_with("dec post", "2021-12-01", vec![]);
    let mut posts = sort_posts(vec![jan, jun, dec]);
    link_posts(&mut posts);
    assert_eq!(posts[0].src, "dec post");
    assert_eq!(posts[1].src, "jun post");
    assert_eq!(posts[2].src, "jan post");
    let jun_newer = posts[1].newer_post.as_ref().unwrap();
    assert_eq!(jun_newer.1, "dec post");
    assert_eq!(jun_newer.0, "Dec Post");
    let jun_older = posts[1].older_post.as_ref().unwrap();
    assert_eq!(jun_older.1, "jan post");
    assert!(posts[0].newer_post.is_none());
    assert!(posts[2].older_post.is_none());
}

#[test]
fn make_post_computes_derived_fields() {
    let p = post_with("hello world of rust", "2021-06-01", vec![String::from("My Tag")]);
    assert_eq!(p.title, "Hello World of Rust");
    assert_eq!(p.word_count, 476);
    assert_eq!(p.read_time, 2);
    assert_eq!(p.tags.len(), 1);
    assert_eq!(p.tags[0].slug, "my-tag");
    assert_eq!(p.tags[0].tag, "my tag");
    assert!(p.older_post.is_none());
    assert!(p.newer_post.is_none());
    assert_eq!(p.date.year, 2021);
    assert_eq!(p.date.month, 6);
    assert_eq!(p.date.day, 1);
}

#[test]
fn make_post_rejects_a_bad_date() {
    let fm = FrontmatterInfo {
        title: String::from("t"),
        date: String::from("not a date at all"),
        description: String::new(),
        tags: vec![],
        is_draft: false,
    };
    let r = build_post(&fm, String::new(), 0, vec![], None, "t", &config());
    match r {
        Err(BuildError::InvalidDate { date }) => assert_eq!(date, "not a date at all"),
        Ok(_) => panic!("a nonsense date must be rejected"),
    }
    // without a parsed date, construction fails with the date text
    let r2 = make_post(&fm, None, String::new(), 0, vec![], None, "t", &config());
    match r2 {
        Err(BuildError::InvalidDate { date }) => assert_eq!(date, "not a date at all"),
        Ok(_) => panic!("a missing date must be rejected"),
    }
    // with a parsed date, construction succeeds
    let d = PostDate { stamp: 7, year: 2021, month: 6, day: 1 };
    let fm2 = FrontmatterInfo {
        title: String::from("t"),
        date: String::from("2021-06-01"),
        description: String::new(),
        tags: vec![],
        is_draft: false,
    };
    let p = make_post(&fm2, Some(d), String::new(), 0, vec![], None, "t", &config())
        .ok()
        .unwrap();
    assert_eq!(p.date.stamp, 7);
}

#[test]
fn languages_are_sorted_in_the_post() {
    let fm = FrontmatterInfo {
        title: String::from("t"),
        date: String::from("2021-06-01"),
        description: String::new(),
        tags: vec![],
        is_draft: false,
    };
    let langs = vec![String::from("rust"), String::from("c"), String::from("python")];
    let p = build_post(&fm, String::new(), 0, langs, None, "t", &config()).ok().unwrap();
    assert_eq!(p.langs, vec!["c", "python", "rust"]);
}

#[test]
fn pagination_of_twelve_posts() {
    // ceil(12 / 5) = 3 pages; the last page holds 12 mod 5 = 2 posts
    let pages = paginate(12, "");
    assert_eq!(pages.len(), 3);
    assert_eq!((pages[0].start, pages[0].end), (0, 5));
    assert_eq!((pages[1].start, pages[1].end), (5, 10));
    assert_eq!((pages[2].start, pages[2].end), (10, 12));
    assert!(pages[0].prev.is_none());
    assert!(pages[2].next.is_none());
    assert_eq!(pages[1].prev.as_ref().unwrap(), "/index.html");
    assert_eq!(pages[0].next.as_ref().unwrap(), "/index2.html");
    assert_eq!(pages[2].prev.as_ref().unwrap(), "/index2.html");
    assert_eq!(pages[0].pages.len(), 3);
    assert_eq!(pages[0].pages[0].id, 1);
    assert!(pages[0].pages[0].current);
    assert!(!pages[1].pages[0].current);
    assert_eq!(pages[0].pages[2].link, "/index3.html");
}

#[test]
fn pagination_multiple_of_five() {
    let pages = paginate(10, "");
    assert_eq!(pages.len(), 2);
    assert_eq!((pages[1].start, pages[1].end), (5, 10));
}

#[test]
fn pagination_of_nothing() {
    let pages = paginate(0, "");
    assert_eq!(pages.len(), 0);
}

#[test]
fn tag_pages_scope_their_neighbour_links() {
    let pages = paginate(6, "/tags/rust");
    assert_eq!(pages.len(), 2);
    assert_eq!(pages[1].prev.as_ref().unwrap(), "/tags/rust/index.html");
    assert_eq!(pages[0].next.as_ref().unwrap(), "/tags/rust/index2.html");
    // the page rows themselves stay unscoped
    assert_eq!(pages[0].pages[1].link, "/index2.html");
}

#[test]
fn tag_index_groups_posts_by_slug() {
    let a = post_with("a", "2021-03-01", vec![String::from("Rust"), String::from("Proofs")]);
    let b = post_with("b", "2021-02-01", vec![String::from("rust")]);
    let c = post_with("c", "2021-01-01", vec![]);
    let posts = vec![a, b, c];
    let idx = build_tag_index(&posts);
    assert_eq!(idx.len(), 2);
    assert_eq!(idx[0].slug, "rust");
    assert_eq!(idx[0].tag, "rust");
    assert_eq!(idx[0].posts, vec![0, 1]);
    assert_eq!(idx[1].slug, "proofs");
    assert_eq!(idx[1].posts, vec![0]);
}

#[test]
fn tag_index_keeps_duplicate_occurrences() {
    // two raw tags of one post collapsing to one slug give two entries in
    // its occurrence list, as the single pass records each tag
    let a = post_with("a", "2021-03-01", vec![String::from("Rust"), String::from("rust")]);
    let idx = build_tag_index(&vec![a]);
    assert_eq!(idx.len(), 1);
    assert_eq!(idx[0].posts, vec![0, 0]);
}

#[test]
fn feed_items_mirror_the_posts() {
    let mut p = post_with("some post", "2021-06-01", vec![]);
    p.discussion_url = Some(String::from("https://example.org/talk"));
    let items = build_feed_items(&vec![p], "https://example.org");
    assert_eq!(items.len(), 1);
    assert_eq!(items[0].link, "https://example.org/some post");
    assert_eq!(items[0].guid, items[0].link);
    assert_eq!(items[0].title, "Some Post");
    assert_eq!(items[0].description, "desc");
    assert_eq!(items[0].comments.as_ref().unwrap(), "https://example.org/talk");
}

#[test]
fn feed_xml_holds_channel_and_items() {
    let p = post_with("some post", "2021-06-01", vec![]);
    let posts = vec![p];
    let items = build_feed_items(&posts, "https://example.org");
    let xml = feed_xml(items, &config(), None);
    assert!(xml.contains("<title>My Blog</title>"));
    assert!(xml.contains("<link>https://example.org</link>"));
    assert!(xml.contains("<item>"));
    assert!(xml.contains("<guid>https://example.org/some post</guid>"));
    assert!(!xml.contains("<image>"));
    let logo = String::from("logo.png");
    let again = build_feed_items(&posts, "https://example.org");
    let xml2 = feed_xml(again, &config(), Some(&logo));
    assert!(xml2.contains("<image>"));
    assert!(xml2.contains("https://example.org/logo.png"));
    // same inputs give the same document
    let third = build_feed_items(&posts, "https://example.org");
    let xml3 = feed_xml(third, &config(), None);
    assert_eq!(xml, xml3);
}

#[test]
fn analytics_snippet_expected_text() {
    let s = generate_google_analytics_id("G-42");
    assert_eq!(
        s,
        "<!-- Google tag (gtag.js) -->\n<script async src=\"https://www.googletagmanager.com/gtag/js?id=G-42\"></script>\n<script>\nwindow.dataLayer = window.dataLayer || [];\nfunction gtag() { dataLayer.push(arguments); }\ngtag('js', new Date());\ngtag('config', 'G-42');\n</script>"
    );
}

#[test]
fn date_and_read_time_formatting() {
    let d = PostDate { stamp: 0, year: 2021, month: 6, day: 1 };
    assert_eq!(d.date_string(), "2021-06-01");
    let d2 = PostDate { stamp: 0, year: 2021, month: 12, day: 25 };
    assert_eq!(d2.date_string(), "2021-12-25");
    assert_eq!(read_time_label(0), "0 Min");
    assert_eq!(read_time_label(1), "1 Min");
    assert_eq!(read_time_label(2), "2 Mins");
}

#[test]
fn short_posts_read_in_zero_minutes() {
    // 200 words at 238 words per minute rounds down to 0
    let fm = FrontmatterInfo {
        title: String::from("t"),
        date: String::from("2021-06-01"),
        description: String::new(),
        tags: vec![],
        is_draft: false,
    };
    let p = build_post(&fm, String::new(), 200, vec![], None, "t", &config()).ok().unwrap();
    assert_eq!(p.read_time, 0);
}

#[test]
fn equal_dates_keep_their_order() {
    let a = post_with("first written", "2021-06-01", vec![]);
    let b = post_with("second written", "2021-06-01", vec![]);
    let c = post_with("newer", "2021-07-01", vec![]);
    let sorted = sort_posts(vec![a, b, c]);
    assert_eq!(sorted[0].src, "newer");
    assert_eq!(sorted[1].src, "first written");
    assert_eq!(sorted[2].src, "second written");
}

#[test]
fn oversized_offset_dates_are_rejected() {
    // a trailing UTC-offset designator of 24 hours or more cannot be
    // represented; such a date text is rejected, naming the text
    let fm = FrontmatterInfo {
        title: String::from("t"),
        date: String::from("2021-02-21+99:00"),
        description: String::new(),
        tags: vec![],
        is_draft: false,
    };
    let r = build_post(&fm, String::new(), 0, vec![], None, "t", &config());
    match r {
        Err(BuildError::InvalidDate { date }) => assert_eq!(date, "2021-02-21+99:00"),
        Ok(_) => panic!("an out-of-range offset must be rejected"),
    }
    // an in-range offset still parses
    let fm2 = FrontmatterInfo {
        title: String::from("t"),
        date: String::from("2021-02-21+09:00"),
        description: String::new(),
        tags: vec![],
        is_draft: false,
    };
    let p = build_post(&fm2, String::new(), 0, vec![], None, "t", &config()).ok().unwrap();
    assert_eq!(p.date.year, 2021);
    assert_eq!(p.date.month, 2);
}
