use quipquick::gallery::{make_gallery_image, preview_name, sort_gallery_images, GalleryImage};
use quipquick::post::BuildError;
use quipquick::post::PostDate;
use quipquick::scaffold::{folder_slug, manifest_scaffold, post_scaffold};
use quipquick::text::{count_words, split_bars, str_eq, str_lex_le};

#[test]
fn word_counting() {
    assert_eq!(count_words(""), 0);
    assert_eq!(count_words("   "), 0);
    assert_eq!(count_words("one"), 1);
    assert_eq!(count_words("hello  world"), 2);
    assert_eq!(count_words("  a b\tc\nd  "), 4);
}

#[test]
fn string_equality_and_order() {
    assert!(str_eq("abc", "abc"));
    assert!(!str_eq("abc", "abd"));
    assert!(!str_eq("abc", "ab"));
    assert!(str_lex_le("abc", "abd"));
    assert!(str_lex_le("ab", "abc"));
    assert!(!str_lex_le("b", "abc"));
    assert!(str_lex_le("", "a"));
}

#[test]
fn splitting_on_bars() {
    let p = split_bars("caption|src1|src2");
    assert_eq!(p, vec!["caption", "src1", "src2"]);
    let q = split_bars("no bars");
    assert_eq!(q, vec!["no bars"]);
    let r = split_bars("|");
    assert_eq!(r, vec!["", ""]);
}

#[test]
fn scaffold_texts() {
    let m = manifest_scaffold("My Blog", "../dist");
    assert!(m.starts_with("title = \"My Blog\"\n"));
    assert!(m.contains("target = \"../dist\"\n"));
    assert!(m.contains("content =[\"dummy_post\",]"));
    let p = post_scaffold("A Post", "2021-06-01");
    assert!(p.starts_with("---\ntitle: \"A Post\"\ndate: \"2021-06-01\"\n"));
    assert!(p.ends_with("content here\n"));
}

#[test]
fn folder_slug_uses_underscores() {
    assert_eq!(folder_slug("My New Post"), "my_new_post");
}

#[test]
fn preview_names() {
    assert_eq!(preview_name("clip.mp4"), "clip_preview.png");
    assert_eq!(preview_name("videos/clip.tar.mp4"), "clip.tar_preview.png");
    assert_eq!(preview_name("noext"), "noext_preview.png");
}

#[test]
fn gallery_images_sort_newest_first() {
    let mk = |stamp: i64, title: &str| GalleryImage {
        date: PostDate { stamp, year: 2021, month: 1, day: 1 },
        title: String::from(title),
        file: String::from("f.mp4"),
        preview: String::from("f_preview.png"),
    };
    let sorted = sort_gallery_images(vec![mk(10, "a"), mk(30, "b"), mk(20, "c")]);
    assert_eq!(sorted[0].title, "b");
    assert_eq!(sorted[1].title, "c");
    assert_eq!(sorted[2].title, "a");
}

#[test]
fn gallery_images_are_built_from_plain_fields() {
    let item = make_gallery_image("a trip", "clips/trip.mp4", "2021-06-01")
        .ok()
        .unwrap();
    assert_eq!(item.title, "a trip");
    assert_eq!(item.file, "clips/trip.mp4");
    assert_eq!(item.preview, "trip_preview.png");
    assert_eq!(item.date.year, 2021);
    match make_gallery_image("a", "b.mp4", "never") {
        Err(BuildError::InvalidDate { date }) => assert_eq!(date, "never"),
        Ok(_) => panic!("a nonsense gallery date must be rejected"),
    }
}
