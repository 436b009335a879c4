use quipquick::frontmatter::FrontmatterInfo;
use quipquick::render::{
    append_footnote_table, render_markdown, ImageEffect, Node, RenderContext, SelectedMetaImage,
};

fn fresh_ctx() -> RenderContext {
    RenderContext::new(None)
}

fn render_to_string(node: &Node) -> (String, RenderContext) {
    let mut out = String::new();
    let mut ctx = fresh_ctx();
    render_markdown(node, &mut out, "posts", "dist", &mut ctx);
    (out, ctx)
}

#[test]
fn paragraph_and_text() {
    let tree = Node::Root {
        children: vec![Node::Paragraph {
            children: vec![Node::Text { text: String::from("hello world") }],
        }],
    };
    let (html, ctx) = render_to_string(&tree);
    assert_eq!(html, "<p>hello world</p>");
    assert_eq!(ctx.word_count, 2);
}

#[test]
fn word_count_counts_text_and_link_titles_only() {
    let tree = Node::Root {
        children: vec![
            Node::Paragraph { children: vec![Node::Text { text: String::from("one two three") }] },
            Node::Link {
                title: Some(String::from("four five")),
                url: String::from("https://example.org"),
                children: vec![],
            },
            Node::Code { lang: Some(String::from("rust")), code: String::from("not counted") },
            Node::InlineCode { code: String::from("nope") },
            Node::Html { html: String::from("<b>raw words here</b>") },
        ],
    };
    let (_, ctx) = render_to_string(&tree);
    assert_eq!(ctx.word_count, 5);
}

#[test]
fn heading_depth_is_not_clamped() {
    let tree = Node::Heading {
        depth: 9,
        children: vec![Node::Text { text: String::from("t") }],
    };
    let (html, _) = render_to_string(&tree);
    assert_eq!(html, "<h9>t</h9>");
}

#[test]
fn code_block_registers_language() {
    let tree = Node::Root {
        children: vec![
            Node::Code { lang: Some(String::from("rust")), code: String::from("fn x() {}") },
            Node::Code { lang: Some(String::from("rust")), code: String::from("fn y() {}") },
            Node::Code { lang: None, code: String::from("plain") },
        ],
    };
    let (html, ctx) = render_to_string(&tree);
    assert!(html.contains("<pre><code class=\"language-rust code-block\">fn x() {}</code></pre>"));
    assert!(html.contains("<pre><code>plain</code></pre>"));
    assert_eq!(ctx.langs.len(), 1);
    assert_eq!(ctx.langs[0], "rust");
}

#[test]
fn youtube_code_block_becomes_embed() {
    let tree = Node::Code { lang: Some(String::from("youtube")), code: String::from("vid123") };
    let (html, ctx) = render_to_string(&tree);
    assert!(html.starts_with("<iframe class=\"video\" src=\"https://www.youtube.com/embed/vid123\""));
    assert_eq!(ctx.langs.len(), 0);
}

#[test]
fn footnote_reference_before_definition() {
    // a reference before its definition: the reference renders [1] and the
    // table row 1 shows the body
    let tree = Node::Root {
        children: vec![
            Node::Paragraph {
                children: vec![
                    Node::Text { text: String::from("x") },
                    Node::FootnoteReference { id: String::from("a") },
                ],
            },
            Node::FootnoteDefinition {
                id: String::from("a"),
                children: vec![Node::Paragraph {
                    children: vec![Node::Text { text: String::from("body") }],
                }],
            },
        ],
    };
    let (mut html, ctx) = render_to_string(&tree);
    assert!(html.contains("<a class=\"footnote-ref\" href=\"#footnote_a\">[1]</a>"));
    assert_eq!(ctx.footnotes.len(), 1);
    assert_eq!(ctx.footnotes[0].id, "a");
    assert_eq!(ctx.footnotes[0].count, 1);
    assert_eq!(ctx.footnotes[0].html, "<p>body</p>");
    append_footnote_table(&mut html, ctx.footnotes);
    assert!(html.contains(
        "<table class=\"footnote-def\"><tr class=\"footnote-row\" id=\"footnote_a\"><td>[1]: </td><td><p>body</p></td></tr></table>"
    ));
}

#[test]
fn footnote_numbers_follow_encounter_order() {
    let tree = Node::Root {
        children: vec![
            Node::FootnoteReference { id: String::from("zz") },
            Node::FootnoteReference { id: String::from("aa") },
        ],
    };
    let (_, ctx) = render_to_string(&tree);
    assert_eq!(ctx.footnotes[0].id, "zz");
    assert_eq!(ctx.footnotes[0].count, 1);
    assert_eq!(ctx.footnotes[1].id, "aa");
    assert_eq!(ctx.footnotes[1].count, 2);
    // the table sorts rows by identifier, not by number
    let mut html = String::new();
    append_footnote_table(&mut html, ctx.footnotes);
    let aa = html.find("footnote_aa").unwrap();
    let zz = html.find("footnote_zz").unwrap();
    assert!(aa < zz);
    assert!(html.contains("id=\"footnote_aa\"><td>[2]: </td>"));
    assert!(html.contains("id=\"footnote_zz\"><td>[1]: </td>"));
}

#[test]
fn rendering_twice_is_identical() {
    let tree = Node::Root {
        children: vec![
            Node::Paragraph { children: vec![Node::Text { text: String::from("some words") }] },
            Node::FootnoteReference { id: String::from("n") },
            Node::Image {
                url: String::from("a.png"),
                alt: String::from("cap"),
                width: 100,
                height: 100,
            },
        ],
    };
    let (html1, ctx1) = render_to_string(&tree);
    let (html2, ctx2) = render_to_string(&tree);
    assert_eq!(html1, html2);
    assert_eq!(ctx1.word_count, ctx2.word_count);
    assert_eq!(ctx1.footnotes.len(), ctx2.footnotes.len());
    assert_eq!(ctx1.footnotes[0].count, ctx2.footnotes[0].count);
    let m1 = ctx1.meta_image.unwrap();
    let m2 = ctx2.meta_image.unwrap();
    assert_eq!(m1.url, m2.url);
    assert_eq!(m1.pixels, m2.pixels);
}

#[test]
fn oversized_image_gets_thumbnail() {
    // decoded at 1000 x 300: the shrink ratio is 0.768, the thumbnail
    // 768 x 230, named thumb_<original>
    let tree = Node::Image {
        url: String::from("wide.png"),
        alt: String::from("A caption|https://a<b.example"),
        width: 1000,
        height: 300,
    };
    let (html, ctx) = render_to_string(&tree);
    assert!(html.contains("src=\"thumb_wide.png\""));
    assert!(html.contains("original_src=\"wide.png\""));
    // the attribution source is HTML-escaped
    assert!(html.contains("https://a&lt;b.example"));
    assert_eq!(ctx.effects.len(), 2);
    match &ctx.effects[0] {
        ImageEffect::SaveThumbnail { source, target, width, height } => {
            assert_eq!(source, "posts/wide.png");
            assert_eq!(target, "dist/posts/thumb_wide.png");
            assert_eq!(*width, 768);
            assert_eq!(*height, 230);
        }
        _ => panic!("expected a thumbnail effect"),
    }
    match &ctx.effects[1] {
        ImageEffect::CopyImage { from, to } => {
            assert_eq!(from, "posts/wide.png");
            assert_eq!(to, "dist/posts/wide.png");
        }
        _ => panic!("expected a copy effect"),
    }
    let m = ctx.meta_image.unwrap();
    assert_eq!(m.url, "posts/thumb_wide.png");
    assert_eq!(m.width, 768);
    assert_eq!(m.height, 230);
}

#[test]
fn small_image_is_embedded_directly() {
    let tree = Node::Image {
        url: String::from("small.png"),
        alt: String::from("Cap"),
        width: 400,
        height: 300,
    };
    let (html, ctx) = render_to_string(&tree);
    assert!(html.contains("src=\"small.png\""));
    assert!(!html.contains("thumb_"));
    assert_eq!(ctx.effects.len(), 1);
    let m = ctx.meta_image.unwrap();
    assert_eq!(m.url, "posts/small.png");
    assert_eq!(m.pixels, 400 * 300);
}

#[test]
fn meta_image_replacement_uses_either_criterion() {
    // a more square image replaces, even with fewer pixels
    let tree = Node::Root {
        children: vec![
            Node::Image {
                url: String::from("wide.png"),
                alt: String::from("a"),
                width: 600,
                height: 100,
            },
            Node::Image {
                url: String::from("square.png"),
                alt: String::from("b"),
                width: 50,
                height: 50,
            },
        ],
    };
    let (_, ctx) = render_to_string(&tree);
    assert_eq!(ctx.meta_image.unwrap().url, "posts/square.png");
    // a bigger image replaces, even when less square
    let tree2 = Node::Root {
        children: vec![
            Node::Image {
                url: String::from("square.png"),
                alt: String::from("a"),
                width: 50,
                height: 50,
            },
            Node::Image {
                url: String::from("big.png"),
                alt: String::from("b"),
                width: 700,
                height: 100,
            },
        ],
    };
    let (_, ctx2) = render_to_string(&tree2);
    assert_eq!(ctx2.meta_image.unwrap().url, "posts/big.png");
}

#[test]
fn configured_logo_starts_as_candidate() {
    let logo = SelectedMetaImage {
        url: String::from("logo.png"),
        width: 100,
        height: 100,
        pixels: 10000,
    };
    let mut out = String::new();
    let mut ctx = RenderContext::new(Some(logo));
    let tree = Node::Paragraph { children: vec![Node::Text { text: String::from("t") }] };
    render_markdown(&tree, &mut out, "posts", "dist", &mut ctx);
    assert_eq!(ctx.meta_image.unwrap().url, "logo.png");
}

#[test]
fn metadata_block_overwrites_frontmatter() {
    let fm1 = FrontmatterInfo {
        title: String::from("first"),
        date: String::from("2020-01-01"),
        description: String::new(),
        tags: vec![],
        is_draft: false,
    };
    let fm2 = FrontmatterInfo {
        title: String::from("second"),
        date: String::from("2021-02-02"),
        description: String::from("d"),
        tags: vec![String::from("x")],
        is_draft: true,
    };
    let tree = Node::Root {
        children: vec![
            Node::Metadata { frontmatter: fm1 },
            Node::Metadata { frontmatter: fm2 },
        ],
    };
    let (_, ctx) = render_to_string(&tree);
    assert_eq!(ctx.frontmatter.title, "second");
    assert!(ctx.frontmatter.is_draft);
}

#[test]
fn unsupported_nodes_are_skipped() {
    let tree = Node::Root {
        children: vec![
            Node::Unsupported,
            Node::Paragraph { children: vec![Node::Text { text: String::from("kept") }] },
            Node::ThematicBreak,
        ],
    };
    let (html, ctx) = render_to_string(&tree);
    assert_eq!(html, "<p>kept</p>");
    assert_eq!(ctx.word_count, 1);
}

#[test]
fn math_and_break_markup() {
    let tree = Node::Root {
        children: vec![
            Node::InlineMath { math: String::from("x^2") },
            Node::LineBreak,
            Node::Math { math: String::from("e=mc^2") },
        ],
    };
    let (html, _) = render_to_string(&tree);
    assert_eq!(
        html,
        "<code class=\"language-math math-inline\">x^2</code><br /><p class=\"katex-display-counter\"><code class=\"language-math math-block\">e=mc^2</code></p>"
    );
}
