//! The document renderer: a depth-first walk over the markup syntax tree
//! that emits HTML and accumulates, in a shared context, the word count,
//! the frontmatter, the set of code languages, the footnote table, the
//! selected representative image and the list of image file effects the
//! caller must perform.
//!
//! The whole walk is specified by one transition function
//! (`render_node_spec`), so the executable renderer is deterministic by
//! contract: its outputs equal a function of the tree and the starting
//! context alone.

use vstd::prelude::*;
use crate::frontmatter::{FrontmatterInfo, FrontmatterView};
use crate::text::{count_words, dec_digits_of, int_digits_of, lex_le, push_i32, push_u64, split_on_bars, str_eq, str_lex_le, word_count_of};
use crate::sorting::{insert_by, lemma_insert_by_at, lemma_sort_by_ins_step, sort_by_ins};
use crate::trusted::{escaped_text, titlecased_of};

verus! {

/// One footnote: its identifier, its one-based sequence number in order of
/// first encounter, and its rendered body (empty until its definition is
/// seen).
pub struct Footnote {
    pub id: String,
    pub count: i32,
    pub html: String,
}

#[verifier::ext_equal]
pub struct FootnoteView {
    pub id: Seq<char>,
    pub count: int,
    pub html: Seq<char>,
}

impl View for Footnote {
    type V = FootnoteView;

    open spec fn view(&self) -> FootnoteView {
        FootnoteView { id: self.id@, count: self.count as int, html: self.html@ }
    }
}

/// The representative image selected for a document so far.
pub struct SelectedMetaImage {
    pub url: String,
    pub width: u32,
    pub height: u32,
    pub pixels: u64,
}

#[verifier::ext_equal]
pub struct MetaImageView {
    pub url: Seq<char>,
    pub width: nat,
    pub height: nat,
    pub pixels: nat,
}

impl View for SelectedMetaImage {
    type V = MetaImageView;

    open spec fn view(&self) -> MetaImageView {
        MetaImageView {
            url: self.url@,
            width: self.width as nat,
            height: self.height as nat,
            pixels: self.pixels as nat,
        }
    }
}

/// A file operation the renderer decided on; the caller performs them in
/// order after the walk.
pub enum ImageEffect {
    /// Resize the source image to the given dimensions and write it at
    /// `target`.
    SaveThumbnail { source: String, target: String, width: u32, height: u32 },
    /// Copy the source image unchanged.
    CopyImage { from: String, to: String },
}

#[verifier::ext_equal]
pub enum ImageEffectView {
    SaveThumbnail { source: Seq<char>, target: Seq<char>, width: nat, height: nat },
    CopyImage { from: Seq<char>, to: Seq<char> },
}

impl View for ImageEffect {
    type V = ImageEffectView;

    open spec fn view(&self) -> ImageEffectView {
        match self {
            ImageEffect::SaveThumbnail { source, target, width, height } => (
            ImageEffectView::SaveThumbnail {
                source: source@,
                target: target@,
                width: *width as nat,
                height: *height as nat,
            }),
            ImageEffect::CopyImage { from, to } => (ImageEffectView::CopyImage {
                from: from@,
                to: to@,
            }),
        }
    }
}

/// One node of the markup syntax tree, as plain values. Images carry the
/// pixel dimensions of their decoded file; the caller decodes before the
/// walk. Kinds the renderer does not support collapse to `Unsupported`
/// and are skipped.
pub enum Node {
    Root { children: Vec<Node> },
    Paragraph { children: Vec<Node> },
    Text { text: String },
    Heading { depth: u8, children: Vec<Node> },
    BlockQuote { children: Vec<Node> },
    List { ordered: bool, children: Vec<Node> },
    ListItem { children: Vec<Node> },
    Emphasis { children: Vec<Node> },
    Strong { children: Vec<Node> },
    InlineCode { code: String },
    Code { lang: Option<String>, code: String },
    InlineMath { math: String },
    Math { math: String },
    LineBreak,
    ThematicBreak,
    Html { html: String },
    Link { title: Option<String>, url: String, children: Vec<Node> },
    Image { url: String, alt: String, width: u32, height: u32 },
    FootnoteDefinition { id: String, children: Vec<Node> },
    FootnoteReference { id: String },
    Metadata { frontmatter: FrontmatterInfo },
    Unsupported,
}

/// The accumulating render state, one per document.
pub struct RenderContext {
    pub word_count: usize,
    pub frontmatter: FrontmatterInfo,
    pub langs: Vec<String>,
    pub footnotes: Vec<Footnote>,
    pub meta_image: Option<SelectedMetaImage>,
    pub effects: Vec<ImageEffect>,
}

#[verifier::ext_equal]
pub struct RenderState {
    pub words: nat,
    pub frontmatter: FrontmatterView,
    pub langs: Seq<Seq<char>>,
    pub footnotes: Seq<FootnoteView>,
    pub meta_image: Option<MetaImageView>,
    pub effects: Seq<ImageEffectView>,
}

pub open spec fn meta_view(m: Option<SelectedMetaImage>) -> Option<MetaImageView> {
    match m {
        Some(s) => Some(s@),
        None => None,
    }
}

impl View for RenderContext {
    type V = RenderState;

    open spec fn view(&self) -> RenderState {
        RenderState {
            words: self.word_count as nat,
            frontmatter: self.frontmatter@,
            langs: self.langs.deep_view(),
            footnotes: self.footnotes@.map_values(|f: Footnote| f@),
            meta_image: meta_view(self.meta_image),
            effects: self.effects@.map_values(|e: ImageEffect| e@),
        }
    }
}

impl RenderContext {
    /// A fresh context: empty accumulators, with the configured logo (if
    /// any) as the starting image candidate.
    pub fn new(logo: Option<SelectedMetaImage>) -> (r: RenderContext)
        ensures
            r@.words == 0,
            r@.frontmatter.title.len() == 0,
            r@.frontmatter.date.len() == 0,
            r@.frontmatter.description.len() == 0,
            r@.frontmatter.tags.len() == 0,
            !r@.frontmatter.is_draft,
            r@.langs =~= Seq::<Seq<char>>::empty(),
            r@.footnotes =~= Seq::<FootnoteView>::empty(),
            r@.meta_image == meta_view(logo),
            r@.effects =~= Seq::<ImageEffectView>::empty(),
    {
        RenderContext {
            word_count: 0,
            frontmatter: FrontmatterInfo::empty(),
            langs: Vec::new(),
            footnotes: Vec::new(),
            meta_image: logo,
            effects: Vec::new(),
        }
    }
}

/// The position of the footnote with this identifier, or -1.
pub open spec fn find_footnote(fs: Seq<FootnoteView>, id: Seq<char>) -> int
    decreases fs.len(),
{
    if fs.len() == 0 {
        -1
    } else if fs[0].id == id {
        0
    } else {
        let r = find_footnote(fs.drop_first(), id);
        if r < 0 {
            -1
        } else {
            r + 1
        }
    }
}

pub proof fn lemma_find_footnote(fs: Seq<FootnoteView>, id: Seq<char>)
    ensures
        find_footnote(fs, id) >= 0 ==> {
            &&& find_footnote(fs, id) < fs.len()
            &&& fs[find_footnote(fs, id)].id == id
            &&& forall|j: int| 0 <= j < find_footnote(fs, id) ==> fs[j].id != id
        },
        find_footnote(fs, id) < 0 ==> forall|j: int| 0 <= j < fs.len() ==> fs[j].id != id,
    decreases fs.len(),
{
    if fs.len() > 0 && fs[0].id != id {
        let d = fs.drop_first();
        lemma_find_footnote(d, id);
        let r = find_footnote(d, id);
        if r >= 0 {
            assert forall|j: int| 0 <= j < r + 1 implies fs[j].id != id by {
                if j > 0 {
                    assert(d[j - 1].id != id);
                }
            }
        } else {
            assert forall|j: int| 0 <= j < fs.len() implies fs[j].id != id by {
                if j > 0 {
                    assert(d[j - 1].id != id);
                }
            }
        }
    }
}

/// The footnote table after a definition for `id` whose body rendered to
/// `body`: an existing entry gets the body, a new entry also gets the next
/// sequence number.
pub open spec fn footnote_defined(st: RenderState, id: Seq<char>, body: Seq<char>) -> RenderState {
    let j = find_footnote(st.footnotes, id);
    if j >= 0 {
        RenderState {
            footnotes: st.footnotes.update(
                j,
                FootnoteView { id: st.footnotes[j].id, count: st.footnotes[j].count, html: body },
            ),
            ..st
        }
    } else {
        RenderState {
            footnotes: st.footnotes.push(
                FootnoteView { id: id, count: st.footnotes.len() as int + 1, html: body },
            ),
            ..st
        }
    }
}

/// The sequence number a reference to `id` displays, creating the entry
/// (with an empty body) on first encounter.
pub open spec fn footnote_referenced(st: RenderState, id: Seq<char>) -> (int, RenderState) {
    let j = find_footnote(st.footnotes, id);
    if j >= 0 {
        (st.footnotes[j].count, st)
    } else {
        (
            st.footnotes.len() as int + 1,
            RenderState {
                footnotes: st.footnotes.push(
                    FootnoteView { id: id, count: st.footnotes.len() as int + 1, html: Seq::empty() },
                ),
                ..st
            },
        )
    }
}

/// The language set after seeing a fenced language tag.
pub open spec fn lang_registered(st: RenderState, lang: Seq<char>) -> RenderState {
    if st.langs.contains(lang) {
        st
    } else {
        RenderState { langs: st.langs.push(lang), ..st }
    }
}

/// |width - height|, the numerator of the squareness measure.
pub open spec fn sq_num(w: nat, h: nat) -> nat {
    if w >= h {
        (w - h) as nat
    } else {
        (h - w) as nat
    }
}

/// Whether `(w1, h1)` is strictly more square than `(w2, h2)`: its
/// |width/height - 1| is strictly smaller, a zero height counting as
/// infinitely far from square.
pub open spec fn more_square(w1: nat, h1: nat, w2: nat, h2: nat) -> bool {
    if h2 == 0 {
        h1 != 0
    } else if h1 == 0 {
        false
    } else {
        sq_num(w1, h1) * h2 < sq_num(w2, h2) * h1
    }
}

/// The image candidate after seeing an image of the given dimensions: it
/// replaces the current one when it is strictly more square or has
/// strictly more pixels (either alone suffices).
pub open spec fn meta_updated(cur: Option<MetaImageView>, url: Seq<char>, w: nat, h: nat) -> Option<
    MetaImageView,
> {
    let cand = MetaImageView { url: url, width: w, height: h, pixels: w * h };
    match cur {
        None => Some(cand),
        Some(c) => if more_square(w, h, c.width, c.height) || c.pixels < w * h {
            Some(cand)
        } else {
            Some(c)
        },
    }
}

/// Whether an image must be shrunk to fit within 768 by 400.
pub open spec fn needs_thumbnail(w: nat, h: nat) -> bool {
    w > 768 || h > 400
}

/// The dimensions after shrinking to fit within 768 by 400, keeping the
/// aspect ratio: the tighter of the two ratios is applied to both sides,
/// rounding down.
pub open spec fn thumbnail_width(w: nat, h: nat) -> nat {
    if 768 * h <= 400 * w {
        768
    } else {
        (w * 400) / h
    }
}

pub open spec fn thumbnail_height(w: nat, h: nat) -> nat {
    if 768 * h <= 400 * w {
        (h * 768) / w
    } else {
        400
    }
}

/// An attribution source wrapped in double quotes.
pub open spec fn quoted_item(s: Seq<char>) -> Seq<char> {
    seq!['"'] + s + seq!['"']
}

/// The quoted sources joined with commas, as the `sources` attribute holds
/// them.
pub open spec fn quoted_list(ss: Seq<Seq<char>>) -> Seq<char>
    decreases ss.len(),
{
    if ss.len() == 0 {
        Seq::empty()
    } else if ss.len() == 1 {
        quoted_item(ss[0])
    } else {
        quoted_item(ss[0]) + seq![','] + quoted_list(ss.drop_first())
    }
}

/// One attribution link under an image; numbered only when the image has
/// several sources.
pub open spec fn source_link(s: Seq<char>, multi: bool, idx: nat) -> Seq<char> {
    let h1 = "<a class=\"img-source\" target=\"_blank\" href=\""@ + s + "\">[SOURCE"@;
    let h2 = if multi {
        h1 + seq![' '] + dec_digits_of(idx)
    } else {
        h1
    };
    h2 + "]</a>"@
}

/// The attribution links for all sources, numbered from `idx`.
pub open spec fn source_links_from(ss: Seq<Seq<char>>, multi: bool, idx: nat) -> Seq<char>
    decreases ss.len(),
{
    if ss.len() == 0 {
        Seq::empty()
    } else {
        source_link(ss[0], multi, idx) + source_links_from(ss.drop_first(), multi, idx + 1)
    }
}

/// What a fenced code block renders to: a video embed for the literal
/// language `youtube`, otherwise a code block, registering the language.
pub open spec fn code_spec(lang: Option<String>, code: String, html: Seq<char>, st: RenderState) -> (
    Seq<char>,
    RenderState,
) {
    match lang {
        Some(l) => if l@ == "youtube"@ {
            (
                html + "<iframe class=\"video\" src=\"https://www.youtube.com/embed/"@ + code@
                    + "\" title=\"YouTube video player\" frameborder=\"0\" allow=\"accelerometer; autoplay; clipboard-write; encrypted-media; gyroscope; picture-in-picture; web-share\" allowfullscreen></iframe>"@,
                st,
            )
        } else {
            (
                html + "<pre><code class=\"language-"@ + l@ + " code-block\">"@ + code@
                    + "</code></pre>"@,
                lang_registered(st, l@),
            )
        },
        None => (html + "<pre><code>"@ + code@ + "</code></pre>"@, st),
    }
}

/// What an image node renders to, and the file effects it queues: the
/// alt text splits on `|` into a title-cased caption and escaped source
/// links; an image larger than 768 by 400 is shrunk to a thumbnail that
/// the page references while the original is kept as provenance; the
/// source file is always copied; and the image competes for the
/// document's representative image with its displayed dimensions.
pub open spec fn image_spec(
    url: Seq<char>,
    alt: Seq<char>,
    w: nat,
    h: nat,
    folder: Seq<char>,
    target: Seq<char>,
    html: Seq<char>,
    st: RenderState,
) -> (Seq<char>, RenderState) {
    let parts = split_on_bars(alt);
    let caption = titlecased_of(parts[0]);
    let srcs = parts.drop_first().map_values(|p: Seq<char>| escaped_text(p));
    let sj = quoted_list(srcs);
    let h0 = html + "<div class=\"img-container\">"@;
    let copy = ImageEffectView::CopyImage {
        from: folder + "/"@ + url,
        to: target + "/"@ + folder + "/"@ + url,
    };
    if needs_thumbnail(w, h) {
        let tw = thumbnail_width(w, h);
        let th = thumbnail_height(w, h);
        let h1 = h0 + "<img class=\"img\" onclick=\"openImage(this)\" src=\"thumb_"@ + url
            + "\" original_src=\""@ + url + "\" alt=\""@ + caption + "\" sources='["@ + sj
            + "]' />"@;
        let st1 = RenderState {
            effects: st.effects.push(
                ImageEffectView::SaveThumbnail {
                    source: folder + "/"@ + url,
                    target: target + "/"@ + folder + "/thumb_"@ + url,
                    width: tw,
                    height: th,
                },
            ),
            ..st
        };
        let st2 = RenderState {
            meta_image: meta_updated(st1.meta_image, folder + "/thumb_"@ + url, tw, th),
            ..st1
        };
        let h2 = h1 + "<div class=\"img-title\">"@ + caption + source_links_from(
            srcs,
            srcs.len() > 1,
            1,
        ) + "</div>"@ + "</div>"@;
        let st3 = RenderState { effects: st2.effects.push(copy), ..st2 };
        (h2, st3)
    } else {
        let h1 = h0 + "<img class=\"img\" onclick=\"openImage(this)\" src=\""@ + url + "\" alt=\""@
            + caption + "\" sources='["@ + sj + "]' />"@;
        let st2 = RenderState {
            meta_image: meta_updated(st.meta_image, folder + "/"@ + url, w, h),
            ..st
        };
        let h2 = h1 + "<div class=\"img-title\">"@ + caption + source_links_from(
            srcs,
            srcs.len() > 1,
            1,
        ) + "</div>"@ + "</div>"@;
        let st3 = RenderState { effects: st2.effects.push(copy), ..st2 };
        (h2, st3)
    }
}

/// One step of the depth-first walk: the HTML after the node, and the
/// context after its cross-cutting effects.
pub open spec fn render_node_spec(
    n: Node,
    folder: Seq<char>,
    target: Seq<char>,
    html: Seq<char>,
    st: RenderState,
) -> (Seq<char>, RenderState)
    decreases n,
{
    match n {
        Node::Root { children } => render_nodes_spec(children@, folder, target, html, st),
        Node::Paragraph { children } => {
            let r = render_nodes_spec(children@, folder, target, html + "<p>"@, st);
            (r.0 + "</p>"@, r.1)
        },
        Node::Text { text } => (
            html + text@,
            RenderState { words: st.words + word_count_of(text@), ..st },
        ),
        Node::Heading { depth, children } => {
            let r = render_nodes_spec(
                children@,
                folder,
                target,
                html + "<h"@ + dec_digits_of(depth as nat) + ">"@,
                st,
            );
            (r.0 + "</h"@ + dec_digits_of(depth as nat) + ">"@, r.1)
        },
        Node::BlockQuote { children } => {
            let r = render_nodes_spec(children@, folder, target, html + "<blockquote>"@, st);
            (r.0 + "</blockquote>"@, r.1)
        },
        Node::List { ordered, children } => {
            let open_tag = if ordered {
                "<ol>"@
            } else {
                "<ul>"@
            };
            let close_tag = if ordered {
                "</ol>"@
            } else {
                "</ul>"@
            };
            let r = render_nodes_spec(children@, folder, target, html + open_tag, st);
            (r.0 + close_tag, r.1)
        },
        Node::ListItem { children } => {
            let r = render_nodes_spec(children@, folder, target, html + "<li>"@, st);
            (r.0 + "</li>"@, r.1)
        },
        Node::Emphasis { children } => {
            let r = render_nodes_spec(children@, folder, target, html + "<em>"@, st);
            (r.0 + "</em>"@, r.1)
        },
        Node::Strong { children } => {
            let r = render_nodes_spec(children@, folder, target, html + "<strong>"@, st);
            (r.0 + "</strong>"@, r.1)
        },
        Node::InlineCode { code } => (html + "<code>"@ + code@ + "</code>"@, st),
        Node::Code { lang, code } => code_spec(lang, code, html, st),
        Node::InlineMath { math } => (
            html + "<code class=\"language-math math-inline\">"@ + math@ + "</code>"@,
            st,
        ),
        Node::Math { math } => (
            html + "<p class=\"katex-display-counter\"><code class=\"language-math math-block\">"@
                + math@ + "</code></p>"@,
            st,
        ),
        Node::LineBreak => (html + "<br />"@, st),
        Node::ThematicBreak => (html, st),
        Node::Html { html: raw } => (html + raw@, st),
        Node::Link { title, url, children } => {
            let h1 = html + "<a class=\"link\" href=\""@ + url@ + "\" target=\"_blank\">"@;
            let mid = match title {
                Some(t) => (h1 + t@, RenderState { words: st.words + word_count_of(t@), ..st }),
                None => (h1, st),
            };
            let r = render_nodes_spec(children@, folder, target, mid.0, mid.1);
            (r.0 + "</a>"@, r.1)
        },
        Node::Image { url, alt, width, height } => image_spec(
            url@,
            alt@,
            width as nat,
            height as nat,
            folder,
            target,
            html,
            st,
        ),
        Node::FootnoteDefinition { id, children } => {
            let r = render_nodes_spec(children@, folder, target, Seq::empty(), st);
            (html, footnote_defined(r.1, id@, r.0))
        },
        Node::FootnoteReference { id } => {
            let r = footnote_referenced(st, id@);
            (
                html + "<a class=\"footnote-ref\" href=\"#footnote_"@ + id@ + "\">["@
                    + int_digits_of(r.0) + "]</a>"@,
                r.1,
            )
        },
        Node::Metadata { frontmatter } => (html, RenderState { frontmatter: frontmatter@, ..st }),
        Node::Unsupported => (html, st),
    }
}

/// The walk over a sequence of siblings, left to right.
pub open spec fn render_nodes_spec(
    ns: Seq<Node>,
    folder: Seq<char>,
    target: Seq<char>,
    html: Seq<char>,
    st: RenderState,
) -> (Seq<char>, RenderState)
    decreases ns,
{
    if ns.len() == 0 {
        (html, st)
    } else {
        let r = render_node_spec(ns[0], folder, target, html, st);
        render_nodes_spec(ns.drop_first(), folder, target, r.0, r.1)
    }
}

/// The machine bounds the executable renderer needs: the word counter
/// stays within `usize` and the footnote numbers within `i32`.
pub open spec fn state_fits(st: RenderState) -> bool {
    st.words <= usize::MAX && st.footnotes.len() <= i32::MAX
}

pub open spec fn render_fits(
    n: Node,
    folder: Seq<char>,
    target: Seq<char>,
    html: Seq<char>,
    st: RenderState,
) -> bool {
    state_fits(render_node_spec(n, folder, target, html, st).1)
}

pub open spec fn render_nodes_fits(
    ns: Seq<Node>,
    folder: Seq<char>,
    target: Seq<char>,
    html: Seq<char>,
    st: RenderState,
) -> bool {
    state_fits(render_nodes_spec(ns, folder, target, html, st).1)
}

/// The word count and the footnote table only grow along the walk.
pub proof fn lemma_node_mono(
    n: Node,
    folder: Seq<char>,
    target: Seq<char>,
    html: Seq<char>,
    st: RenderState,
)
    ensures
        render_node_spec(n, folder, target, html, st).1.words >= st.words,
        render_node_spec(n, folder, target, html, st).1.footnotes.len() >= st.footnotes.len(),
    decreases n,
{
    match n {
        Node::Root { children } => {
            lemma_nodes_mono(children@, folder, target, html, st);
            assert(render_node_spec(n, folder, target, html, st).1 == render_nodes_spec(
                children@,
                folder,
                target,
                html,
                st,
            ).1);
        },
        Node::Paragraph { children } => {
            lemma_nodes_mono(children@, folder, target, html + "<p>"@, st);
            assert(render_node_spec(n, folder, target, html, st).1 == render_nodes_spec(
                children@,
                folder,
                target,
                html + "<p>"@,
                st,
            ).1);
        },
        Node::Heading { depth, children } => {
            lemma_nodes_mono(
                children@,
                folder,
                target,
                html + "<h"@ + dec_digits_of(depth as nat) + ">"@,
                st,
            );
            assert(render_node_spec(n, folder, target, html, st).1 == render_nodes_spec(
                children@,
                folder,
                target,
                html + "<h"@ + dec_digits_of(depth as nat) + ">"@,
                st,
            ).1);
        },
        Node::BlockQuote { children } => {
            lemma_nodes_mono(children@, folder, target, html + "<blockquote>"@, st);
            assert(render_node_spec(n, folder, target, html, st).1 == render_nodes_spec(
                children@,
                folder,
                target,
                html + "<blockquote>"@,
                st,
            ).1);
        },
        Node::List { ordered, children } => {
            let open_tag = if ordered {
                "<ol>"@
            } else {
                "<ul>"@
            };
            lemma_nodes_mono(children@, folder, target, html + open_tag, st);
            assert(render_node_spec(n, folder, target, html, st).1 == render_nodes_spec(
                children@,
                folder,
                target,
                html + open_tag,
                st,
            ).1);
        },
        Node::ListItem { children } => {
            lemma_nodes_mono(children@, folder, target, html + "<li>"@, st);
            assert(render_node_spec(n, folder, target, html, st).1 == render_nodes_spec(
                children@,
                folder,
                target,
                html + "<li>"@,
                st,
            ).1);
        },
        Node::Emphasis { children } => {
            lemma_nodes_mono(children@, folder, target, html + "<em>"@, st);
            assert(render_node_spec(n, folder, target, html, st).1 == render_nodes_spec(
                children@,
                folder,
                target,
                html + "<em>"@,
                st,
            ).1);
        },
        Node::Strong { children } => {
            lemma_nodes_mono(children@, folder, target, html + "<strong>"@, st);
            assert(render_node_spec(n, folder, target, html, st).1 == render_nodes_spec(
                children@,
                folder,
                target,
                html + "<strong>"@,
                st,
            ).1);
        },
        Node::Link { title, url, children } => {
            let h1 = html + "<a class=\"link\" href=\""@ + url@ + "\" target=\"_blank\">"@;
            let mid = match title {
                Some(t) => (h1 + t@, RenderState { words: st.words + word_count_of(t@), ..st }),
                None => (h1, st),
            };
            lemma_nodes_mono(children@, folder, target, mid.0, mid.1);
            assert(render_node_spec(n, folder, target, html, st).1 == render_nodes_spec(
                children@,
                folder,
                target,
                mid.0,
                mid.1,
            ).1);
            assert(mid.1.words >= st.words && mid.1.footnotes.len() == st.footnotes.len());
        },
        Node::FootnoteDefinition { id, children } => {
            lemma_nodes_mono(children@, folder, target, Seq::empty(), st);
            let r = render_nodes_spec(children@, folder, target, Seq::empty(), st);
            lemma_find_footnote(r.1.footnotes, id@);
            assert(render_node_spec(n, folder, target, html, st).1 == footnote_defined(
                r.1,
                id@,
                r.0,
            ));
            assert(footnote_defined(r.1, id@, r.0).footnotes.len() >= r.1.footnotes.len());
        },
        Node::Text { text } => {},
        Node::InlineCode { code } => {},
        Node::Code { lang, code } => {},
        Node::InlineMath { math } => {},
        Node::Math { math } => {},
        Node::LineBreak => {},
        Node::ThematicBreak => {},
        Node::Html { html: raw } => {},
        Node::Image { url, alt, width, height } => {},
        Node::FootnoteReference { id } => {
            lemma_find_footnote(st.footnotes, id@);
        },
        Node::Metadata { frontmatter } => {},
        Node::Unsupported => {},
    }
}

pub proof fn lemma_nodes_mono(
    ns: Seq<Node>,
    folder: Seq<char>,
    target: Seq<char>,
    html: Seq<char>,
    st: RenderState,
)
    ensures
        render_nodes_spec(ns, folder, target, html, st).1.words >= st.words,
        render_nodes_spec(ns, folder, target, html, st).1.footnotes.len() >= st.footnotes.len(),
    decreases ns,
{
    if ns.len() > 0 {
        let r = render_node_spec(ns[0], folder, target, html, st);
        lemma_node_mono(ns[0], folder, target, html, st);
        lemma_nodes_mono(ns.drop_first(), folder, target, r.0, r.1);
    }
}

/// Rendering one more sibling continues from the result so far.
pub proof fn lemma_render_nodes_snoc(
    ns: Seq<Node>,
    folder: Seq<char>,
    target: Seq<char>,
    html: Seq<char>,
    st: RenderState,
    i: int,
)
    requires
        0 <= i < ns.len(),
    ensures
        render_nodes_spec(ns.take(i + 1), folder, target, html, st).0 == render_node_spec(
            ns[i],
            folder,
            target,
            render_nodes_spec(ns.take(i), folder, target, html, st).0,
            render_nodes_spec(ns.take(i), folder, target, html, st).1,
        ).0,
        render_nodes_spec(ns.take(i + 1), folder, target, html, st).1 == render_node_spec(
            ns[i],
            folder,
            target,
            render_nodes_spec(ns.take(i), folder, target, html, st).0,
            render_nodes_spec(ns.take(i), folder, target, html, st).1,
        ).1,
    decreases i,
{
    if i == 0 {
        assert(ns.take(0) =~= Seq::<Node>::empty());
        assert(ns.take(1) =~= seq![ns[0]]);
        assert(seq![ns[0]].drop_first() =~= Seq::<Node>::empty());
        let r0 = render_node_spec(ns[0], folder, target, html, st);
        assert(render_nodes_spec(ns.take(0), folder, target, html, st).0 == html);
        assert(render_nodes_spec(ns.take(0), folder, target, html, st).1 == st);
        assert(render_nodes_spec(ns.take(1).drop_first(), folder, target, r0.0, r0.1).0 == r0.0);
        assert(render_nodes_spec(ns.take(1).drop_first(), folder, target, r0.0, r0.1).1 == r0.1);
        assert(ns.take(1)[0] == ns[0]);
    } else {
        let d = ns.drop_first();
        let r0 = render_node_spec(ns[0], folder, target, html, st);
        lemma_render_nodes_snoc(d, folder, target, r0.0, r0.1, i - 1);
        assert(ns.take(i + 1)[0] == ns[0]);
        assert(ns.take(i)[0] == ns[0]);
        assert(ns.take(i + 1).drop_first() =~= d.take(i));
        assert(ns.take(i).drop_first() =~= d.take(i - 1));
        assert(d[i - 1] == ns[i]);
        assert(render_nodes_spec(ns.take(i), folder, target, html, st) == render_nodes_spec(
            d.take(i - 1),
            folder,
            target,
            r0.0,
            r0.1,
        ));
        assert(render_nodes_spec(ns.take(i + 1), folder, target, html, st) == render_nodes_spec(
            d.take(i),
            folder,
            target,
            r0.0,
            r0.1,
        ));
    }
}

/// Rendering a suffix takes one step on its first node.
pub proof fn lemma_render_nodes_skip_step(
    ns: Seq<Node>,
    folder: Seq<char>,
    target: Seq<char>,
    html: Seq<char>,
    st: RenderState,
    i: int,
)
    requires
        0 <= i < ns.len(),
    ensures
        render_nodes_spec(ns.skip(i), folder, target, html, st).0 == render_nodes_spec(
            ns.skip(i + 1),
            folder,
            target,
            render_node_spec(ns[i], folder, target, html, st).0,
            render_node_spec(ns[i], folder, target, html, st).1,
        ).0,
        render_nodes_spec(ns.skip(i), folder, target, html, st).1 == render_nodes_spec(
            ns.skip(i + 1),
            folder,
            target,
            render_node_spec(ns[i], folder, target, html, st).0,
            render_node_spec(ns[i], folder, target, html, st).1,
        ).1,
{
    assert(ns.skip(i)[0] == ns[i]);
    assert(ns.skip(i).drop_first() =~= ns.skip(i + 1));
}


/// Extending the quoted source list appends a comma (after the first) and
/// the quoted item.
proof fn lemma_quoted_list_snoc(ss: Seq<Seq<char>>, i: int)
    requires
        0 <= i < ss.len(),
    ensures
        i == 0 ==> quoted_list(ss.take(1)) == quoted_item(ss[0]),
        i > 0 ==> quoted_list(ss.take(i + 1)) == quoted_list(ss.take(i)) + seq![','] + quoted_item(
            ss[i],
        ),
    decreases i,
{
    if i == 0 {
        assert(ss.take(1) =~= seq![ss[0]]);
    } else if i == 1 {
        assert(ss.take(2) =~= seq![ss[0], ss[1]]);
        assert(ss.take(1) =~= seq![ss[0]]);
        assert(seq![ss[0], ss[1]].drop_first() =~= seq![ss[1]]);
        assert(quoted_list(seq![ss[0], ss[1]]) == quoted_item(ss[0]) + seq![','] + quoted_list(
            seq![ss[1]],
        ));
        assert(quoted_item(ss[0]) + seq![','] + quoted_item(ss[1]) =~= quoted_list(ss.take(1))
            + seq![','] + quoted_item(ss[1]));
    } else {
        let d = ss.drop_first();
        lemma_quoted_list_snoc(d, i - 1);
        assert(ss.take(i + 1)[0] == ss[0]);
        assert(ss.take(i)[0] == ss[0]);
        assert(ss.take(i + 1).drop_first() =~= d.take(i));
        assert(ss.take(i).drop_first() =~= d.take(i - 1));
        assert(d[i - 1] == ss[i]);
        assert(ss.take(i + 1).len() == i + 1 >= 2);
        assert(quoted_list(ss.take(i + 1)) == quoted_item(ss[0]) + seq![','] + quoted_list(
            d.take(i),
        ));
        assert(quoted_list(ss.take(i)) == quoted_item(ss[0]) + seq![','] + quoted_list(
            d.take(i - 1),
        ));
        assert(quoted_item(ss[0]) + seq![','] + (quoted_list(d.take(i - 1)) + seq![',']
            + quoted_item(ss[i])) =~= (quoted_item(ss[0]) + seq![','] + quoted_list(d.take(i - 1)))
            + seq![','] + quoted_item(ss[i]));
    }
}

/// Extending the attribution links appends one more link.
proof fn lemma_source_links_snoc(ss: Seq<Seq<char>>, multi: bool, idx: nat, i: int)
    requires
        0 <= i < ss.len(),
    ensures
        source_links_from(ss.take(i + 1), multi, idx) == source_links_from(ss.take(i), multi, idx)
            + source_link(ss[i], multi, (idx + i) as nat),
    decreases i,
{
    if i == 0 {
        assert(ss.take(0) =~= Seq::<Seq<char>>::empty());
        assert(ss.take(1) =~= seq![ss[0]]);
        assert(seq![ss[0]].drop_first() =~= Seq::<Seq<char>>::empty());
        assert(source_links_from(ss.take(1), multi, idx) == source_link(ss[0], multi, idx)
            + source_links_from(ss.take(1).drop_first(), multi, idx + 1));
        assert(source_link(ss[0], multi, idx) + Seq::<char>::empty() =~= source_link(
            ss[0],
            multi,
            idx,
        ));
        assert(Seq::<char>::empty() + source_link(ss[0], multi, idx) =~= source_link(
            ss[0],
            multi,
            idx,
        ));
    } else {
        let d = ss.drop_first();
        lemma_source_links_snoc(d, multi, idx + 1, i - 1);
        assert(ss.take(i + 1)[0] == ss[0]);
        assert(ss.take(i)[0] == ss[0]);
        assert(ss.take(i + 1).drop_first() =~= d.take(i));
        assert(ss.take(i).drop_first() =~= d.take(i - 1));
        assert(d[i - 1] == ss[i]);
        assert(source_links_from(ss.take(i + 1), multi, idx) == source_link(ss[0], multi, idx)
            + source_links_from(d.take(i), multi, idx + 1));
        assert(source_links_from(ss.take(i), multi, idx) == source_link(ss[0], multi, idx)
            + source_links_from(d.take(i - 1), multi, idx + 1));
        assert(source_link(ss[0], multi, idx) + (source_links_from(d.take(i - 1), multi, idx + 1)
            + source_link(ss[i], multi, (idx + i) as nat)) =~= (source_link(ss[0], multi, idx)
            + source_links_from(d.take(i - 1), multi, idx + 1)) + source_link(
            ss[i],
            multi,
            (idx + i) as nat,
        ));
    }
}

/// Decides whether `(w1, h1)` is strictly more square than `(w2, h2)`.
fn more_square_exec(w1: u32, h1: u32, w2: u32, h2: u32) -> (r: bool)
    ensures
        r == more_square(w1 as nat, h1 as nat, w2 as nat, h2 as nat),
{
    if h2 == 0 {
        h1 != 0
    } else if h1 == 0 {
        false
    } else {
        let d1: u64 = if w1 >= h1 {
            (w1 - h1) as u64
        } else {
            (h1 - w1) as u64
        };
        let d2: u64 = if w2 >= h2 {
            (w2 - h2) as u64
        } else {
            (h2 - w2) as u64
        };
        proof {
            assert(d1 * (h2 as u64) < 0x10000000000000000 && d2 * (h1 as u64)
                < 0x10000000000000000) by (nonlinear_arith)
                requires
                    d1 < 0x100000000,
                    d2 < 0x100000000,
                    h1 < 0x100000000,
                    h2 < 0x100000000,
            ;
        }
        d1 * (h2 as u64) < d2 * (h1 as u64)
    }
}

/// Computes the thumbnail dimensions for an oversized image.
fn thumbnail_dims(w: u32, h: u32) -> (r: (u32, u32))
    requires
        needs_thumbnail(w as nat, h as nat),
    ensures
        r.0 == thumbnail_width(w as nat, h as nat),
        r.1 == thumbnail_height(w as nat, h as nat),
{
    let w64 = w as u64;
    let h64 = h as u64;
    if 768 * h64 <= 400 * w64 {
        proof {
            if w64 == 0 {
                assert(h64 == 0);
                assert(false);
            }
            vstd::arithmetic::div_mod::lemma_div_is_ordered(
                768 * (h as int),
                400 * (w as int),
                w as int,
            );
            vstd::arithmetic::div_mod::lemma_div_multiples_vanish(400, w as int);
            assert((w as int) * 400 == 400 * (w as int)) by (nonlinear_arith);
            assert((h as int) * 768 == 768 * (h as int)) by (nonlinear_arith);
        }
        let th = (h64 * 768) / w64;
        (768u32, th as u32)
    } else {
        proof {
            assert(h64 > 0);
            vstd::arithmetic::div_mod::lemma_div_is_ordered(
                400 * (w as int),
                768 * (h as int),
                h as int,
            );
            vstd::arithmetic::div_mod::lemma_div_multiples_vanish(768, h as int);
            assert((w as int) * 400 == 400 * (w as int)) by (nonlinear_arith);
            assert((h as int) * 768 == 768 * (h as int)) by (nonlinear_arith);
        }
        let tw = (w64 * 400) / h64;
        (tw as u32, 400u32)
    }
}

/// Replaces the image candidate by the squareness-or-pixels rule.
fn update_meta(meta: &mut Option<SelectedMetaImage>, url: String, w: u32, h: u32)
    ensures
        meta_view(*final(meta)) == meta_updated(meta_view(*old(meta)), url@, w as nat, h as nat),
{
    proof {
        assert((w as u64) * (h as u64) < 0x10000000000000000 && (w as int) * (h as int) == (
        w as u64) * (h as u64)) by (nonlinear_arith)
            requires
                w < 0x100000000,
                h < 0x100000000,
        ;
    }
    let pixels: u64 = (w as u64) * (h as u64);
    let replace: bool = match meta {
        None => true,
        Some(c) => more_square_exec(w, h, c.width, c.height) || c.pixels < pixels,
    };
    if replace {
        *meta = Some(SelectedMetaImage { url: url, width: w, height: h, pixels: pixels });
    }
}

proof fn lemma_find_footnote_at(fs: Seq<FootnoteView>, id: Seq<char>, k: int)
    requires
        0 <= k < fs.len(),
        fs[k].id == id,
        forall|j: int| 0 <= j < k ==> fs[j].id != id,
    ensures
        find_footnote(fs, id) == k,
    decreases k,
{
    if k > 0 {
        assert(fs[0].id != id);
        let d = fs.drop_first();
        lemma_find_footnote_at(d, id, k - 1);
    }
}

/// Finds the footnote entry with this identifier, if any.
fn find_footnote_idx(fs: &Vec<Footnote>, id: &String) -> (r: Option<usize>)
    ensures
        match r {
            Some(k) => k == find_footnote(fs@.map_values(|f: Footnote| f@), id@),
            None => find_footnote(fs@.map_values(|f: Footnote| f@), id@) < 0,
        },
{
    let ghost fv = fs@.map_values(|f: Footnote| f@);
    let mut i: usize = 0;
    while i < fs.len()
        invariant
            0 <= i <= fs.len(),
            fv == fs@.map_values(|f: Footnote| f@),
            fv.len() == fs@.len(),
            forall|j: int| 0 <= j < i ==> fv[j].id != id@,
        decreases fs.len() - i,
    {
        if fs[i].id == *id {
            proof {
                lemma_find_footnote_at(fv, id@, i as int);
            }
            return Some(i);
        }
        i = i + 1;
    }
    proof {
        lemma_find_footnote(fv, id@);
        if find_footnote(fv, id@) >= 0 {
            assert(fv[find_footnote(fv, id@)].id == id@);
            assert(false);
        }
    }
    None
}

/// Adds a language to the inventory if it is not yet there.
fn register_lang_exec(langs: &mut Vec<String>, lang: &String)
    ensures
        old(langs).deep_view().contains(lang@) ==> final(langs).deep_view() == old(
            langs,
        ).deep_view(),
        !old(langs).deep_view().contains(lang@) ==> final(langs).deep_view() == old(
            langs,
        ).deep_view().push(lang@),
{
    let ghost lv = langs.deep_view();
    let mut i: usize = 0;
    while i < langs.len()
        invariant
            0 <= i <= langs.len(),
            lv == langs.deep_view(),
            lv.len() == langs@.len(),
            forall|j: int| 0 <= j < i ==> lv[j] != lang@,
        decreases langs.len() - i,
    {
        if langs[i] == *lang {
            assert(lv[i as int] == lang@);
            assert(lv.contains(lang@));
            return ;
        }
        i = i + 1;
    }
    proof {
        if lv.contains(lang@) {
            let j = choose|j: int| 0 <= j < lv.len() && lv[j] == lang@;
            assert(false);
        }
    }
    langs.push(lang.clone());
    proof {
        assert(langs.deep_view() =~= lv.push(lang@));
    }
}


/// Appends the comma-separated quoted source list.
fn emit_quoted_list(out: &mut String, items: &Vec<String>)
    ensures
        final(out)@ == old(out)@ + quoted_list(items@.map_values(|p: String| p@)),
{
    let ghost iv = items@.map_values(|p: String| p@);
    let ghost base = out@;
    let mut k: usize = 0;
    proof {
        assert(iv.take(0) =~= Seq::<Seq<char>>::empty());
        assert(base + quoted_list(iv.take(0)) =~= base);
    }
    while k < items.len()
        invariant
            0 <= k <= items.len(),
            iv == items@.map_values(|p: String| p@),
            iv.len() == items@.len(),
            base == old(out)@,
            out@ == base + quoted_list(iv.take(k as int)),
        decreases items.len() - k,
    {
        proof {
            lemma_quoted_list_snoc(iv, k as int);
            reveal_strlit("\"");
            reveal_strlit(",\"");
        }
        if k == 0 {
            out.append("\"");
            out.append(items[0].as_str());
            out.append("\"");
            proof {
                assert(iv[0] == items@[0]@);
                assert(out@ =~= base + quoted_list(iv.take(1)));
            }
        } else {
            out.append(",\"");
            out.append(items[k].as_str());
            out.append("\"");
            proof {
                assert(iv[k as int] == items@[k as int]@);
                assert(out@ =~= base + quoted_list(iv.take(k as int + 1)));
            }
        }
        k = k + 1;
    }
    proof {
        assert(iv.take(iv.len() as int) =~= iv);
    }
}

/// Appends the attribution links for the sources.
fn emit_source_links(out: &mut String, items: &Vec<String>)
    ensures
        final(out)@ == old(out)@ + source_links_from(
            items@.map_values(|p: String| p@),
            items@.len() > 1,
            1,
        ),
{
    let ghost iv = items@.map_values(|p: String| p@);
    let ghost base = out@;
    let multi = items.len() > 1;
    let mut k: usize = 0;
    proof {
        assert(iv.take(0) =~= Seq::<Seq<char>>::empty());
        assert(base + source_links_from(iv.take(0), multi, 1) =~= base);
    }
    while k < items.len()
        invariant
            0 <= k <= items.len(),
            iv == items@.map_values(|p: String| p@),
            iv.len() == items@.len(),
            base == old(out)@,
            multi == (items@.len() > 1),
            out@ == base + source_links_from(iv.take(k as int), multi, 1),
        decreases items.len() - k,
    {
        out.append("<a class=\"img-source\" target=\"_blank\" href=\"");
        out.append(items[k].as_str());
        out.append("\">[SOURCE");
        if multi {
            out.append(" ");
            push_u64(out, (k as u64) + 1);
        }
        out.append("]</a>");
        proof {
            lemma_source_links_snoc(iv, multi, 1, k as int);
            reveal_strlit(" ");
            assert(iv[k as int] == items@[k as int]@);
            assert(out@ =~= base + source_links_from(iv.take(k as int + 1), multi, 1));
        }
        k = k + 1;
    }
    proof {
        assert(iv.take(iv.len() as int) =~= iv);
    }
}

/// Joins `a` and `b` with a slash, as the build lays out paths.
fn slash_join(a: &str, b: &str) -> (r: String)
    ensures
        r@ == a@ + "/"@ + b@,
{
    let mut r = a.to_owned();
    r.append("/");
    r.append(b);
    r
}

/// Renders one syntax-tree node: appends its HTML to `out` and accumulates
/// its cross-cutting effects into `ctx`. The outputs equal a function of
/// the tree and the starting state alone, so rendering is deterministic
/// and re-rendering the same tree is idempotent.
pub fn render_markdown(
    node: &Node,
    out: &mut String,
    folder: &str,
    target_folder: &str,
    ctx: &mut RenderContext,
)
    requires
        render_fits(*node, folder@, target_folder@, old(out)@, old(ctx)@),
    ensures
        final(out)@ == render_node_spec(*node, folder@, target_folder@, old(out)@, old(ctx)@).0,
        final(ctx)@ == render_node_spec(*node, folder@, target_folder@, old(out)@, old(ctx)@).1,
    decreases node,
{
    let ghost f = folder@;
    let ghost t = target_folder@;
    let ghost h0 = old(out)@;
    let ghost st0 = old(ctx)@;
    match node {
        Node::Root { children } => {
            proof {
                assert(render_node_spec(*node, f, t, h0, st0).0 == render_nodes_spec(
                    children@, f, t, h0, st0).0);
                assert(render_node_spec(*node, f, t, h0, st0).1 == render_nodes_spec(
                    children@, f, t, h0, st0).1);
            }
            render_children(children, out, folder, target_folder, ctx);
        },
        Node::Paragraph { children } => {
            proof {
                assert(render_node_spec(*node, f, t, h0, st0).0 == render_nodes_spec(
                    children@, f, t, h0 + "<p>"@, st0).0 + "</p>"@);
                assert(render_node_spec(*node, f, t, h0, st0).1 == render_nodes_spec(
                    children@, f, t, h0 + "<p>"@, st0).1);
            }
            out.append("<p>");
            render_children(children, out, folder, target_folder, ctx);
            out.append("</p>");
        },
        Node::Text { text } => {
            proof {
                assert(render_node_spec(*node, f, t, h0, st0).0 == h0 + text@);
                assert(render_node_spec(*node, f, t, h0, st0).1 == RenderState {
                    words: st0.words + word_count_of(text@),
                    ..st0
                });
            }
            let c = count_words(text.as_str());
            ctx.word_count = ctx.word_count + c;
            out.append(text.as_str());
            proof {
                assert(ctx@ =~= render_node_spec(*node, f, t, h0, st0).1);
            }
        },
        Node::Heading { depth, children } => {
            proof {
                assert(render_node_spec(*node, f, t, h0, st0).0 == render_nodes_spec(
                    children@, f, t, h0 + "<h"@ + dec_digits_of(*depth as nat) + ">"@, st0).0
                    + "</h"@ + dec_digits_of(*depth as nat) + ">"@);
                assert(render_node_spec(*node, f, t, h0, st0).1 == render_nodes_spec(
                    children@, f, t, h0 + "<h"@ + dec_digits_of(*depth as nat) + ">"@, st0).1);
            }
            out.append("<h");
            push_u64(out, *depth as u64);
            out.append(">");
            render_children(children, out, folder, target_folder, ctx);
            out.append("</h");
            push_u64(out, *depth as u64);
            out.append(">");
        },
        Node::BlockQuote { children } => {
            proof {
                assert(render_node_spec(*node, f, t, h0, st0).0 == render_nodes_spec(
                    children@, f, t, h0 + "<blockquote>"@, st0).0 + "</blockquote>"@);
                assert(render_node_spec(*node, f, t, h0, st0).1 == render_nodes_spec(
                    children@, f, t, h0 + "<blockquote>"@, st0).1);
            }
            out.append("<blockquote>");
            render_children(children, out, folder, target_folder, ctx);
            out.append("</blockquote>");
        },
        Node::List { ordered, children } => {
            let ghost open_tag = if *ordered { "<ol>"@ } else { "<ul>"@ };
            let ghost close_tag = if *ordered { "</ol>"@ } else { "</ul>"@ };
            proof {
                assert(render_node_spec(*node, f, t, h0, st0).0 == render_nodes_spec(
                    children@, f, t, h0 + open_tag, st0).0 + close_tag);
                assert(render_node_spec(*node, f, t, h0, st0).1 == render_nodes_spec(
                    children@, f, t, h0 + open_tag, st0).1);
            }
            if *ordered {
                out.append("<ol>");
            } else {
                out.append("<ul>");
            }
            render_children(children, out, folder, target_folder, ctx);
            if *ordered {
                out.append("</ol>");
            } else {
                out.append("</ul>");
            }
        },
        Node::ListItem { children } => {
            proof {
                assert(render_node_spec(*node, f, t, h0, st0).0 == render_nodes_spec(
                    children@, f, t, h0 + "<li>"@, st0).0 + "</li>"@);
                assert(render_node_spec(*node, f, t, h0, st0).1 == render_nodes_spec(
                    children@, f, t, h0 + "<li>"@, st0).1);
            }
            out.append("<li>");
            render_children(children, out, folder, target_folder, ctx);
            out.append("</li>");
        },
        Node::Emphasis { children } => {
            proof {
                assert(render_node_spec(*node, f, t, h0, st0).0 == render_nodes_spec(
                    children@, f, t, h0 + "<em>"@, st0).0 + "</em>"@);
                assert(render_node_spec(*node, f, t, h0, st0).1 == render_nodes_spec(
                    children@, f, t, h0 + "<em>"@, st0).1);
            }
            out.append("<em>");
            render_children(children, out, folder, target_folder, ctx);
            out.append("</em>");
        },
        Node::Strong { children } => {
            proof {
                assert(render_node_spec(*node, f, t, h0, st0).0 == render_nodes_spec(
                    children@, f, t, h0 + "<strong>"@, st0).0 + "</strong>"@);
                assert(render_node_spec(*node, f, t, h0, st0).1 == render_nodes_spec(
                    children@, f, t, h0 + "<strong>"@, st0).1);
            }
            out.append("<strong>");
            render_children(children, out, folder, target_folder, ctx);
            out.append("</strong>");
        },
        Node::InlineCode { code } => {
            proof {
                assert(render_node_spec(*node, f, t, h0, st0).0 == h0 + "<code>"@ + code@
                    + "</code>"@);
                assert(render_node_spec(*node, f, t, h0, st0).1 == st0);
            }
            out.append("<code>");
            out.append(code.as_str());
            out.append("</code>");
        },
        Node::Code { lang, code } => {
            match lang {
                Some(l) => {
                    if str_eq(l.as_str(), "youtube") {
                        proof {
                            assert(render_node_spec(*node, f, t, h0, st0).1 == st0);
                        }
                        out.append("<iframe class=\"video\" src=\"https://www.youtube.com/embed/");
                        out.append(code.as_str());
                        out.append(
                            "\" title=\"YouTube video player\" frameborder=\"0\" allow=\"accelerometer; autoplay; clipboard-write; encrypted-media; gyroscope; picture-in-picture; web-share\" allowfullscreen></iframe>",
                        );
                    } else {
                        out.append("<pre><code class=\"language-");
                        out.append(l.as_str());
                        out.append(" code-block\">");
                        out.append(code.as_str());
                        out.append("</code></pre>");
                        register_lang_exec(&mut ctx.langs, l);
                        proof {
                            assert(ctx@ =~= lang_registered(st0, l@));
                            assert(render_node_spec(*node, f, t, h0, st0).1 == lang_registered(
                                st0, l@));
                        }
                    }
                },
                None => {
                    proof {
                        assert(render_node_spec(*node, f, t, h0, st0).1 == st0);
                    }
                    out.append("<pre><code>");
                    out.append(code.as_str());
                    out.append("</code></pre>");
                },
            }
        },
        Node::InlineMath { math } => {
            proof {
                assert(render_node_spec(*node, f, t, h0, st0).1 == st0);
            }
            out.append("<code class=\"language-math math-inline\">");
            out.append(math.as_str());
            out.append("</code>");
        },
        Node::Math { math } => {
            proof {
                assert(render_node_spec(*node, f, t, h0, st0).1 == st0);
            }
            out.append("<p class=\"katex-display-counter\"><code class=\"language-math math-block\">");
            out.append(math.as_str());
            out.append("</code></p>");
        },
        Node::LineBreak => {
            proof {
                assert(render_node_spec(*node, f, t, h0, st0).1 == st0);
            }
            out.append("<br />");
        },
        Node::ThematicBreak => {
            proof {
                assert(render_node_spec(*node, f, t, h0, st0).0 == h0);
                assert(render_node_spec(*node, f, t, h0, st0).1 == st0);
            }
        },
        Node::Html { html } => {
            proof {
                assert(render_node_spec(*node, f, t, h0, st0).0 == h0 + html@);
                assert(render_node_spec(*node, f, t, h0, st0).1 == st0);
            }
            out.append(html.as_str());
        },
        Node::Link { title, url, children } => {
            let ghost h1 = h0 + "<a class=\"link\" href=\""@ + url@ + "\" target=\"_blank\">"@;
            let ghost mid = match title {
                Some(tt) => (
                    h1 + tt@,
                    RenderState { words: st0.words + word_count_of(tt@), ..st0 },
                ),
                None => (h1, st0),
            };
            proof {
                assert(render_node_spec(*node, f, t, h0, st0).0 == render_nodes_spec(
                    children@, f, t, mid.0, mid.1).0 + "</a>"@);
                assert(render_node_spec(*node, f, t, h0, st0).1 == render_nodes_spec(
                    children@, f, t, mid.0, mid.1).1);
            }
            out.append("<a class=\"link\" href=\"");
            out.append(url.as_str());
            out.append("\" target=\"_blank\">");
            match title {
                Some(tt) => {
                    out.append(tt.as_str());
                    let c = count_words(tt.as_str());
                    proof {
                        lemma_nodes_mono(children@, f, t, mid.0, mid.1);
                    }
                    ctx.word_count = ctx.word_count + c;
                    proof {
                        assert(ctx@ =~= mid.1);
                    }
                },
                None => {},
            }
            render_children(children, out, folder, target_folder, ctx);
            out.append("</a>");
        },
        Node::Image { url, alt, width, height } => {
            render_image(url, alt, *width, *height, out, folder, target_folder, ctx);
        },
        Node::FootnoteDefinition { id, children } => {
            let ghost rr = render_nodes_spec(children@, f, t, Seq::empty(), st0);
            proof {
                assert(render_node_spec(*node, f, t, h0, st0).0 == h0);
                assert(render_node_spec(*node, f, t, h0, st0).1 == footnote_defined(
                    rr.1, id@, rr.0));
                lemma_find_footnote(rr.1.footnotes, id@);
            }
            let mut body = String::new();
            render_children(children, &mut body, folder, target_folder, ctx);
            let ghost stm = ctx@;
            match find_footnote_idx(&ctx.footnotes, id) {
                Some(j) => {
                    proof {
                        lemma_find_footnote(stm.footnotes, id@);
                    }
                    let old_f = ctx.footnotes.remove(j);
                    ctx.footnotes.insert(
                        j,
                        Footnote { id: old_f.id, count: old_f.count, html: body },
                    );
                    proof {
                        assert(ctx@.footnotes =~= stm.footnotes.update(
                            j as int,
                            FootnoteView {
                                id: stm.footnotes[j as int].id,
                                count: stm.footnotes[j as int].count,
                                html: rr.0,
                            },
                        ));
                        assert(ctx@ =~= footnote_defined(rr.1, id@, rr.0));
                    }
                },
                None => {
                    proof {
                        assert(footnote_defined(rr.1, id@, rr.0).footnotes.len()
                            == rr.1.footnotes.len() + 1);
                        assert(rr.1.footnotes.len() + 1 <= i32::MAX);
                    }
                    let c: i32 = (ctx.footnotes.len() + 1) as i32;
                    ctx.footnotes.push(Footnote { id: id.clone(), count: c, html: body });
                    proof {
                        assert(ctx@.footnotes =~= stm.footnotes.push(
                            FootnoteView {
                                id: id@,
                                count: stm.footnotes.len() as int + 1,
                                html: rr.0,
                            },
                        ));
                        assert(ctx@ =~= footnote_defined(rr.1, id@, rr.0));
                    }
                },
            }
        },
        Node::FootnoteReference { id } => {
            let ghost rr = footnote_referenced(st0, id@);
            proof {
                assert(render_node_spec(*node, f, t, h0, st0).0 == h0
                    + "<a class=\"footnote-ref\" href=\"#footnote_"@ + id@ + "\">["@
                    + int_digits_of(rr.0) + "]</a>"@);
                assert(render_node_spec(*node, f, t, h0, st0).1 == rr.1);
                lemma_find_footnote(st0.footnotes, id@);
            }
            let count: i32;
            match find_footnote_idx(&ctx.footnotes, id) {
                Some(j) => {
                    count = ctx.footnotes[j].count;
                    proof {
                        assert(ctx@ =~= rr.1);
                    }
                },
                None => {
                    proof {
                        assert(rr.1.footnotes.len() == st0.footnotes.len() + 1);
                        assert(st0.footnotes.len() + 1 <= i32::MAX);
                    }
                    let c: i32 = (ctx.footnotes.len() + 1) as i32;
                    ctx.footnotes.push(Footnote { id: id.clone(), count: c, html: String::new() });
                    count = c;
                    proof {
                        assert(ctx@.footnotes =~= st0.footnotes.push(
                            FootnoteView {
                                id: id@,
                                count: st0.footnotes.len() as int + 1,
                                html: Seq::empty(),
                            },
                        ));
                        assert(ctx@ =~= rr.1);
                    }
                },
            }
            out.append("<a class=\"footnote-ref\" href=\"#footnote_");
            out.append(id.as_str());
            out.append("\">[");
            push_i32(out, count);
            out.append("]</a>");
        },
        Node::Metadata { frontmatter } => {
            proof {
                assert(render_node_spec(*node, f, t, h0, st0).0 == h0);
                assert(render_node_spec(*node, f, t, h0, st0).1 == RenderState {
                    frontmatter: frontmatter@,
                    ..st0
                });
            }
            ctx.frontmatter = frontmatter.duplicate();
            proof {
                assert(ctx@ =~= render_node_spec(*node, f, t, h0, st0).1);
            }
        },
        Node::Unsupported => {
            proof {
                assert(render_node_spec(*node, f, t, h0, st0).0 == h0);
                assert(render_node_spec(*node, f, t, h0, st0).1 == st0);
            }
        },
    }
}

/// Renders a sequence of sibling nodes in document order.
fn render_children(
    children: &Vec<Node>,
    out: &mut String,
    folder: &str,
    target_folder: &str,
    ctx: &mut RenderContext,
)
    requires
        render_nodes_fits(children@, folder@, target_folder@, old(out)@, old(ctx)@),
    ensures
        final(out)@ == render_nodes_spec(
            children@, folder@, target_folder@, old(out)@, old(ctx)@).0,
        final(ctx)@ == render_nodes_spec(
            children@, folder@, target_folder@, old(out)@, old(ctx)@).1,
    decreases children,
{
    let ghost f = folder@;
    let ghost t = target_folder@;
    let ghost h0 = old(out)@;
    let ghost st0 = old(ctx)@;
    let ghost cs = children@;
    let mut j: usize = 0;
    proof {
        assert(cs.take(0) =~= Seq::<Node>::empty());
        assert(render_nodes_spec(cs.take(0), f, t, h0, st0).0 == h0);
        assert(render_nodes_spec(cs.take(0), f, t, h0, st0).1 == st0);
        assert(cs.skip(0) =~= cs);
    }
    while j < children.len()
        invariant
            0 <= j <= children.len(),
            cs == children@,
            f == folder@,
            t == target_folder@,
            h0 == old(out)@,
            st0 == old(ctx)@,
            out@ == render_nodes_spec(cs.take(j as int), f, t, h0, st0).0,
            ctx@ == render_nodes_spec(cs.take(j as int), f, t, h0, st0).1,
            render_nodes_spec(cs, f, t, h0, st0).0 == render_nodes_spec(
                cs.skip(j as int), f, t, out@, ctx@).0,
            render_nodes_spec(cs, f, t, h0, st0).1 == render_nodes_spec(
                cs.skip(j as int), f, t, out@, ctx@).1,
            state_fits(render_nodes_spec(cs, f, t, h0, st0).1),
        decreases children.len() - j,
    {
        proof {
            lemma_render_nodes_skip_step(cs, f, t, out@, ctx@, j as int);
            let rc = render_node_spec(cs[j as int], f, t, out@, ctx@);
            lemma_nodes_mono(cs.skip(j as int + 1), f, t, rc.0, rc.1);
        }
        let ghost prev_h = out@;
        let ghost prev_st = ctx@;
        render_markdown(&children[j], out, folder, target_folder, ctx);
        proof {
            lemma_render_nodes_snoc(cs, f, t, h0, st0, j as int);
            lemma_render_nodes_skip_step(cs, f, t, prev_h, prev_st, j as int);
        }
        j = j + 1;
    }
    proof {
        assert(cs.take(cs.len() as int) =~= cs);
    }
}

/// Renders an image node: caption and attribution from the alt text,
/// thumbnailing when oversized, the copy of the original, and the
/// representative-image update.
fn render_image(
    url: &String,
    alt: &String,
    width: u32,
    height: u32,
    out: &mut String,
    folder: &str,
    target_folder: &str,
    ctx: &mut RenderContext,
)
    ensures
        final(out)@ == image_spec(
            url@, alt@, width as nat, height as nat, folder@, target_folder@, old(out)@,
            old(ctx)@).0,
        final(ctx)@ == image_spec(
            url@, alt@, width as nat, height as nat, folder@, target_folder@, old(out)@,
            old(ctx)@).1,
{
    let ghost f = folder@;
    let ghost t = target_folder@;
    let ghost h0 = old(out)@;
    let ghost st0 = old(ctx)@;
    let ghost pv = split_on_bars(alt@);
    let ghost srcs = pv.drop_first().map_values(|p: Seq<char>| escaped_text(p));

    let parts: Vec<String> = crate::text::split_bars(alt.as_str());
    proof {
        crate::text::lemma_split_len(alt@);
        assert(parts@.map_values(|p: String| p@) == pv);
        assert(parts@.len() == pv.len());
        assert(parts@[0]@ == pv[0]);
    }
    let caption: String = crate::trusted::titlecase_text(parts[0].as_str());

    let mut sources: Vec<String> = Vec::new();
    let mut k: usize = 1;
    while k < parts.len()
        invariant
            1 <= k <= parts.len() || (parts.len() == 1 && k == 1),
            pv == parts@.map_values(|p: String| p@),
            pv.len() == parts@.len(),
            sources@.len() == k - 1,
            forall|i: int|
                0 <= i < k - 1 ==> sources@[i]@ == escaped_text(pv[i + 1]),
        decreases parts.len() - k,
    {
        proof {
            assert(parts@[k as int]@ == pv[k as int]);
        }
        sources.push(crate::trusted::escape_html(parts[k].as_str()));
        k = k + 1;
    }
    proof {
        assert(sources@.map_values(|p: String| p@) =~= srcs);
        assert(sources@.len() == srcs.len());
    }

    out.append("<div class=\"img-container\">");
    let from_path = slash_join(folder, url.as_str());
    if width > 768 || height > 400 {
        let dims = thumbnail_dims(width, height);
        let mut thumb_path = target_folder.to_owned();
        thumb_path.append("/");
        thumb_path.append(folder);
        thumb_path.append("/thumb_");
        thumb_path.append(url.as_str());
        let src_path = slash_join(folder, url.as_str());
        ctx.effects.push(
            ImageEffect::SaveThumbnail {
                source: src_path,
                target: thumb_path,
                width: dims.0,
                height: dims.1,
            },
        );
        out.append("<img class=\"img\" onclick=\"openImage(this)\" src=\"thumb_");
        out.append(url.as_str());
        out.append("\" original_src=\"");
        out.append(url.as_str());
        out.append("\" alt=\"");
        out.append(caption.as_str());
        out.append("\" sources='[");
        emit_quoted_list(out, &sources);
        out.append("]' />");
        let mut meta_url = folder.to_owned();
        meta_url.append("/thumb_");
        meta_url.append(url.as_str());
        update_meta(&mut ctx.meta_image, meta_url, dims.0, dims.1);
    } else {
        out.append("<img class=\"img\" onclick=\"openImage(this)\" src=\"");
        out.append(url.as_str());
        out.append("\" alt=\"");
        out.append(caption.as_str());
        out.append("\" sources='[");
        emit_quoted_list(out, &sources);
        out.append("]' />");
        let meta_url = slash_join(folder, url.as_str());
        update_meta(&mut ctx.meta_image, meta_url, width, height);
    }
    out.append("<div class=\"img-title\">");
    out.append(caption.as_str());
    emit_source_links(out, &sources);
    out.append("</div>");
    out.append("</div>");
    let mut to_path = target_folder.to_owned();
    to_path.append("/");
    to_path.append(folder);
    to_path.append("/");
    to_path.append(url.as_str());
    ctx.effects.push(ImageEffect::CopyImage { from: from_path, to: to_path });
    proof {
        let r = image_spec(url@, alt@, width as nat, height as nat, f, t, h0, st0);
        assert(out@ =~= r.0);
        assert(ctx@ =~= r.1);
    }
}


/// Footnotes ordered by identifier, the order of the definitions table.
pub open spec fn footnote_id_le(a: FootnoteView, b: FootnoteView) -> bool {
    lex_le(a.id, b.id)
}

/// One row of the footnote definitions table.
pub open spec fn footnote_row(fv: FootnoteView) -> Seq<char> {
    "<tr class=\"footnote-row\" id=\"footnote_"@ + fv.id + "\"><td>["@ + int_digits_of(fv.count)
        + "]: </td><td>"@ + fv.html + "</td></tr>"@
}

pub open spec fn footnote_rows(fs: Seq<FootnoteView>) -> Seq<char>
    decreases fs.len(),
{
    if fs.len() == 0 {
        Seq::empty()
    } else {
        footnote_row(fs[0]) + footnote_rows(fs.drop_first())
    }
}

/// The definitions table appended after the walk: nothing when there are
/// no footnotes, otherwise one row per footnote in identifier order (not
/// sequence-number order).
pub open spec fn footnote_table_spec(fs: Seq<FootnoteView>) -> Seq<char> {
    if fs.len() == 0 {
        Seq::empty()
    } else {
        "<table class=\"footnote-def\">"@ + footnote_rows(
            sort_by_ins(|a: FootnoteView, b: FootnoteView| footnote_id_le(a, b), fs),
        ) + "</table>"@
    }
}

proof fn lemma_footnote_rows_snoc(fs: Seq<FootnoteView>, i: int)
    requires
        0 <= i < fs.len(),
    ensures
        footnote_rows(fs.take(i + 1)) == footnote_rows(fs.take(i)) + footnote_row(fs[i]),
    decreases i,
{
    if i == 0 {
        assert(fs.take(0) =~= Seq::<FootnoteView>::empty());
        assert(fs.take(1) =~= seq![fs[0]]);
        assert(seq![fs[0]].drop_first() =~= Seq::<FootnoteView>::empty());
        assert(footnote_rows(fs.take(1)) == footnote_row(fs[0]) + footnote_rows(
            fs.take(1).drop_first(),
        ));
        assert(footnote_row(fs[0]) + Seq::<char>::empty() =~= footnote_row(fs[0]));
        assert(Seq::<char>::empty() + footnote_row(fs[0]) =~= footnote_row(fs[0]));
    } else {
        let d = fs.drop_first();
        lemma_footnote_rows_snoc(d, i - 1);
        assert(fs.take(i + 1)[0] == fs[0]);
        assert(fs.take(i)[0] == fs[0]);
        assert(fs.take(i + 1).drop_first() =~= d.take(i));
        assert(fs.take(i).drop_first() =~= d.take(i - 1));
        assert(d[i - 1] == fs[i]);
        assert(footnote_rows(fs.take(i + 1)) == footnote_row(fs[0]) + footnote_rows(d.take(i)));
        assert(footnote_rows(fs.take(i)) == footnote_row(fs[0]) + footnote_rows(d.take(i - 1)));
        assert(footnote_row(fs[0]) + (footnote_rows(d.take(i - 1)) + footnote_row(fs[i])) =~= (
        footnote_row(fs[0]) + footnote_rows(d.take(i - 1))) + footnote_row(fs[i]));
    }
}

/// Inserts a footnote into a run ordered by identifier, after any equal
/// identifiers already present.
fn insert_footnote_sorted(r: &mut Vec<Footnote>, x: Footnote)
    ensures
        final(r)@.map_values(|f: Footnote| f@) == insert_by(
            |a: FootnoteView, b: FootnoteView| footnote_id_le(a, b),
            old(r)@.map_values(|f: Footnote| f@),
            x@,
        ),
{
    let ghost le = |a: FootnoteView, b: FootnoteView| footnote_id_le(a, b);
    let ghost rv = r@.map_values(|f: Footnote| f@);
    let mut j: usize = 0;
    let mut searching = true;
    while searching && j < r.len()
        invariant
            le == (|a: FootnoteView, b: FootnoteView| footnote_id_le(a, b)),
            0 <= j <= r.len(),
            rv == r@.map_values(|f: Footnote| f@),
            rv.len() == r@.len(),
            forall|k: int| 0 <= k < j ==> le(#[trigger] rv[k], x@),
            !searching && j < r.len() ==> !le(rv[j as int], x@),
        decreases r.len() - j, (if searching { 1int } else { 0int }),
    {
        proof {
            assert(rv[j as int] == r@[j as int]@);
            assert(le(rv[j as int], x@) == lex_le(rv[j as int].id, x@.id));
            assert(rv[j as int].id == r@[j as int].id@);
            assert(x@.id == x.id@);
        }
        if str_lex_le(r[j].id.as_str(), x.id.as_str()) {
            proof {
                assert(le(rv[j as int], x@));
            }
            j = j + 1;
        } else {
            proof {
                assert(!le(rv[j as int], x@));
            }
            searching = false;
        }
    }
    proof {
        if (j as int) < rv.len() {
            assert(rv[j as int] == r@[j as int]@);
        }
        lemma_insert_by_at(le, rv, x@, j as int);
    }
    r.insert(j, x);
    proof {
        assert(r@.map_values(|f: Footnote| f@) =~= rv.take(j as int) + seq![x@] + rv.skip(
            j as int,
        ));
    }
}

/// Sorts footnotes by identifier with a stable insertion sort.
fn sort_footnotes(v: Vec<Footnote>) -> (r: Vec<Footnote>)
    ensures
        r@.map_values(|f: Footnote| f@) == sort_by_ins(
            |a: FootnoteView, b: FootnoteView| footnote_id_le(a, b),
            v@.map_values(|f: Footnote| f@),
        ),
{
    let ghost le = |a: FootnoteView, b: FootnoteView| footnote_id_le(a, b);
    let ghost orig = v@.map_values(|f: Footnote| f@);
    let mut rest = v;
    let mut r: Vec<Footnote> = Vec::new();
    let ghost mut k: int = 0;
    proof {
        assert(orig.take(0) =~= Seq::<FootnoteView>::empty());
        assert(r@.map_values(|f: Footnote| f@) =~= sort_by_ins(le, orig.take(0)));
        assert(rest@.map_values(|f: Footnote| f@) =~= orig.skip(0));
    }
    while rest.len() > 0
        invariant
            le == (|a: FootnoteView, b: FootnoteView| footnote_id_le(a, b)),
            0 <= k <= orig.len(),
            rest@.map_values(|f: Footnote| f@) == orig.skip(k),
            rest@.len() == orig.len() - k,
            r@.map_values(|f: Footnote| f@) == sort_by_ins(le, orig.take(k)),
        decreases rest.len(),
    {
        let x = rest.remove(0);
        proof {
            assert(rest@.map_values(|f: Footnote| f@) =~= orig.skip(k).drop_first());
            assert(orig.skip(k).drop_first() =~= orig.skip(k + 1));
            assert(x@ == orig.skip(k)[0]);
            assert(orig.skip(k)[0] == orig[k]);
            lemma_sort_by_ins_step(le, orig, k);
        }
        insert_footnote_sorted(&mut r, x);
        proof {
            k = k + 1;
        }
    }
    proof {
        assert(orig.take(orig.len() as int) =~= orig);
    }
    r
}

/// Appends the footnote definitions table, rows in identifier order, or
/// nothing when the document has no footnotes.
pub fn append_footnote_table(out: &mut String, footnotes: Vec<Footnote>)
    ensures
        final(out)@ == old(out)@ + footnote_table_spec(
            footnotes@.map_values(|f: Footnote| f@),
        ),
{
    let ghost fv = footnotes@.map_values(|f: Footnote| f@);
    if footnotes.len() == 0 {
        proof {
            assert(out@ =~= old(out)@ + footnote_table_spec(fv));
        }
        return ;
    }
    let ghost sorted_v = sort_by_ins(
        |a: FootnoteView, b: FootnoteView| footnote_id_le(a, b),
        fv,
    );
    out.append("<table class=\"footnote-def\">");
    let ghost base = out@;
    let sorted = sort_footnotes(footnotes);
    proof {
        crate::sorting::lemma_sort_by_ins_multiset(
            |a: FootnoteView, b: FootnoteView| footnote_id_le(a, b),
            fv,
        );
        assert(sorted_v.take(0) =~= Seq::<FootnoteView>::empty());
        assert(base + footnote_rows(sorted_v.take(0)) =~= base);
    }
    let mut i: usize = 0;
    while i < sorted.len()
        invariant
            0 <= i <= sorted.len(),
            sorted@.map_values(|f: Footnote| f@) == sorted_v,
            sorted@.len() == sorted_v.len(),
            base == old(out)@ + "<table class=\"footnote-def\">"@,
            out@ == base + footnote_rows(sorted_v.take(i as int)),
        decreases sorted.len() - i,
    {
        proof {
            lemma_footnote_rows_snoc(sorted_v, i as int);
            assert(sorted@[i as int]@ == sorted_v[i as int]);
        }
        out.append("<tr class=\"footnote-row\" id=\"footnote_");
        out.append(sorted[i].id.as_str());
        out.append("\"><td>[");
        push_i32(out, sorted[i].count);
        out.append("]: </td><td>");
        out.append(sorted[i].html.as_str());
        out.append("</td></tr>");
        proof {
            assert(out@ =~= base + footnote_rows(sorted_v.take(i as int + 1)));
        }
        i = i + 1;
    }
    out.append("</table>");
    proof {
        assert(sorted_v.take(sorted_v.len() as int) =~= sorted_v);
        assert(out@ =~= old(out)@ + footnote_table_spec(fv));
    }
}

/// Sorts strings into ascending lexicographic order with a stable
/// insertion sort; used for the language inventory.
pub fn sort_strings(v: Vec<String>) -> (r: Vec<String>)
    ensures
        r.deep_view() == sort_by_ins(
            |a: Seq<char>, b: Seq<char>| lex_le(a, b),
            v.deep_view(),
        ),
{
    let ghost le = |a: Seq<char>, b: Seq<char>| lex_le(a, b);
    let ghost orig = v.deep_view();
    let mut rest = v;
    let mut r: Vec<String> = Vec::new();
    let ghost mut k: int = 0;
    proof {
        assert(orig.take(0) =~= Seq::<Seq<char>>::empty());
        assert(r.deep_view() =~= sort_by_ins(le, orig.take(0)));
        assert(rest.deep_view() =~= orig.skip(0));
    }
    while rest.len() > 0
        invariant
            le == (|a: Seq<char>, b: Seq<char>| lex_le(a, b)),
            0 <= k <= orig.len(),
            rest.deep_view() == orig.skip(k),
            rest@.len() == orig.len() - k,
            r.deep_view() == sort_by_ins(le, orig.take(k)),
        decreases rest.len(),
    {
        let x = rest.remove(0);
        proof {
            assert(rest.deep_view() =~= orig.skip(k).drop_first());
            assert(orig.skip(k).drop_first() =~= orig.skip(k + 1));
            assert(x@ == orig.skip(k)[0]);
            assert(orig.skip(k)[0] == orig[k]);
            lemma_sort_by_ins_step(le, orig, k);
        }
        let ghost rv = r.deep_view();
        let mut j: usize = 0;
        let mut searching = true;
        while searching && j < r.len()
            invariant
                le == (|a: Seq<char>, b: Seq<char>| lex_le(a, b)),
                0 <= j <= r.len(),
                rv == r.deep_view(),
                rv.len() == r@.len(),
                forall|m: int| 0 <= m < j ==> le(#[trigger] rv[m], x@),
                !searching && j < r.len() ==> !le(rv[j as int], x@),
            decreases r.len() - j, (if searching { 1int } else { 0int }),
        {
            proof {
                assert(rv[j as int] == r@[j as int]@);
                assert(le(rv[j as int], x@) == lex_le(rv[j as int], x@));
            }
            if str_lex_le(r[j].as_str(), x.as_str()) {
                proof {
                    assert(le(rv[j as int], x@));
                }
                j = j + 1;
            } else {
                proof {
                    assert(!le(rv[j as int], x@));
                }
                searching = false;
            }
        }
        proof {
            if (j as int) < rv.len() {
                assert(rv[j as int] == r@[j as int]@);
            }
            lemma_insert_by_at(le, rv, x@, j as int);
        }
        r.insert(j, x);
        proof {
            assert(r.deep_view() =~= rv.take(j as int) + seq![x@] + rv.skip(j as int));
        }
        proof {
            k = k + 1;
        }
    }
    proof {
        assert(orig.take(orig.len() as int) =~= orig);
    }
    r
}


/// The words a tree contributes: its plain-text segments and hyperlink
/// titles; images, code blocks and raw HTML contribute nothing.
pub open spec fn tree_words(n: Node) -> nat
    decreases n,
{
    match n {
        Node::Root { children } => trees_words(children@),
        Node::Paragraph { children } => trees_words(children@),
        Node::Heading { depth, children } => trees_words(children@),
        Node::BlockQuote { children } => trees_words(children@),
        Node::List { ordered, children } => trees_words(children@),
        Node::ListItem { children } => trees_words(children@),
        Node::Emphasis { children } => trees_words(children@),
        Node::Strong { children } => trees_words(children@),
        Node::Text { text } => word_count_of(text@),
        Node::Link { title, url, children } => (match title {
            Some(t) => word_count_of(t@),
            None => 0,
        }) + trees_words(children@),
        Node::FootnoteDefinition { id, children } => trees_words(children@),
        _ => 0,
    }
}

pub open spec fn trees_words(ns: Seq<Node>) -> nat
    decreases ns,
{
    if ns.len() == 0 {
        0
    } else {
        tree_words(ns[0]) + trees_words(ns.drop_first())
    }
}

/// The word count a walk adds is exactly the tree's words: the sum of the
/// whitespace-delimited tokens of its plain-text segments and hyperlink
/// titles, whatever else the tree holds.
pub proof fn lemma_word_count_law(
    n: &Node,
    folder: Seq<char>,
    target: Seq<char>,
    html: Seq<char>,
    st: RenderState,
)
    ensures
        render_node_spec(*n, folder, target, html, st).1.words == st.words + tree_words(*n),
    decreases n,
{
    match n {
        Node::Root { children } => {
            lemma_trees_words(children@, folder, target, html, st);
            assert(render_node_spec(*n, folder, target, html, st).1 == render_nodes_spec(
                children@, folder, target, html, st).1);
        },
        Node::Paragraph { children } => {
            lemma_trees_words(children@, folder, target, html + "<p>"@, st);
            assert(render_node_spec(*n, folder, target, html, st).1 == render_nodes_spec(
                children@, folder, target, html + "<p>"@, st).1);
        },
        Node::Heading { depth, children } => {
            lemma_trees_words(children@, folder, target, html + "<h"@ + dec_digits_of(*depth as nat) + ">"@, st);
            assert(render_node_spec(*n, folder, target, html, st).1 == render_nodes_spec(
                children@, folder, target, html + "<h"@ + dec_digits_of(*depth as nat) + ">"@, st).1);
        },
        Node::BlockQuote { children } => {
            lemma_trees_words(children@, folder, target, html + "<blockquote>"@, st);
            assert(render_node_spec(*n, folder, target, html, st).1 == render_nodes_spec(
                children@, folder, target, html + "<blockquote>"@, st).1);
        },
        Node::ListItem { children } => {
            lemma_trees_words(children@, folder, target, html + "<li>"@, st);
            assert(render_node_spec(*n, folder, target, html, st).1 == render_nodes_spec(
                children@, folder, target, html + "<li>"@, st).1);
        },
        Node::Emphasis { children } => {
            lemma_trees_words(children@, folder, target, html + "<em>"@, st);
            assert(render_node_spec(*n, folder, target, html, st).1 == render_nodes_spec(
                children@, folder, target, html + "<em>"@, st).1);
        },
        Node::Strong { children } => {
            lemma_trees_words(children@, folder, target, html + "<strong>"@, st);
            assert(render_node_spec(*n, folder, target, html, st).1 == render_nodes_spec(
                children@, folder, target, html + "<strong>"@, st).1);
        },
        Node::List { ordered, children } => {
            let ghost open_tag = if *ordered { "<ol>"@ } else { "<ul>"@ };
            lemma_trees_words(children@, folder, target, html + open_tag, st);
            assert(render_node_spec(*n, folder, target, html, st).1 == render_nodes_spec(
                children@, folder, target, html + open_tag, st).1);
        },
        Node::Link { title, url, children } => {
            let ghost h1 = html + "<a class=\"link\" href=\""@ + url@ + "\" target=\"_blank\">"@;
            let ghost mid = match title {
                Some(tt) => (
                    h1 + tt@,
                    RenderState { words: st.words + word_count_of(tt@), ..st },
                ),
                None => (h1, st),
            };
            lemma_trees_words(children@, folder, target, mid.0, mid.1);
            assert(render_node_spec(*n, folder, target, html, st).1 == render_nodes_spec(
                children@, folder, target, mid.0, mid.1).1);
        },
        Node::FootnoteDefinition { id, children } => {
            lemma_trees_words(children@, folder, target, Seq::empty(), st);
            let r = render_nodes_spec(children@, folder, target, Seq::empty(), st);
            lemma_find_footnote(r.1.footnotes, id@);
            assert(render_node_spec(*n, folder, target, html, st).1 == footnote_defined(
                r.1, id@, r.0));
            assert(footnote_defined(r.1, id@, r.0).words == r.1.words);
        },
        Node::Text { text } => {
            assert(render_node_spec(*n, folder, target, html, st).1.words == st.words
                + word_count_of(text@));
        },
        Node::InlineCode { code } => {},
        Node::Code { lang, code } => {
            assert(render_node_spec(*n, folder, target, html, st).1.words == st.words);
        },
        Node::InlineMath { math } => {},
        Node::Math { math } => {},
        Node::LineBreak => {},
        Node::ThematicBreak => {},
        Node::Html { html: raw } => {},
        Node::Image { url, alt, width, height } => {
            assert(render_node_spec(*n, folder, target, html, st).1.words == st.words);
        },
        Node::FootnoteReference { id } => {
            assert(render_node_spec(*n, folder, target, html, st).1.words == st.words);
        },
        Node::Metadata { frontmatter } => {},
        Node::Unsupported => {},
    }
}

/// The words a sibling walk adds equal the sum over the siblings.
pub proof fn lemma_trees_words(
    ns: Seq<Node>,
    folder: Seq<char>,
    target: Seq<char>,
    html: Seq<char>,
    st: RenderState,
)
    ensures
        render_nodes_spec(ns, folder, target, html, st).1.words == st.words + trees_words(ns),
    decreases ns,
{
    if ns.len() > 0 {
        let r = render_node_spec(ns[0], folder, target, html, st);
        lemma_word_count_law(&ns[0], folder, target, html, st);
        lemma_trees_words(ns.drop_first(), folder, target, r.0, r.1);
    }
}

/// A well-formed footnote table: entry i carries sequence number i + 1,
/// so numbers run 1, 2, ... in order of first encounter.
pub open spec fn wf_footnote_table(fs: Seq<FootnoteView>) -> bool {
    forall|i: int| 0 <= i < fs.len() ==> (#[trigger] fs[i]).count == i + 1
}

/// Footnote sequence numbers are assigned in encounter order whether the
/// first encounter is a reference or a definition, and are stable once
/// assigned: the walk keeps every existing entry's identifier and number.
pub proof fn lemma_footnote_numbering(
    n: &Node,
    folder: Seq<char>,
    target: Seq<char>,
    html: Seq<char>,
    st: RenderState,
)
    requires
        wf_footnote_table(st.footnotes),
    ensures
        wf_footnote_table(render_node_spec(*n, folder, target, html, st).1.footnotes),
        render_node_spec(*n, folder, target, html, st).1.footnotes.len() >= st.footnotes.len(),
        forall|i: int|
            0 <= i < st.footnotes.len() ==> (#[trigger] render_node_spec(
                *n, folder, target, html, st).1.footnotes[i]).id == st.footnotes[i].id
                && render_node_spec(*n, folder, target, html, st).1.footnotes[i].count
                == st.footnotes[i].count,
    decreases n,
{
    match n {
        Node::Root { children } => {
            lemma_nodes_footnote_numbering(children@, folder, target, html, st);
            assert(render_node_spec(*n, folder, target, html, st).1 == render_nodes_spec(
                children@, folder, target, html, st).1);
        },
        Node::Paragraph { children } => {
            lemma_nodes_footnote_numbering(children@, folder, target, html + "<p>"@, st);
            assert(render_node_spec(*n, folder, target, html, st).1 == render_nodes_spec(
                children@, folder, target, html + "<p>"@, st).1);
        },
        Node::Heading { depth, children } => {
            lemma_nodes_footnote_numbering(children@, folder, target, html + "<h"@ + dec_digits_of(*depth as nat) + ">"@, st);
            assert(render_node_spec(*n, folder, target, html, st).1 == render_nodes_spec(
                children@, folder, target, html + "<h"@ + dec_digits_of(*depth as nat) + ">"@, st).1);
        },
        Node::BlockQuote { children } => {
            lemma_nodes_footnote_numbering(children@, folder, target, html + "<blockquote>"@, st);
            assert(render_node_spec(*n, folder, target, html, st).1 == render_nodes_spec(
                children@, folder, target, html + "<blockquote>"@, st).1);
        },
        Node::ListItem { children } => {
            lemma_nodes_footnote_numbering(children@, folder, target, html + "<li>"@, st);
            assert(render_node_spec(*n, folder, target, html, st).1 == render_nodes_spec(
                children@, folder, target, html + "<li>"@, st).1);
        },
        Node::Emphasis { children } => {
            lemma_nodes_footnote_numbering(children@, folder, target, html + "<em>"@, st);
            assert(render_node_spec(*n, folder, target, html, st).1 == render_nodes_spec(
                children@, folder, target, html + "<em>"@, st).1);
        },
        Node::Strong { children } => {
            lemma_nodes_footnote_numbering(children@, folder, target, html + "<strong>"@, st);
            assert(render_node_spec(*n, folder, target, html, st).1 == render_nodes_spec(
                children@, folder, target, html + "<strong>"@, st).1);
        },
        Node::List { ordered, children } => {
            let ghost open_tag = if *ordered { "<ol>"@ } else { "<ul>"@ };
            lemma_nodes_footnote_numbering(children@, folder, target, html + open_tag, st);
            assert(render_node_spec(*n, folder, target, html, st).1 == render_nodes_spec(
                children@, folder, target, html + open_tag, st).1);
        },
        Node::Link { title, url, children } => {
            let ghost h1 = html + "<a class=\"link\" href=\""@ + url@ + "\" target=\"_blank\">"@;
            let ghost mid = match title {
                Some(tt) => (
                    h1 + tt@,
                    RenderState { words: st.words + word_count_of(tt@), ..st },
                ),
                None => (h1, st),
            };
            lemma_nodes_footnote_numbering(children@, folder, target, mid.0, mid.1);
            assert(render_node_spec(*n, folder, target, html, st).1 == render_nodes_spec(
                children@, folder, target, mid.0, mid.1).1);
        },
        Node::FootnoteDefinition { id, children } => {
            lemma_nodes_footnote_numbering(children@, folder, target, Seq::empty(), st);
            let r = render_nodes_spec(children@, folder, target, Seq::empty(), st);
            lemma_find_footnote(r.1.footnotes, id@);
            assert(render_node_spec(*n, folder, target, html, st).1 == footnote_defined(
                r.1, id@, r.0));
            let out = footnote_defined(r.1, id@, r.0).footnotes;
            let j = find_footnote(r.1.footnotes, id@);
            if j >= 0 {
                assert forall|i: int| 0 <= i < out.len() implies (#[trigger] out[i]).count == i
                    + 1 by {
                    assert(r.1.footnotes[i].count == i + 1);
                }
            } else {
                assert forall|i: int| 0 <= i < out.len() implies (#[trigger] out[i]).count == i
                    + 1 by {
                    if i < r.1.footnotes.len() {
                        assert(r.1.footnotes[i].count == i + 1);
                    }
                }
            }
        },
        Node::Text { text } => {},
        Node::InlineCode { code } => {},
        Node::Code { lang, code } => {
            assert(render_node_spec(*n, folder, target, html, st).1.footnotes == st.footnotes);
        },
        Node::InlineMath { math } => {},
        Node::Math { math } => {},
        Node::LineBreak => {},
        Node::ThematicBreak => {},
        Node::Html { html: raw } => {},
        Node::Image { url, alt, width, height } => {
            assert(render_node_spec(*n, folder, target, html, st).1.footnotes == st.footnotes);
        },
        Node::FootnoteReference { id } => {
            lemma_find_footnote(st.footnotes, id@);
            let r = footnote_referenced(st, id@);
            assert(render_node_spec(*n, folder, target, html, st).1 == r.1);
            let out = r.1.footnotes;
            assert forall|i: int| 0 <= i < out.len() implies (#[trigger] out[i]).count == i
                + 1 by {
                if i < st.footnotes.len() {
                    assert(st.footnotes[i].count == i + 1);
                }
            }
        },
        Node::Metadata { frontmatter } => {},
        Node::Unsupported => {},
    }
}

/// The numbering law extended over a sequence of siblings.
pub proof fn lemma_nodes_footnote_numbering(
    ns: Seq<Node>,
    folder: Seq<char>,
    target: Seq<char>,
    html: Seq<char>,
    st: RenderState,
)
    requires
        wf_footnote_table(st.footnotes),
    ensures
        wf_footnote_table(render_nodes_spec(ns, folder, target, html, st).1.footnotes),
        render_nodes_spec(ns, folder, target, html, st).1.footnotes.len() >= st.footnotes.len(),
        forall|i: int|
            0 <= i < st.footnotes.len() ==> (#[trigger] render_nodes_spec(
                ns, folder, target, html, st).1.footnotes[i]).id == st.footnotes[i].id
                && render_nodes_spec(ns, folder, target, html, st).1.footnotes[i].count
                == st.footnotes[i].count,
    decreases ns,
{
    if ns.len() > 0 {
        let r = render_node_spec(ns[0], folder, target, html, st);
        lemma_footnote_numbering(&ns[0], folder, target, html, st);
        lemma_nodes_footnote_numbering(ns.drop_first(), folder, target, r.0, r.1);
    }
}

} // verus!
