//! The feed builder: derives one syndication item per assembled post and
//! hands the channel to the rss crate for serialization. The document is
//! pinned as a named function of the channel fields, the optional image
//! address and the items' fields, so the feed is reproducible: the same
//! posts and configuration give the same bytes.

use vstd::prelude::*;
use crate::post::{opt_view, Post};
use crate::publish::BlogConfig;
use crate::trusted::titlecased_of;

verus! {

/// One feed entry: the permalink doubles as the globally unique
/// identifier.
pub struct FeedItem {
    pub title: String,
    pub link: String,
    pub description: String,
    pub comments: Option<String>,
    pub guid: String,
}

/// A post's permanent address: the blog address, a slash, its folder.
pub open spec fn permalink_of(blog_url: Seq<char>, src: Seq<char>) -> Seq<char> {
    blog_url + "/"@ + src
}

/// What the feed shows for one post: the title title-cased once more (as
/// the feed displays it), the permalink, the description, the discussion
/// address when one is configured, and the permalink again as the
/// identifier.
pub open spec fn feed_item_for(it: FeedItem, p: Post, blog_url: Seq<char>) -> bool {
    &&& it.title@ == titlecased_of(p.title@)
    &&& it.link@ == permalink_of(blog_url, p.src@)
    &&& it.guid@ == it.link@
    &&& it.description@ == p.description@
    &&& opt_view(it.comments) == opt_view(p.discussion_url)
}

/// Derives the feed items from the assembled posts, in list order.
pub fn build_feed_items(posts: &Vec<Post>, blog_url: &str) -> (items: Vec<FeedItem>)
    ensures
        items@.len() == posts@.len(),
        forall|i: int|
            0 <= i < posts@.len() ==> feed_item_for(#[trigger] items@[i], posts@[i], blog_url@),
{
    let mut items: Vec<FeedItem> = Vec::new();
    let mut i: usize = 0;
    while i < posts.len()
        invariant
            0 <= i <= posts@.len(),
            items@.len() == i,
            forall|k: int|
                0 <= k < i ==> feed_item_for(#[trigger] items@[k], posts@[k], blog_url@),
        decreases posts.len() - i,
    {
        let mut link = blog_url.to_owned();
        link.append("/");
        link.append(posts[i].src.as_str());
        let guid = link.clone();
        let comments = match &posts[i].discussion_url {
            Some(u) => Some(u.clone()),
            None => None,
        };
        items.push(
            FeedItem {
                title: crate::trusted::titlecase_text(posts[i].title.as_str()),
                link: link,
                description: posts[i].description.clone(),
                comments: comments,
                guid: guid,
            },
        );
        i = i + 1;
    }
    items
}

/// The fields of one item that reach the document, in order: title,
/// link, description, optional comments address, identifier.
pub open spec fn feed_item_fields(it: FeedItem) -> (
    Seq<char>,
    Seq<char>,
    Seq<char>,
    Option<Seq<char>>,
    Seq<char>,
) {
    (it.title@, it.link@, it.description@, opt_view(it.comments), it.guid@)
}

/// The RSS 2.0 document for a channel: its title, address and
/// description, the image address when one is carried (the image's
/// title and link repeat the channel's), and the items' fields in
/// order. A deterministic function of these values alone, far too
/// large to state, so it is named.
pub uninterp spec fn rss_xml_of(
    title: Seq<char>,
    link: Seq<char>,
    description: Seq<char>,
    image_url: Option<Seq<char>>,
    items: Seq<(Seq<char>, Seq<char>, Seq<char>, Option<Seq<char>>, Seq<char>)>,
) -> Seq<char>;

/// Relies on rss's `GuidBuilder`, `ItemBuilder`, `ImageBuilder` and
/// `ChannelBuilder`, and on the channel's XML rendering: the builders
/// only move the fields handed over (the image carries the channel's
/// title and address beside its own), the builders are infallible, and
/// the rendering writes the fields in a fixed order — a deterministic
/// function of them alone, named `rss_xml_of`.
#[verifier::external_body]
fn rss_channel_to_xml(
    title: &String,
    link: &String,
    description: &String,
    image_url: Option<String>,
    items: Vec<FeedItem>,
) -> (r: String)
    ensures
        r@ == rss_xml_of(
            title@,
            link@,
            description@,
            match image_url {
                Some(u) => Some(u@),
                None => None,
            },
            items@.map_values(|it: FeedItem| feed_item_fields(it)),
        ),
{
    let v: Vec<rss::Item> = items.into_iter().map(|it| rss::ItemBuilder::default()
        .title(it.title).link(it.link).description(it.description).comments(it.comments)
        .guid(rss::GuidBuilder::default().value(it.guid).build()).build()).collect();
    let image = image_url.map(|u| rss::ImageBuilder::default()
        .url(u).title(title.clone()).link(link.clone()).build());
    rss::ChannelBuilder::default().title(title.clone()).link(link.clone())
        .description(description.clone()).image(image).items(v).build().to_string()
}

/// Serializes the feed: the named rendering of the configured channel
/// fields, the channel image — present exactly when a logo is
/// configured, at the blog address followed by the logo path — and the
/// items' fields in list order. Same inputs, same document.
pub fn feed_xml(items: Vec<FeedItem>, cfg: &BlogConfig, logo_url: Option<&String>) -> (r: String)
    ensures
        r@ == rss_xml_of(
            cfg.blog_title@,
            cfg.blog_url@,
            cfg.blog_description@,
            match logo_url {
                Some(u) => Some(cfg.blog_url@ + "/"@ + u@),
                None => None,
            },
            items@.map_values(|it: FeedItem| feed_item_fields(it)),
        ),
{
    match logo_url {
        Some(u) => {
            let mut full = cfg.blog_url.clone();
            full.append("/");
            full.append(u.as_str());
            rss_channel_to_xml(
                &cfg.blog_title,
                &cfg.blog_url,
                &cfg.blog_description,
                Some(full),
                items,
            )
        },
        None => rss_channel_to_xml(
            &cfg.blog_title,
            &cfg.blog_url,
            &cfg.blog_description,
            None,
            items,
        ),
    }
}

} // verus!
