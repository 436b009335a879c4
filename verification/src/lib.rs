//! A verified core for a one-shot static-blog build: a markdown-tree renderer
//! that produces HTML while accumulating footnotes, code languages, word
//! counts and a representative image, and a post assembler that orders posts
//! by date, cross-links neighbours, paginates fixed-size listing pages,
//! builds a tag index and derives the syndication-feed items.

pub mod assemble;
pub mod feed;
pub mod frontmatter;
pub mod gallery;
pub mod post;
pub mod publish;
pub mod render;
pub mod scaffold;
pub mod sorting;
pub mod tags;
pub mod text;
pub mod trusted;
