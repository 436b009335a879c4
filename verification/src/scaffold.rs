//! The files a fresh blog or post starts from: the manifest and the
//! first content document, plus the folder name derived from a title.

use vstd::prelude::*;
use crate::trusted::slug_of;

verus! {

/// The manifest a new blog starts from, with its title and target folder
/// filled in.
pub open spec fn manifest_scaffold_of(title: Seq<char>, target: Seq<char>) -> Seq<char> {
    "title = \""@ + title
        + "\"\n# Your github repo\nrepo = \"https://github.com/shi-yan/QuipQuick\"\n# Url prefix if your blog is not deployed at the root. Need to have the slash /.\nprefix = \"\"\ntarget = \""@
        + target
        + "\"\n# Blog url\nurl = \"http://localhost:8000\"\ndescription = \"\"\"\nYour blog's description.\"\"\"\n# google_analytics_id = \"\"\n# Your blog's github discussion url\n# discussion_url = \"https://github.com/shi-yan/shi-yan.github.io/discussions\"\nlogo = \"logo.png\"\n\ncontent =[\"dummy_post\",]\n"@
}

/// Renders the starting manifest for a new blog.
pub fn manifest_scaffold(title: &str, target: &str) -> (r: String)
    ensures
        r@ == manifest_scaffold_of(title@, target@),
{
    let mut out = "title = \"".to_owned();
    out.append(title);
    out.append(
        "\"\n# Your github repo\nrepo = \"https://github.com/shi-yan/QuipQuick\"\n# Url prefix if your blog is not deployed at the root. Need to have the slash /.\nprefix = \"\"\ntarget = \"",
    );
    out.append(target);
    out.append(
        "\"\n# Blog url\nurl = \"http://localhost:8000\"\ndescription = \"\"\"\nYour blog's description.\"\"\"\n# google_analytics_id = \"\"\n# Your blog's github discussion url\n# discussion_url = \"https://github.com/shi-yan/shi-yan.github.io/discussions\"\nlogo = \"logo.png\"\n\ncontent =[\"dummy_post\",]\n",
    );
    out
}

/// The document a new post starts from, with its title and date filled
/// into the metadata block.
pub open spec fn post_scaffold_of(title: Seq<char>, date: Seq<char>) -> Seq<char> {
    "---\ntitle: \""@ + title + "\"\ndate: \""@ + date
        + "\"\ndescription: \"\"\ntags: []\n---\n\ncontent here\n"@
}

/// Renders the starting document for a new post.
pub fn post_scaffold(title: &str, date: &str) -> (r: String)
    ensures
        r@ == post_scaffold_of(title@, date@),
{
    let mut out = "---\ntitle: \"".to_owned();
    out.append(title);
    out.append("\"\ndate: \"");
    out.append(date);
    out.append("\"\ndescription: \"\"\ntags: []\n---\n\ncontent here\n");
    out
}

/// The work-folder name derived from a title: its slug with underscores.
pub fn folder_slug(title: &str) -> (r: String)
    ensures
        r@ == slug_of(title@, "_"@),
{
    proof {
        reveal_strlit("_");
    }
    crate::trusted::slugify_text(title, "_")
}

} // verus!
