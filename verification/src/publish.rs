//! Build-wide configuration and the fragments derived from it.

use vstd::prelude::*;

verus! {

/// The blog-wide settings a build reads from its manifest; all plain
/// values, loaded outside the library.
pub struct BlogConfig {
    pub blog_title: String,
    pub blog_description: String,
    pub repo: String,
    pub blog_url: String,
    pub google_analytics_id: String,
    pub discussion_url: Option<String>,
    pub version: String,
}

/// The analytics page fragment for a measurement identifier, which appears
/// in it twice: once in the script address and once in the configuration
/// call.
pub open spec fn analytics_snippet_of(id: Seq<char>) -> Seq<char> {
    "<!-- Google tag (gtag.js) -->\n<script async src=\"https://www.googletagmanager.com/gtag/js?id="@
        + id + "\"></script>\n<script>\nwindow.dataLayer = window.dataLayer || [];\nfunction gtag() { dataLayer.push(arguments); }\ngtag('js', new Date());\ngtag('config', '"@
        + id + "');\n</script>"@
}

/// Renders the analytics page fragment for the given identifier.
pub fn generate_google_analytics_id(id: &str) -> (r: String)
    ensures
        r@ == analytics_snippet_of(id@),
{
    let mut out =
        "<!-- Google tag (gtag.js) -->\n<script async src=\"https://www.googletagmanager.com/gtag/js?id=".to_owned();
    out.append(id);
    out.append(
        "\"></script>\n<script>\nwindow.dataLayer = window.dataLayer || [];\nfunction gtag() { dataLayer.push(arguments); }\ngtag('js', new Date());\ngtag('config', '",
    );
    out.append(id);
    out.append("');\n</script>");
    out
}

} // verus!
