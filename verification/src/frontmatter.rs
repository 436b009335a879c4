//! The metadata block embedded at the top of a content document.

use vstd::prelude::*;

verus! {

/// The document metadata: a title and a date (both required by the build),
/// an optional description, optional tags, and a draft flag. A draft is
/// rendered but dropped before assembly.
pub struct FrontmatterInfo {
    pub title: String,
    pub date: String,
    pub description: String,
    pub tags: Vec<String>,
    pub is_draft: bool,
}

#[verifier::ext_equal]
pub struct FrontmatterView {
    pub title: Seq<char>,
    pub date: Seq<char>,
    pub description: Seq<char>,
    pub tags: Seq<Seq<char>>,
    pub is_draft: bool,
}

impl View for FrontmatterInfo {
    type V = FrontmatterView;

    open spec fn view(&self) -> FrontmatterView {
        FrontmatterView {
            title: self.title@,
            date: self.date@,
            description: self.description@,
            tags: self.tags.deep_view(),
            is_draft: self.is_draft,
        }
    }
}

impl FrontmatterInfo {
    /// Whether the document joins the assembled corpus: a draft is
    /// rendered but dropped before assembly.
    pub fn keep_for_assembly(&self) -> (r: bool)
        ensures
            r == !self@.is_draft,
    {
        !self.is_draft
    }

    /// An equal copy.
    pub fn duplicate(&self) -> (r: FrontmatterInfo)
        ensures
            r@ == self@,
    {
        let r = FrontmatterInfo {
            title: self.title.clone(),
            date: self.date.clone(),
            description: self.description.clone(),
            tags: self.tags.clone(),
            is_draft: self.is_draft,
        };
        proof {
            assert(r@.tags =~= self@.tags);
            assert(r@ =~= self@);
        }
        r
    }

    /// The state before any metadata block has been seen: everything empty,
    /// not a draft.
    pub fn empty() -> (r: FrontmatterInfo)
        ensures
            r@.title.len() == 0,
            r@.date.len() == 0,
            r@.description.len() == 0,
            r@.tags.len() == 0,
            !r@.is_draft,
    {
        FrontmatterInfo {
            title: String::new(),
            date: String::new(),
            description: String::new(),
            tags: Vec::new(),
            is_draft: false,
        }
    }
}

} // verus!
