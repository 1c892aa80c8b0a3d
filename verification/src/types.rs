//! The comic record that search pages, snapshots and scans pass around.
use vstd::prelude::*;

verus! {

/// A comic as a search or category page lists it.
#[derive(Debug, Clone, PartialEq, Eq)]
pub struct ComicInSearch {
    pub id: i64,
    pub title: String,
    pub title_html: String,
    pub cover: String,
    pub additional_info: String,
    pub list_cate_id: Option<i64>,
}

impl ComicInSearch {
    pub fn id(&self) -> (r: i64)
        ensures
            r == self.id,
    {
        self.id
    }

    pub fn title(&self) -> (r: &str)
        ensures
            r@ == self.title@,
    {
        self.title.as_str()
    }

    pub fn title_html(&self) -> (r: &str)
        ensures
            r@ == self.title_html@,
    {
        self.title_html.as_str()
    }

    pub fn additional_info(&self) -> (r: &str)
        ensures
            r@ == self.additional_info@,
    {
        self.additional_info.as_str()
    }

    pub fn list_cate_id(&self) -> (r: Option<i64>)
        ensures
            r == self.list_cate_id,
    {
        self.list_cate_id
    }

    /// A field-by-field copy.
    pub fn duplicate(&self) -> (r: ComicInSearch)
        ensures
            r == *self,
    {
        ComicInSearch {
            id: self.id,
            title: self.title.clone(),
            title_html: self.title_html.clone(),
            cover: self.cover.clone(),
            additional_info: self.additional_info.clone(),
            list_cate_id: self.list_cate_id,
        }
    }
}

} // verus!
