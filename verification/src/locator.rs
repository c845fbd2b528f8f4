//! The identifying triple for a retrievable section of the index.

use vstd::prelude::*;

verus! {

/// Identifies one retrievable section: the document title, the URL of the
/// section (anchor included), and the breadcrumb trail of ancestor headings.
/// Immutable once created; this is the externally visible search result.
pub struct Locator {
    pub title: String,
    pub url: String,
    pub breadcrumb: String,
}

impl View for Locator {
    type V = (Seq<char>, Seq<char>, Seq<char>);

    open spec fn view(&self) -> (Seq<char>, Seq<char>, Seq<char>) {
        (self.title@, self.url@, self.breadcrumb@)
    }
}

impl Locator {
    pub fn new(title: String, url: String, breadcrumb: String) -> (r: Locator)
        ensures
            r@ == (title@, url@, breadcrumb@),
    {
        Locator { title, url, breadcrumb }
    }
}

impl Clone for Locator {
    fn clone(&self) -> (r: Locator)
        ensures
            r@ == self@,
    {
        Locator {
            title: self.title.clone(),
            url: self.url.clone(),
            breadcrumb: self.breadcrumb.clone(),
        }
    }
}

} // verus!
