//! The index itself: the ordered sequence of `(Locator, Filter)` pairs,
//! built once, then read-only.

use vstd::prelude::*;

use crate::extract::Section;
use crate::filter::Filter;
use crate::filter::dedup_first;
use crate::filter::filter_size;
use crate::filter::IndexBuildError;
use crate::locator::Locator;
use crate::text::lower_of;

verus! {

/// What one index entry looks like to the codec: the three locator
/// strings, the filter's serialized bucket bytes, and its item count.
#[verifier::ext_equal]
pub struct EntryV {
    pub title: Seq<char>,
    pub url: Seq<char>,
    pub breadcrumb: Seq<char>,
    pub blob: Seq<u8>,
    pub count: usize,
}

pub open spec fn entry_v(e: (Locator, Filter)) -> EntryV {
    EntryV {
        title: e.0.title@,
        url: e.0.url@,
        breadcrumb: e.0.breadcrumb@,
        blob: e.1.blob(),
        count: e.1.count(),
    }
}

/// The ordered collection of `(Locator, Filter)` pairs.  Order is document
/// traversal order and takes part in tie-breaking at query time; the index
/// is never mutated after the build finishes.
pub struct Index {
    pub entries: Vec<(Locator, Filter)>,
}

impl View for Index {
    type V = Seq<EntryV>;

    open spec fn view(&self) -> Seq<EntryV> {
        self.entries@.map_values(|e: (Locator, Filter)| entry_v(e))
    }
}

impl Index {
    /// Every filter's blob is whole non-empty buckets.
    pub open spec fn wf(&self) -> bool {
        forall|i: int| 0 <= i < self.entries@.len() ==> (#[trigger] self.entries@[i]).1.wf()
    }

    /// A fresh, empty index.
    pub fn new() -> (r: Index)
        ensures
            r.entries@.len() == 0,
            r.wf(),
    {
        Index { entries: Vec::new() }
    }

    /// How many sections the index holds.
    pub fn len(&self) -> (r: usize)
        ensures
            r == self.entries@.len(),
    {
        self.entries.len()
    }

    /// Adds one section under its locator: builds the filter over the
    /// section's token set (sized to ten slots per distinct token) and
    /// appends the pair.  Every given token is a member of the new filter;
    /// earlier entries are untouched.  A token that cannot be placed fails
    /// the whole build and leaves the index as it was; with no tokens the
    /// addition always succeeds.
    pub fn add_section(&mut self, locator: Locator, tokens: &Vec<String>) -> (r: Result<
        (),
        IndexBuildError,
    >)
        ensures
            r is Ok ==> {
                &&& final(self).entries@.len() == old(self).entries@.len() + 1
                &&& forall|i: int|
                    0 <= i < old(self).entries@.len() ==> final(self).entries@[i] == old(
                        self,
                    ).entries@[i]
                &&& final(self).entries@.last().0 == locator
                &&& final(self).entries@.last().1.wf()
                &&& final(self).entries@.last().1.blob().len() == filter_size(
                    dedup_first(tokens.deep_view()).len(),
                )
                &&& forall|i: int|
                    0 <= i < tokens@.len() ==> final(self).entries@.last().1.approx().contains(
                        lower_of(#[trigger] tokens@[i]@),
                    )
            },
            r matches Err(e) ==> *final(self) == *old(self) && e == IndexBuildError::FilterSaturated,
            tokens@.len() == 0 ==> r is Ok,
            old(self).wf() ==> final(self).wf(),
    {
        match Filter::build(tokens) {
            Ok(f) => {
                let ghost e0 = self.entries@;
                self.entries.push((locator, f));
                proof {
                    assert(forall|i: int|
                        0 <= i < e0.len() ==> self.entries@[i] == e0[i]);
                }
                Ok(())
            },
            Err(e) => Err(e),
        }
    }

    /// Adds a section produced by the extractor, indexing its heading,
    /// body, title and breadcrumb tokens.
    pub fn add_extracted(&mut self, section: &Section, tokens: &Vec<String>) -> (r: Result<
        (),
        IndexBuildError,
    >)
        ensures
            r is Ok ==> {
                &&& final(self).entries@.len() == old(self).entries@.len() + 1
                &&& forall|i: int|
                    0 <= i < old(self).entries@.len() ==> final(self).entries@[i] == old(
                        self,
                    ).entries@[i]
                &&& final(self).entries@.last().0@ == (
                    section.title@,
                    section.url@,
                    section.breadcrumb@,
                )
                &&& final(self).entries@.last().1.wf()
                &&& final(self).entries@.last().1.blob().len() == filter_size(
                    dedup_first(tokens.deep_view()).len(),
                )
                &&& forall|i: int|
                    0 <= i < tokens@.len() ==> final(self).entries@.last().1.approx().contains(
                        lower_of(#[trigger] tokens@[i]@),
                    )
            },
            r matches Err(e) ==> *final(self) == *old(self) && e == IndexBuildError::FilterSaturated,
            tokens@.len() == 0 ==> r is Ok,
            old(self).wf() ==> final(self).wf(),
    {
        self.add_section(section.locator(), tokens)
    }
}

} // verus!
