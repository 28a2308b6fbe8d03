//! Pages of a Parquet file and sets of them.
use std::cmp::Ordering;
use vstd::prelude::*;
use crate::rect::Extent;

verus! {

/// The place of a data page: its row group, and its number within the row group's column.
#[derive(Clone, Copy, Debug, PartialEq, Eq, Ord, Hash, Structural)]
pub struct PageInfo {
    pub row_group_id: usize,
    pub page_id: usize,
}

impl PageInfo {
    /// Whether this page comes before `other` in the file.
    pub open spec fn precedes(self, other: PageInfo) -> bool {
        ||| self.row_group_id < other.row_group_id
        ||| self.row_group_id == other.row_group_id && self.page_id < other.page_id
    }
}

/// Pages order by row group, then by page.
pub open spec fn page_order(a: PageInfo, b: PageInfo) -> Ordering {
    if a == b {
        Ordering::Equal
    } else if a.precedes(b) {
        Ordering::Less
    } else {
        Ordering::Greater
    }
}

impl PageInfo {
    /// Compares two pages by row group, then by page.
    pub fn cmp(&self, other: &PageInfo) -> (order: Ordering)
        ensures
            order == page_order(*self, *other),
    {
        if *self == *other {
            return Ordering::Equal;
        }
        if self.row_group_id < other.row_group_id {
            return Ordering::Less;
        }
        if self.row_group_id == other.row_group_id && self.page_id < other.page_id {
            return Ordering::Less;
        }
        Ordering::Greater
    }

    /// Whether this page comes before `other` in the file.
    pub fn is_before(&self, other: &PageInfo) -> (before: bool)
        ensures
            before == self.precedes(*other),
    {
        match self.cmp(other) {
            Ordering::Less => true,
            _ => false,
        }
    }
}

impl PartialOrd for PageInfo {
    fn partial_cmp(&self, other: &PageInfo) -> (order: Option<Ordering>) {
        Some(self.cmp(other))
    }
}

impl vstd::std_specs::cmp::PartialOrdSpecImpl for PageInfo {
    open spec fn obeys_partial_cmp_spec() -> bool {
        true
    }

    open spec fn partial_cmp_spec(&self, other: &PageInfo) -> Option<Ordering> {
        Some(page_order(*self, *other))
    }
}

/// The order of pages is total: exactly one of "before", "same" and "after" holds, swapping
/// the pages swaps "before" and "after", and "before" is transitive.
pub proof fn law_page_order_is_total(a: PageInfo, b: PageInfo, c: PageInfo)
    ensures
        page_order(a, b) == Ordering::Equal <==> a == b,
        page_order(a, b) == Ordering::Less <==> page_order(b, a) == Ordering::Greater,
        page_order(a, b) == Ordering::Less && page_order(b, c) == Ordering::Less ==> page_order(
            a,
            c,
        ) == Ordering::Less,
{
}

/// The bounds of a page.
#[derive(Clone, Copy, Debug, PartialEq, Eq, Structural)]
pub struct PageBounds {
    pub bounds: Extent,
    pub data: PageInfo,
}

/// Whether every page comes before all later ones, so that none occurs twice.
pub open spec fn in_file_order(pages: Seq<PageInfo>) -> bool {
    forall|i: int, j: int|
        0 <= i < j < pages.len() ==> (#[trigger] pages[i]).precedes(#[trigger] pages[j])
}

/// A set of pages.
#[derive(Debug)]
pub struct PageSet {
    pages: Vec<PageInfo>,
}

impl View for PageSet {
    type V = Set<PageInfo>;

    closed spec fn view(&self) -> Set<PageInfo> {
        self.pages@.to_set()
    }
}

impl PageSet {
    /// The pages are kept in file order, each once.
    pub closed spec fn wf(self) -> bool {
        in_file_order(self.pages@)
    }

    /// The set without pages.
    pub fn new() -> (set: PageSet)
        ensures
            set.wf(),
            set@ == Set::<PageInfo>::empty(),
    {
        let set = PageSet { pages: Vec::new() };
        assert(set@ =~= Set::<PageInfo>::empty());
        set
    }

    /// The number of pages that come before `page`.
    fn rank(&self, page: &PageInfo) -> (rank: usize)
        requires
            self.wf(),
        ensures
            rank <= self.pages@.len(),
            forall|i: int| 0 <= i < rank ==> (#[trigger] self.pages@[i]).precedes(*page),
            forall|i: int|
                rank <= i < self.pages@.len() ==> !(#[trigger] self.pages@[i]).precedes(*page),
    {
        let mut low: usize = 0;
        let mut high: usize = self.pages.len();
        while low < high
            invariant
                self.wf(),
                low <= high <= self.pages@.len(),
                forall|i: int| 0 <= i < low ==> (#[trigger] self.pages@[i]).precedes(*page),
                forall|i: int|
                    high <= i < self.pages@.len() ==> !(#[trigger] self.pages@[i]).precedes(*page),
            decreases high - low,
        {
            let mid: usize = low + (high - low) / 2;
            let ghost at = self.pages@[mid as int];
            if self.pages[mid].is_before(page) {
                assert forall|i: int| 0 <= i < mid + 1 implies (
                #[trigger] self.pages@[i]).precedes(*page) by {
                    if i < mid {
                        assert(self.pages@[i].precedes(at));
                    }
                }
                low = mid + 1;
            } else {
                assert forall|i: int| mid <= i < self.pages@.len() implies !(
                #[trigger] self.pages@[i]).precedes(*page) by {
                    if i > mid {
                        assert(at.precedes(self.pages@[i]));
                    }
                }
                high = mid;
            }
        }
        low
    }

    /// Whether the set holds `page`.
    pub fn contains(&self, page: &PageInfo) -> (found: bool)
        requires
            self.wf(),
        ensures
            found == self@.contains(*page),
    {
        let rank: usize = self.rank(page);
        let found: bool = rank < self.pages.len() && self.pages[rank] == *page;
        proof {
            if self@.contains(*page) {
                let i = choose|i: int| 0 <= i < self.pages@.len() && self.pages@[i] == *page;
                if rank < i {
                    assert(self.pages@[rank as int].precedes(self.pages@[i]));
                }
            }
        }
        found
    }

    /// Puts `page` into the set.
    pub fn insert(&mut self, page: PageInfo)
        requires
            old(self).wf(),
        ensures
            final(self).wf(),
            final(self)@ == old(self)@.insert(page),
    {
        let ghost before = self.pages@;
        let rank: usize = self.rank(&page);
        if rank < self.pages.len() && self.pages[rank] == page {
            assert(self@ =~= old(self)@.insert(page));
            return;
        }
        self.pages.insert(rank, page);
        proof {
            let after = self.pages@;
            assert(after == before.insert(rank as int, page));
            assert forall|i: int, j: int| 0 <= i < j < after.len() implies (
            #[trigger] after[i]).precedes(#[trigger] after[j]) by {
                let a: int = if i < rank {
                    i
                } else {
                    i - 1
                };
                let b: int = if j < rank {
                    j
                } else {
                    j - 1
                };
                if i == rank {
                    assert(after[j] == before[b]);
                    assert(!before[b].precedes(page));
                    if rank < b {
                        assert(before[rank as int].precedes(before[b]));
                    }
                } else if j == rank {
                    assert(after[i] == before[a]);
                } else {
                    assert(after[i] == before[a]);
                    assert(after[j] == before[b]);
                }
            }
            assert(self@ =~= old(self)@.insert(page)) by {
                assert forall|p: PageInfo| self@.contains(p) == old(self)@.insert(page).contains(
                    p,
                ) by {
                    if old(self)@.contains(p) {
                        let i = choose|i: int| 0 <= i < before.len() && before[i] == p;
                        if i < rank {
                            assert(after[i] == p);
                        } else {
                            assert(after[i + 1] == p);
                        }
                    }
                    if p == page {
                        assert(after[rank as int] == p);
                    }
                    if self@.contains(p) {
                        let i = choose|i: int| 0 <= i < after.len() && after[i] == p;
                        if i < rank {
                            assert(before[i] == p);
                        } else if i > rank {
                            assert(before[i - 1] == p);
                        }
                    }
                }
            }
        }
    }

    /// Whether the set holds no page.
    pub fn is_empty(&self) -> (empty: bool)
        ensures
            empty == (self@ == Set::<PageInfo>::empty()),
    {
        let empty: bool = self.pages.len() == 0;
        proof {
            if empty {
                assert(self@ =~= Set::<PageInfo>::empty());
            } else {
                assert(self@.contains(self.pages@[0]));
            }
        }
        empty
    }

    /// The number of pages in the set.
    pub fn len(&self) -> (count: usize)
        requires
            self.wf(),
        ensures
            count == self@.len(),
    {
        proof {
            assert(self.pages@.no_duplicates());
            self.pages@.unique_seq_to_set();
        }
        self.pages.len()
    }
}

} // verus!
