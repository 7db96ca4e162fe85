//! A heap file is a sequence of pages indexed from zero. This module holds the
//! decisions made over it: where a new record goes, and the order in which a
//! scan visits records. Reading and writing the pages is left to the caller.

use vstd::prelude::*;
use crate::page::{Page, PAGE_SIZE, HEADER_SIZE, SLOT_META_SIZE, add_outcome, records_from};

verus! {

/// Identifies a record: its container, and its page and slot inside that container.
#[derive(Clone, Copy, Debug)]
pub struct ValueId {
    pub container_id: u16,
    pub segment_id: Option<u16>,
    pub page_id: Option<u16>,
    pub slot_id: Option<u16>,
}

pub open spec fn value_id(container_id: u16, page_id: int, slot_id: u16) -> ValueId {
    ValueId { container_id, segment_id: None, page_id: Some(page_id as u16), slot_id: Some(slot_id) }
}

/// The records of page `pid`, from slot `from` on, each with its record id.
pub open spec fn tag_records(p: Page, container_id: u16, pid: int, from: int) -> Seq<(Seq<u8>, ValueId)> {
    records_from(p, from).map_values(|e: (Seq<u8>, u16)| (e.0, value_id(container_id, pid, e.1)))
}

/// Every live record of the file from page `pid`, slot `from` on: pages in
/// ascending order and, within a page, slots in ascending order.
pub open spec fn file_records(pages: Seq<Page>, container_id: u16, pid: int, from: int) -> Seq<(Seq<u8>, ValueId)>
    decreases pages.len() - pid,
{
    if pid < 0 || pid >= pages.len() {
        Seq::empty()
    } else {
        tag_records(pages[pid], container_id, pid, from) + file_records(pages, container_id, pid + 1, 0)
    }
}

pub open spec fn all_wf(pages: Seq<Page>) -> bool {
    forall|i: int| 0 <= i < pages.len() ==> (#[trigger] pages[i]).wf()
}

/// `value` fits in a page with this much free space, with its directory entry.
pub open spec fn fits(value: Seq<u8>, free: int) -> bool {
    value.len() + SLOT_META_SIZE <= free
}

/// Where `insert_value` puts a record: in the first page with room for it, or
/// else in a page appended at the end, with page id the former page count.
pub open spec fn insert_outcome(old: Seq<Page>, new: Seq<Page>, container_id: u16, value: Seq<u8>, r: ValueId) -> bool {
    &&& r.container_id == container_id
    &&& r.segment_id is None
    &&& r.page_id is Some
    &&& all_wf(new)
    &&& {
        let k = r.page_id->0 as int;
        &&& k <= old.len()
        &&& forall|j: int| 0 <= j < k ==> !fits(value, (#[trigger] old[j]).free_space_of())
        &&& if k < old.len() {
            &&& fits(value, old[k].free_space_of())
            &&& new.len() == old.len()
            &&& r.slot_id is Some
            &&& add_outcome(old[k], new[k], value, r.slot_id)
            &&& forall|j: int| 0 <= j < old.len() && j != k ==> new[j] == old[j]
        } else {
            &&& new.len() == old.len() + 1
            &&& new.subrange(0, k) == old
            &&& new[k].id() == k
            &&& new[k].directory().len() == (if r.slot_id is Some { 1int } else { 0 })
            &&& (r.slot_id is Some <==> fits(value, PAGE_SIZE - HEADER_SIZE))
            &&& r.slot_id matches Some(s) ==> s == 0 && new[k].records() == map![0u16 => value]
            &&& r.slot_id is None ==> new[k].records() == Map::<u16, Seq<u8>>::empty()
        }
    }
}

/// Stores `value` in the first page of `pages` whose free space holds it and
/// its directory entry; when none does, appends a new page (its id the former
/// page count) and stores it there. The returned id names the page and slot.
pub fn insert_value(pages: &mut Vec<Page>, container_id: u16, value: &[u8]) -> (r: ValueId)
    requires
        all_wf(old(pages)@),
        old(pages)@.len() < 65536,
        value@.len() <= PAGE_SIZE,
    ensures
        insert_outcome(old(pages)@, final(pages)@, container_id, value@, r),
{
    let n = pages.len();
    let mut k: usize = 0;
    while k < n
        invariant
            n == pages@.len(),
            pages@ == old(pages)@,
            all_wf(pages@),
            k <= n,
            forall|j: int| 0 <= j < k ==> !fits(value@, (#[trigger] pages@[j]).free_space_of()),
        ensures
            pages@ == old(pages)@,
            k <= n,
            k < n ==> fits(value@, pages@[k as int].free_space_of()),
            forall|j: int| 0 <= j < k ==> !fits(value@, (#[trigger] pages@[j]).free_space_of()),
        decreases n - k,
    {
        let free = pages[k].get_free_space();
        if value.len() <= free && free - value.len() >= SLOT_META_SIZE {
            break;
        }
        k += 1;
    }
    if k < n {
        let ghost before = pages@;
        let mut page = pages.remove(k);
        let slot = page.add_value(value);
        pages.insert(k, page);
        proof {
            assert forall|j: int| 0 <= j < pages@.len() implies (#[trigger] pages@[j]).wf() by {
                if j != k {
                    assert(pages@[j] == before[j]);
                }
            }
            assert forall|j: int| 0 <= j < before.len() && j != k implies pages@[j] == before[j] by {
                if j < k {
                    assert(pages@[j] == before[j]);
                } else {
                    assert(pages@[j] == before[j]);
                }
            }
        }
        let r = ValueId { container_id, segment_id: None, page_id: Some(k as u16), slot_id: slot };
        proof {
            assert(pages@[k as int] == page);
            assert(add_outcome(before[k as int], pages@[k as int], value@, slot));
            assert(all_wf(pages@));
            assert(r.page_id->0 as int == k);
        }
        r
    } else {
        let mut page = Page::new(n as u16);
        let slot = page.add_value(value);
        pages.push(page);
        proof {
            assert(pages@.subrange(0, n as int) =~= old(pages)@);
            if let Some(s) = slot {
                if s != 0 {
                    assert(page.records().dom().contains(0u16));
                }
                assert(page.records() =~= map![0u16 => value@]);
            }
        }
        let r = ValueId { container_id, segment_id: None, page_id: Some(n as u16), slot_id: slot };
        proof {
            assert(pages@[n as int] == page);
            assert(all_wf(pages@)) by {
                assert forall|j: int| 0 <= j < pages@.len() implies (#[trigger] pages@[j]).wf() by {
                    if j < n {
                        assert(pages@[j] == old(pages)@[j]);
                    }
                }
            }
            assert(page.slot_ids().len() == page.directory().len());
        }
        r
    }
}

/// A position in a scan of a heap file: the page to read next, and the slot
/// from which records on it are still to come.
pub struct HeapFileIterator {
    container_id: u16,
    page_id: usize,
    slot_id: u16,
}

impl HeapFileIterator {
    pub closed spec fn container(self) -> u16 {
        self.container_id
    }

    pub closed spec fn page_pos(self) -> int {
        self.page_id as int
    }

    pub closed spec fn slot_pos(self) -> int {
        self.slot_id as int
    }

    /// The records that a scan from this position yields over `pages`.
    pub open spec fn remaining(self, pages: Seq<Page>) -> Seq<(Seq<u8>, ValueId)> {
        file_records(pages, self.container(), self.page_pos(), self.slot_pos())
    }

    /// A scan of container `container_id` from its first record.
    pub fn new(container_id: u16) -> (it: HeapFileIterator)
        ensures
            it.container() == container_id,
            it.page_pos() == 0,
            it.slot_pos() == 0,
    {
        HeapFileIterator { container_id, page_id: 0, slot_id: 0 }
    }

    /// A scan of container `container_id` from the record `start` on.
    pub fn new_from(container_id: u16, start: ValueId) -> (it: HeapFileIterator)
        requires
            start.page_id is Some,
            start.slot_id is Some,
        ensures
            it.container() == container_id,
            it.page_pos() == start.page_id->0,
            it.slot_pos() == start.slot_id->0,
    {
        let page_id = match start.page_id {
            Some(p) => p,
            None => 0,
        };
        let slot_id = match start.slot_id {
            Some(s) => s,
            None => 0,
        };
        HeapFileIterator { container_id, page_id: page_id as usize, slot_id }
    }

    /// The page the scan reads next.
    pub fn current_page(&self) -> (r: usize)
        ensures
            r == self.page_pos(),
    {
        self.page_id
    }

    /// Takes one step on `page`, the page at the scan's position: yields its
    /// next record, or, at the end of the page, moves to slot 0 of the next
    /// page and yields none.
    pub fn advance(&mut self, page: &Page) -> (r: Option<(Vec<u8>, ValueId)>)
        requires
            page.wf(),
            old(self).page_pos() < 65536,
        ensures
            final(self).container() == old(self).container(),
            r matches Some((v, id)) ==> {
                &&& final(self).page_pos() == old(self).page_pos()
                &&& tag_records(*page, old(self).container(), old(self).page_pos(), old(self).slot_pos())
                    == seq![(v@, id)] + tag_records(*page, old(self).container(), old(self).page_pos(), final(self).slot_pos())
            },
            r is None ==> {
                &&& final(self).page_pos() == old(self).page_pos() + 1
                &&& final(self).slot_pos() == 0
                &&& tag_records(*page, old(self).container(), old(self).page_pos(), old(self).slot_pos())
                    == Seq::<(Seq<u8>, ValueId)>::empty()
            },
    {
        match page.next_record(self.slot_id) {
            Some((v, s)) => {
                proof {
                    page.lemma_bounds();
                }
                let ghost before = *self;
                let id = ValueId {
                    container_id: self.container_id,
                    segment_id: None,
                    page_id: Some(self.page_id as u16),
                    slot_id: Some(s),
                };
                self.slot_id = s + 1;
                proof {
                    let f = |e: (Seq<u8>, u16)| (e.0, value_id(before.container_id, before.page_id as int, e.1));
                    let rest = records_from(*page, s + 1);
                    assert((seq![(v@, s)] + rest).map_values(f) =~= seq![(v@, id)] + rest.map_values(f));
                }
                Some((v, id))
            },
            None => {
                proof {
                    assert(records_from(*page, self.slot_id as int).map_values(
                        |e: (Seq<u8>, u16)| (e.0, value_id(self.container_id, self.page_id as int, e.1)),
                    ) =~= Seq::<(Seq<u8>, ValueId)>::empty());
                }
                self.page_id = self.page_id + 1;
                self.slot_id = 0;
                None
            },
        }
    }
}

pub open spec fn entries_view(s: Seq<(Vec<u8>, ValueId)>) -> Seq<(Seq<u8>, ValueId)> {
    s.map_values(|e: (Vec<u8>, ValueId)| (e.0@, e.1))
}

/// Scans a whole heap file held in memory by stepping a `HeapFileIterator`
/// page by page: every live record comes out exactly once, pages in ascending
/// order and slots in ascending order within a page.
pub fn scan_records(pages: &Vec<Page>, container_id: u16) -> (r: Vec<(Vec<u8>, ValueId)>)
    requires
        all_wf(pages@),
        pages@.len() <= 65536,
    ensures
        entries_view(r@) == file_records(pages@, container_id, 0, 0),
{
    let mut it = HeapFileIterator::new(container_id);
    let mut out: Vec<(Vec<u8>, ValueId)> = Vec::new();
    while it.current_page() < pages.len()
        invariant
            all_wf(pages@),
            pages@.len() <= 65536,
            it.container() == container_id,
            it.page_pos() <= pages@.len(),
            entries_view(out@) + it.remaining(pages@) == file_records(pages@, container_id, 0, 0),
        decreases pages@.len() - it.page_pos(), file_records(pages@, container_id, it.page_pos(), it.slot_pos()).len(),
    {
        let pid = it.current_page();
        let ghost before = it;
        let ghost outs = out@;
        let step = it.advance(&pages[pid]);
        match step {
            Some(x) => {
                assert(tag_records(pages@[pid as int], container_id, pid as int, before.slot_pos()) == seq![(x.0@, x.1)]
                    + tag_records(pages@[pid as int], container_id, pid as int, it.slot_pos()));
                out.push(x);
                proof {
                    assert(entries_view(out@) =~= entries_view(outs).push((x.0@, x.1)));
                    let rest = file_records(pages@, container_id, pid + 1, 0);
                    assert(before.remaining(pages@) == tag_records(pages@[pid as int], container_id, pid as int, before.slot_pos()) + rest);
                    assert(it.remaining(pages@) == tag_records(pages@[pid as int], container_id, pid as int, it.slot_pos()) + rest);
                    let t1 = tag_records(pages@[pid as int], container_id, pid as int, before.slot_pos());
                    let t2 = tag_records(pages@[pid as int], container_id, pid as int, it.slot_pos());
                    assert(t1 == seq![(x.0@, x.1)] + t2);
                    assert(before.remaining(pages@) =~= seq![(x.0@, x.1)] + it.remaining(pages@));
                    assert(entries_view(out@) + it.remaining(pages@) =~= entries_view(outs) + before.remaining(pages@));
                }
            },
            None => {
                proof {
                    assert(before.remaining(pages@) =~= it.remaining(pages@));
                }
            },
        }
    }
    proof {
        assert(it.remaining(pages@) =~= Seq::<(Seq<u8>, ValueId)>::empty());
        assert(entries_view(out@) =~= entries_view(out@) + it.remaining(pages@));
    }
    out
}

} // verus!
