//! The slotted page: a fixed-size buffer holding a header, an append-only slot
//! directory growing upward from the header, and a payload region growing
//! downward from the end of the page, packed without holes.

use vstd::prelude::*;

verus! {

/// Size in bytes of every page.
pub const PAGE_SIZE: usize = 4096;

/// Size of the page header: page id, live slots, first free offset, directory length.
pub const HEADER_SIZE: usize = 8;

/// Size of one slot-directory entry: slot id, payload size, payload end offset.
pub const SLOT_META_SIZE: usize = 6;

/// One entry of the slot directory. A deleted entry is all zeros; a live entry
/// has a nonzero `offset`, the index one past the last byte of its payload.
#[derive(Clone, Copy, PartialEq, Eq, Debug, Structural)]
pub struct SlotHeader {
    pub slot_id: u16,
    pub size: u16,
    pub offset: u16,
}

impl SlotHeader {
    pub open spec fn is_live(self) -> bool {
        self.offset != 0
    }
}

pub open spec fn cleared_header() -> SlotHeader {
    SlotHeader { slot_id: 0, size: 0, offset: 0 }
}

/// Total size of the live payloads among the first `n` directory entries.
pub open spec fn live_bytes(hs: Seq<SlotHeader>, n: int) -> int
    decreases n,
{
    if n <= 0 {
        0
    } else {
        live_bytes(hs, n - 1) + if hs[n - 1].is_live() {
            hs[n - 1].size as int
        } else {
            0
        }
    }
}

/// Number of live entries among the first `n` directory entries.
pub open spec fn live_entries(hs: Seq<SlotHeader>, n: int) -> int
    decreases n,
{
    if n <= 0 {
        0
    } else {
        live_entries(hs, n - 1) + if hs[n - 1].is_live() {
            1int
        } else {
            0int
        }
    }
}

pub proof fn lemma_live_bytes_monotone(hs: Seq<SlotHeader>, i: int, j: int)
    requires
        0 <= i <= j,
    ensures
        live_bytes(hs, i) <= live_bytes(hs, j),
    decreases j - i,
{
    if i < j {
        lemma_live_bytes_monotone(hs, i, j - 1);
    }
}

pub proof fn lemma_live_entries_bounds(hs: Seq<SlotHeader>, n: int)
    requires
        0 <= n,
    ensures
        0 <= live_entries(hs, n) <= n,
    decreases n,
{
    if n > 0 {
        lemma_live_entries_bounds(hs, n - 1);
    }
}

/// Two sequences that agree on their first `n` entries have the same live totals there.
pub proof fn lemma_live_prefix(a: Seq<SlotHeader>, b: Seq<SlotHeader>, n: int)
    requires
        0 <= n <= a.len(),
        n <= b.len(),
        forall|i: int| 0 <= i < n ==> a[i] == b[i],
    ensures
        live_bytes(a, n) == live_bytes(b, n),
        live_entries(a, n) == live_entries(b, n),
    decreases n,
{
    if n > 0 {
        lemma_live_prefix(a, b, n - 1);
    }
}

/// The layout invariant of a page with directory `hs`, bytes `body`, first free
/// offset `first` and `live` live entries: payloads packed in directory order
/// from the end of the page, header and directory below the payloads, deleted
/// entries zeroed, live slot ids distinct, and zeros below the first payload.
pub open spec fn layout_ok(hs: Seq<SlotHeader>, body: Seq<u8>, first: int, live: int) -> bool {
    &&& body.len() == PAGE_SIZE
    &&& first == PAGE_SIZE - live_bytes(hs, hs.len() as int)
    &&& HEADER_SIZE + SLOT_META_SIZE * hs.len() <= first
    &&& live == live_entries(hs, hs.len() as int)
    &&& forall|i: int|
        0 <= i < hs.len() ==> (#[trigger] hs[i]).is_live() ==> hs[i].offset == PAGE_SIZE - live_bytes(hs, i)
    &&& forall|i: int| 0 <= i < hs.len() ==> !(#[trigger] hs[i]).is_live() ==> hs[i] == cleared_header()
    &&& forall|i: int, j: int|
        0 <= i < hs.len() && 0 <= j < hs.len() && i != j && (#[trigger] hs[i]).is_live()
            && (#[trigger] hs[j]).is_live() ==> hs[i].slot_id != hs[j].slot_id
    &&& forall|k: int| 0 <= k < first ==> #[trigger] body[k] == 0u8
}

/// A fixed-size slotted page.
#[derive(Clone, Debug)]
pub struct Page {
    page_id: u16,
    num_live: u16,
    first_offset: u16,
    headers: Vec<SlotHeader>,
    data: Vec<u8>,
}

impl Page {
    /// The slot directory, in the order its entries were appended.
    pub closed spec fn directory(self) -> Seq<SlotHeader> {
        self.headers@
    }

    /// The page's bytes, with the payload region in place and zeros elsewhere.
    pub closed spec fn body(self) -> Seq<u8> {
        self.data@
    }

    pub closed spec fn id(self) -> u16 {
        self.page_id
    }

    /// The lowest byte index occupied by a payload (`PAGE_SIZE` when there is none).
    pub closed spec fn first_free(self) -> int {
        self.first_offset as int
    }

    pub closed spec fn live_slots(self) -> int {
        self.num_live as int
    }

    pub open spec fn header_size_of(self) -> int {
        HEADER_SIZE + SLOT_META_SIZE * self.directory().len()
    }

    pub open spec fn free_space_of(self) -> int {
        if self.first_free() < self.header_size_of() {
            0
        } else {
            self.first_free() - self.header_size_of()
        }
    }

    /// Where the live entry `i` ends when payloads are packed in directory order
    /// from the end of the page.
    pub open spec fn packed_offset(self, i: int) -> int {
        PAGE_SIZE - live_bytes(self.directory(), i)
    }

    /// The page's invariant (see `layout_ok`).
    pub open spec fn wf(self) -> bool {
        layout_ok(self.directory(), self.body(), self.first_free(), self.live_slots())
    }

    /// Directory index of a live entry, or none.
    pub open spec fn holds(self, s: u16) -> bool {
        exists|i: int|
            0 <= i < self.directory().len() && (#[trigger] self.directory()[i]).is_live()
                && self.directory()[i].slot_id == s
    }

    pub open spec fn index_of(self, s: u16) -> int {
        choose|i: int|
            0 <= i < self.directory().len() && (#[trigger] self.directory()[i]).is_live()
                && self.directory()[i].slot_id == s
    }

    /// The payload of directory entry `i`.
    pub open spec fn payload(self, i: int) -> Seq<u8> {
        let h = self.directory()[i];
        self.body().subrange(h.offset - h.size, h.offset as int)
    }

    /// The live records of the page, by slot id.
    pub open spec fn records(self) -> Map<u16, Seq<u8>> {
        Map::new(|s: u16| self.holds(s), |s: u16| self.payload(self.index_of(s)))
    }

    /// The slot ids of the directory entries, with none for a deleted entry.
    pub open spec fn slot_ids(self) -> Seq<Option<u16>> {
        self.directory().map_values(
            |h: SlotHeader|
                if h.is_live() {
                    Some(h.slot_id)
                } else {
                    None
                },
        )
    }

    /// `s` is the smallest slot id that no live record holds.
    pub open spec fn is_smallest_free(self, s: u16) -> bool {
        &&& !self.records().dom().contains(s)
        &&& forall|t: u16| t < s ==> self.records().dom().contains(t)
    }

    pub proof fn lemma_index_of(self, i: int)
        requires
            self.wf(),
            0 <= i < self.directory().len(),
            self.directory()[i].is_live(),
        ensures
            self.holds(self.directory()[i].slot_id),
            self.index_of(self.directory()[i].slot_id) == i,
    {
        let s = self.directory()[i].slot_id;
        assert(self.holds(s));
        let j = self.index_of(s);
        assert(self.directory()[j].is_live() && self.directory()[j].slot_id == s);
    }

    /// The first free offset lies within the page, so the directory has fewer
    /// than 700 entries.
    pub proof fn lemma_bounds(self)
        requires
            self.wf(),
        ensures
            self.first_free() <= PAGE_SIZE,
            self.directory().len() < 700,
    {
        lemma_live_bytes_monotone(self.directory(), 0, self.directory().len() as int);
    }

    /// A live payload lies between the first free offset and the end of the page.
    pub proof fn lemma_payload_bounds(self, i: int)
        requires
            self.wf(),
            0 <= i < self.directory().len(),
            self.directory()[i].is_live(),
        ensures
            self.first_free() <= self.directory()[i].offset - self.directory()[i].size,
            self.directory()[i].offset <= PAGE_SIZE,
            self.directory()[i].offset - self.directory()[i].size == self.packed_offset(i + 1),
    {
        let hs = self.directory();
        lemma_live_bytes_monotone(hs, i + 1, hs.len() as int);
        lemma_live_bytes_monotone(hs, 0, i);
    }

    /// Creates an empty page.
    pub fn new(page_id: u16) -> (p: Page)
        ensures
            p.wf(),
            p.id() == page_id,
            p.directory().len() == 0,
            p.records() == Map::<u16, Seq<u8>>::empty(),
            p.first_free() == PAGE_SIZE,
            p.free_space_of() == PAGE_SIZE - HEADER_SIZE,
    {
        let data: Vec<u8> = vec![0u8; PAGE_SIZE];
        let p = Page { page_id, num_live: 0, first_offset: PAGE_SIZE as u16, headers: Vec::new(), data };
        assert(p.records() =~= Map::<u16, Seq<u8>>::empty());
        p
    }

    pub fn get_page_id(&self) -> (r: u16)
        ensures
            r == self.id(),
    {
        self.page_id
    }

    /// Number of live records.
    pub fn get_num_slots(&self) -> (r: u16)
        requires
            self.wf(),
        ensures
            r == live_entries(self.directory(), self.directory().len() as int),
    {
        self.num_live
    }

    /// Number of directory entries, live or deleted.
    pub fn get_total_slot_headers(&self) -> (r: u16)
        requires
            self.wf(),
        ensures
            r == self.directory().len(),
    {
        self.headers.len() as u16
    }

    /// The lowest byte index occupied by a payload (`PAGE_SIZE` on an empty page).
    pub fn get_first_offset(&self) -> (r: u16)
        ensures
            r == self.first_free(),
    {
        self.first_offset
    }

    /// Size of the header and slot directory: `8 + 6 * directory entries`.
    pub fn get_header_size(&self) -> (r: usize)
        requires
            self.wf(),
        ensures
            r == self.header_size_of(),
    {
        HEADER_SIZE + SLOT_META_SIZE * self.headers.len()
    }

    /// Bytes left between the directory and the first payload, clamped at zero.
    pub fn get_free_space(&self) -> (r: usize)
        requires
            self.wf(),
        ensures
            r == self.free_space_of(),
            r == self.first_free() - self.header_size_of(),
    {
        let first = self.first_offset as usize;
        let header = self.get_header_size();
        if first < header {
            0
        } else {
            first - header
        }
    }

    /// Directory index of the live entry holding slot `s`.
    fn find_slot(&self, s: u16) -> (r: Option<usize>)
        requires
            self.wf(),
        ensures
            r matches Some(i) ==> i < self.directory().len() && self.directory()[i as int].is_live()
                && self.directory()[i as int].slot_id == s && self.index_of(s) == i,
            r is None ==> !self.holds(s),
    {
        let mut i: usize = 0;
        while i < self.headers.len()
            invariant
                self.wf(),
                i <= self.headers@.len(),
                forall|j: int|
                    0 <= j < i ==> !((#[trigger] self.headers@[j]).is_live() && self.headers@[j].slot_id == s),
            decreases self.headers@.len() - i,
        {
            let h = self.headers[i];
            if h.offset != 0 && h.slot_id == s {
                proof {
                    self.lemma_index_of(i as int);
                }
                return Some(i);
            }
            i += 1;
        }
        None
    }

    /// The payload stored under slot `slot_id`, or none when no live record has it.
    pub fn get_value(&self, slot_id: u16) -> (r: Option<Vec<u8>>)
        requires
            self.wf(),
        ensures
            r matches Some(v) ==> self.records().contains_key(slot_id) && v@ == self.records()[slot_id],
            r is None <==> !self.records().contains_key(slot_id),
    {
        match self.find_slot(slot_id) {
            Some(i) => {
                let h = self.headers[i];
                proof {
                    self.lemma_payload_bounds(i as int);
                }
                let start = (h.offset - h.size) as usize;
                let end = h.offset as usize;
                let mut out: Vec<u8> = Vec::new();
                let mut k: usize = start;
                while k < end
                    invariant
                        self.wf(),
                        start <= k <= end <= PAGE_SIZE,
                        out@ == self.body().subrange(start as int, k as int),
                    decreases end - k,
                {
                    out.push(self.data[k]);
                    k += 1;
                    assert(out@ =~= self.body().subrange(start as int, k as int));
                }
                Some(out)
            }
            None => None,
        }
    }
}


/// What `add_value` does: on success the record is stored under the smallest
/// free slot id behind a new directory entry; without room the page is unchanged.
pub open spec fn add_outcome(old: Page, new: Page, bytes: Seq<u8>, r: Option<u16>) -> bool {
    &&& new.wf()
    &&& new.id() == old.id()
    &&& (r is Some <==> bytes.len() + SLOT_META_SIZE <= old.free_space_of())
    &&& r matches Some(s) ==> {
        &&& old.is_smallest_free(s)
        &&& s <= old.directory().len()
        &&& new.records() == old.records().insert(s, bytes)
        &&& new.slot_ids() == old.slot_ids().push(Some(s))
        &&& new.directory().len() == old.directory().len() + 1
        &&& new.first_free() == old.first_free() - bytes.len()
        &&& new.free_space_of() == old.free_space_of() - bytes.len() - SLOT_META_SIZE
    }
    &&& r is None ==> new == old
}

/// Some slot id no greater than the directory length is free.
proof fn lemma_some_free(p: Page)
    requires
        p.wf(),
    ensures
        exists|c: int| 0 <= c <= p.directory().len() && !#[trigger] p.holds(c as u16),
{
    let hs = p.directory();
    let n = hs.len() as int;
    if forall|c: int| 0 <= c <= n ==> #[trigger] p.holds(c as u16) {
        let ids = hs.map_values(|h: SlotHeader| h.slot_id as int);
        assert forall|c: int| vstd::set_lib::set_int_range(0, n + 1).contains(c) implies ids.to_set().contains(c) by {
            assert(p.holds(c as u16));
            let i = choose|i: int| 0 <= i < hs.len() && (#[trigger] hs[i]).is_live() && hs[i].slot_id == c as u16;
            assert(ids[i] == c);
        }
        vstd::set_lib::lemma_int_range(0, n + 1);
        ids.lemma_cardinality_of_set();
        vstd::set_lib::lemma_len_subset(vstd::set_lib::set_int_range(0, n + 1), ids.to_set());
        assert(false);
    }
}

impl Page {
    /// The smallest slot id that no live record holds.
    pub fn get_next_slotid(&self) -> (r: u16)
        requires
            self.wf(),
        ensures
            self.is_smallest_free(r),
            r <= self.directory().len(),
    {
        let n = self.headers.len();
        proof {
            lemma_some_free(*self);
            lemma_live_bytes_monotone(self.headers@, 0, n as int);
        }
        let mut used: Vec<bool> = vec![false; n + 1];
        let mut i: usize = 0;
        while i < n
            invariant
                self.wf(),
                n == self.headers@.len(),
                n < PAGE_SIZE,
                i <= n,
                used@.len() == n + 1,
                forall|c: int|
                    0 <= c <= n ==> (#[trigger] used@[c] <==> exists|j: int|
                        0 <= j < i && (#[trigger] self.headers@[j]).is_live() && self.headers@[j].slot_id == c),
            decreases n - i,
        {
            let h = self.headers[i];
            if h.offset != 0 && (h.slot_id as usize) <= n {
                used.set(h.slot_id as usize, true);
            }
            i += 1;
            assert forall|c: int| 0 <= c <= n implies (#[trigger] used@[c] <==> exists|j: int|
                0 <= j < i && (#[trigger] self.headers@[j]).is_live() && self.headers@[j].slot_id == c) by {
                if used@[c] && !(h.offset != 0 && h.slot_id == c) {
                    let j = choose|j: int| 0 <= j < i - 1 && (#[trigger] self.headers@[j]).is_live() && self.headers@[j].slot_id == c;
                    assert(0 <= j < i);
                }
                if exists|j: int| 0 <= j < i && (#[trigger] self.headers@[j]).is_live() && self.headers@[j].slot_id == c {
                    let j = choose|j: int| 0 <= j < i && (#[trigger] self.headers@[j]).is_live() && self.headers@[j].slot_id == c;
                    if j < i - 1 {
                    } else {
                        assert(j == i - 1);
                    }
                }
            }
        }
        let mut c: usize = 0;
        while c <= n
            invariant
                self.wf(),
                n == self.headers@.len(),
                n < PAGE_SIZE,
                c <= n + 1,
                used@.len() == n + 1,
                forall|t: int| 0 <= t < c ==> #[trigger] used@[t],
                forall|t: int|
                    0 <= t <= n ==> (#[trigger] used@[t] <==> self.holds(t as u16)),
                exists|t: int| 0 <= t <= n && !#[trigger] self.holds(t as u16),
            decreases n + 1 - c,
        {
            if !used[c] {
                proof {
                    assert forall|t: u16| t < c as u16 implies self.records().dom().contains(t) by {
                        assert(used@[t as int]);
                    }
                }
                return c as u16;
            }
            c += 1;
        }
        proof {
            let t = choose|t: int| 0 <= t <= n && !#[trigger] self.holds(t as u16);
            assert(used@[t]);
        }
        0
    }
}


impl Page {
    /// Stores `bytes` under the smallest free slot id, behind a new directory
    /// entry, directly below the lowest payload. Returns none, and leaves the
    /// page as it was, when the free space is under the payload plus one entry.
    pub fn add_value(&mut self, bytes: &[u8]) -> (r: Option<u16>)
        requires
            old(self).wf(),
        ensures
            add_outcome(*old(self), *final(self), bytes@, r),
    {
        let len = bytes.len();
        let free = self.get_free_space();
        if len > free || free - len < SLOT_META_SIZE {
            return None;
        }
        let ghost old_page = *self;
        let ghost hs = self.headers@;
        let ghost n = hs.len() as int;
        proof {
            lemma_live_bytes_monotone(hs, 0, n);
        }
        let s = self.get_next_slotid();
        let end = self.first_offset as usize;
        let start = end - len;
        let mut k: usize = 0;
        while k < len
            invariant
                old_page.wf(),
                len == bytes@.len(),
                start + len == end,
                end <= PAGE_SIZE,
                k <= len,
                self.data@.len() == PAGE_SIZE,
                self.headers == old_page.headers,
                self.page_id == old_page.page_id,
                self.num_live == old_page.num_live,
                self.first_offset == old_page.first_offset,
                forall|j: int| 0 <= j < k ==> #[trigger] self.data@[start + j] == bytes@[j],
                forall|j: int|
                    0 <= j < PAGE_SIZE && !(start <= j < start + k) ==> #[trigger] self.data@[j] == old_page.data@[j],
            decreases len - k,
        {
            self.data.set(start + k, bytes[k]);
            k += 1;
        }
        let h = SlotHeader { slot_id: s, size: len as u16, offset: end as u16 };
        self.headers.push(h);
        self.first_offset = start as u16;
        proof {
            lemma_live_entries_bounds(hs, n);
        }
        self.num_live = self.num_live + 1;
        proof {
            let hs2 = self.headers@;
            assert(hs2 == hs.push(h));
            lemma_live_prefix(hs, hs2, n);
            assert(live_bytes(hs2, n + 1) == live_bytes(hs, n) + len);
            assert(live_entries(hs2, n + 1) == live_entries(hs, n) + 1);
            assert forall|i: int| 0 <= i < hs2.len() && (#[trigger] hs2[i]).is_live() implies hs2[i].offset
                == self.packed_offset(i) by {
                if i < n {
                    lemma_live_prefix(hs, hs2, i);
                }
            }
            assert forall|i: int, j: int|
                0 <= i < hs2.len() && 0 <= j < hs2.len() && i != j && (#[trigger] hs2[i]).is_live()
                    && (#[trigger] hs2[j]).is_live() implies hs2[i].slot_id != hs2[j].slot_id by {
                if i == n {
                    old_page.lemma_index_of(j);
                } else if j == n {
                    old_page.lemma_index_of(i);
                }
            }
            assert(self.wf());
            let recs = old_page.records().insert(s, bytes@);
            assert forall|t: u16| #[trigger] self.holds(t) <==> recs.dom().contains(t) by {
                if self.holds(t) && t != s {
                    let i = choose|i: int| 0 <= i < hs2.len() && (#[trigger] hs2[i]).is_live() && hs2[i].slot_id == t;
                    assert(hs[i] == hs2[i]);
                }
                if old_page.holds(t) {
                    let i = choose|i: int| 0 <= i < hs.len() && (#[trigger] hs[i]).is_live() && hs[i].slot_id == t;
                    assert(hs2[i] == hs[i]);
                }
                if t == s {
                    assert(hs2[n] == h);
                }
            }
            assert forall|t: u16| #[trigger] self.holds(t) implies self.payload(self.index_of(t)) == recs[t] by {
                if t == s {
                    self.lemma_index_of(n);
                    assert(hs2[n].offset - hs2[n].size == start);
                    assert(self.payload(n).len() == len);
                    assert forall|j: int| 0 <= j < len implies #[trigger] self.payload(n)[j] == bytes@[j] by {
                        assert(self.data@[start + j] == bytes@[j]);
                    }
                    assert(self.payload(n) =~= bytes@);
                } else {
                    let i = old_page.index_of(t);
                    old_page.lemma_index_of(i);
                    self.lemma_index_of(i);
                    old_page.lemma_payload_bounds(i);
                    assert(self.payload(i) =~= old_page.payload(i));
                }
            }
            assert(self.records() =~= recs);
            assert(self.slot_ids() =~= old_page.slot_ids().push(Some(s)));
        }
        Some(s)
    }
}


/// What `delete_value` does: a live record leaves the page, its directory entry
/// is zeroed in place, and the payloads below it move up to close the gap.
pub open spec fn delete_outcome(old: Page, new: Page, s: u16, r: Option<()>) -> bool {
    &&& new.wf()
    &&& new.id() == old.id()
    &&& (r is Some <==> old.records().contains_key(s))
    &&& r is Some ==> {
        &&& new.records() == old.records().remove(s)
        &&& new.slot_ids() == old.slot_ids().update(old.index_of(s), None)
        &&& new.directory().len() == old.directory().len()
        &&& new.first_free() == old.first_free() + old.records()[s].len()
        &&& new.free_space_of() == old.free_space_of() + old.records()[s].len()
    }
    &&& r is None ==> new == old
}

/// Clearing the live entry `i` removes its size from every later live total.
proof fn lemma_live_after_clear(hs: Seq<SlotHeader>, hs2: Seq<SlotHeader>, i: int, m: int)
    requires
        hs2.len() == hs.len(),
        0 <= i < hs.len(),
        0 <= m <= hs.len(),
        hs[i].is_live(),
        !hs2[i].is_live(),
        forall|j: int|
            0 <= j < hs.len() && j != i ==> (#[trigger] hs2[j]).is_live() == hs[j].is_live()
                && hs2[j].size == hs[j].size,
    ensures
        live_bytes(hs2, m) == live_bytes(hs, m) - if m > i {
            hs[i].size as int
        } else {
            0
        },
        live_entries(hs2, m) == live_entries(hs, m) - if m > i {
            1int
        } else {
            0
        },
    decreases m,
{
    if m > 0 {
        lemma_live_after_clear(hs, hs2, i, m - 1);
        assert(hs2[m - 1].is_live() == hs[m - 1].is_live() || m - 1 == i);
    }
}

impl Page {
    /// Eager compaction: moves the payload bytes in `[first, lo)` up by `size`
    /// bytes, over a deleted payload's window `[lo, lo + size)`, and zeroes the
    /// `size` bytes this frees at the bottom of the payload region.
    fn compact(&mut self, first: usize, lo: usize, size: usize)
        requires
            old(self).data@.len() == PAGE_SIZE,
            first <= lo,
            lo + size <= PAGE_SIZE,
        ensures
            final(self).data@.len() == PAGE_SIZE,
            final(self).headers == old(self).headers,
            final(self).page_id == old(self).page_id,
            final(self).num_live == old(self).num_live,
            final(self).first_offset == old(self).first_offset,
            forall|m: int| 0 <= m < first ==> #[trigger] final(self).data@[m] == old(self).data@[m],
            forall|m: int| first <= m < first + size ==> #[trigger] final(self).data@[m] == 0u8,
            forall|m: int| first + size <= m < lo + size ==> #[trigger] final(self).data@[m] == old(self).data@[m - size],
            forall|m: int| lo + size <= m < PAGE_SIZE ==> #[trigger] final(self).data@[m] == old(self).data@[m],
    {
        let ghost before = self.data@;
        let mut k: usize = lo;
        while k > first
            invariant
                first <= k <= lo,
                lo + size <= PAGE_SIZE,
                self.data@.len() == PAGE_SIZE,
                self.headers == old(self).headers,
                self.page_id == old(self).page_id,
                self.num_live == old(self).num_live,
                self.first_offset == old(self).first_offset,
                before == old(self).data@,
                forall|m: int| 0 <= m < k ==> #[trigger] self.data@[m] == before[m],
                forall|m: int| k + size <= m < lo + size ==> #[trigger] self.data@[m] == before[m - size],
                forall|m: int| lo + size <= m < PAGE_SIZE ==> #[trigger] self.data@[m] == before[m],
            decreases k,
        {
            k -= 1;
            let b = self.data[k];
            self.data.set(k + size, b);
        }
        let mut z: usize = first;
        while z < first + size
            invariant
                first <= z <= first + size,
                first <= lo,
                lo + size <= PAGE_SIZE,
                self.data@.len() == PAGE_SIZE,
                self.headers == old(self).headers,
                self.page_id == old(self).page_id,
                self.num_live == old(self).num_live,
                self.first_offset == old(self).first_offset,
                before == old(self).data@,
                forall|m: int| 0 <= m < first ==> #[trigger] self.data@[m] == before[m],
                forall|m: int| first <= m < z ==> #[trigger] self.data@[m] == 0u8,
                forall|m: int| first + size <= m < lo + size ==> #[trigger] self.data@[m] == before[m - size],
                forall|m: int| lo + size <= m < PAGE_SIZE ==> #[trigger] self.data@[m] == before[m],
            decreases first + size - z,
        {
            self.data.set(z, 0);
            z += 1;
        }
    }

    /// Removes the record under slot `slot_id`: zeroes its directory entry, moves
    /// every payload below it up by its size and raises the first free offset by
    /// as much. Returns none, and leaves the page as it was, when no live record
    /// has that slot id.
    pub fn delete_value(&mut self, slot_id: u16) -> (r: Option<()>)
        requires
            old(self).wf(),
        ensures
            delete_outcome(*old(self), *final(self), slot_id, r),
    {
        let i = match self.find_slot(slot_id) {
            Some(i) => i,
            None => {
                return None;
            },
        };
        let ghost old_page = *self;
        let ghost hs = self.headers@;
        let ghost n = hs.len() as int;
        let h = self.headers[i];
        proof {
            old_page.lemma_payload_bounds(i as int);
            old_page.lemma_index_of(i as int);
            lemma_live_bytes_monotone(hs, 0, n);
            lemma_live_entries_bounds(hs, n);
        }
        let size = h.size as usize;
        let off = h.offset as usize;
        let first = self.first_offset as usize;
        let lo = off - size;
        self.compact(first, lo, size);
        proof {
            assert forall|m: int| 0 <= m < first implies #[trigger] self.data@[m] == 0u8 by {
                assert(old_page.data@[m] == old_page.body()[m]);
            }
        }
        let ghost compacted = self.data@;
        let mut j: usize = i + 1;
        while j < self.headers.len()
            invariant
                old_page.wf(),
                self.data@ == compacted,
                self.page_id == old_page.page_id,
                self.num_live == old_page.num_live,
                self.first_offset == old_page.first_offset,
                hs == old_page.headers@,
                n == hs.len(),
                i < n,
                i + 1 <= j <= n,
                self.headers@.len() == n,
                h == hs[i as int],
                size == h.size,
                off == h.offset,
                off - size == PAGE_SIZE - live_bytes(hs, i + 1),
                forall|m: int| 0 <= m < n && !(i < m < j) ==> #[trigger] self.headers@[m] == hs[m],
                forall|m: int|
                    i < m < j ==> (#[trigger] self.headers@[m]).is_live() == hs[m].is_live()
                        && self.headers@[m].size == hs[m].size
                        && self.headers@[m].slot_id == hs[m].slot_id
                        && (hs[m].is_live() ==> self.headers@[m].offset == hs[m].offset + size),
            decreases n - j,
        {
            let hj = self.headers[j];
            if hj.offset != 0 {
                proof {
                    lemma_live_bytes_monotone(hs, i + 1, j as int);
                    lemma_live_bytes_monotone(hs, 0, j as int);
                }
                self.headers.set(j, SlotHeader { slot_id: hj.slot_id, size: hj.size, offset: hj.offset + size as u16 });
            }
            j += 1;
        }
        self.headers.set(i, SlotHeader { slot_id: 0, size: 0, offset: 0 });
        self.first_offset = (first + size) as u16;
        proof {
            let hs2 = self.headers@;
            assert forall|m: int| 0 <= m < n && m != i implies (#[trigger] hs2[m]).is_live() == hs[m].is_live()
                && hs2[m].size == hs[m].size by {
                if i < m {
                } else {
                    assert(hs2[m] == hs[m]);
                }
            }
            lemma_live_after_clear(hs, hs2, i as int, n);
            lemma_live_entries_bounds(hs2, n);
        }
        self.num_live = self.num_live - 1;
        proof {
            let hs2 = self.headers@;
            assert(self.body().len() == PAGE_SIZE);
            assert(self.first_free() == PAGE_SIZE - live_bytes(hs2, hs2.len() as int));
            assert(self.header_size_of() <= self.first_free());
            assert(self.live_slots() == live_entries(hs2, hs2.len() as int));
            assert forall|k: int| 0 <= k < self.first_free() implies #[trigger] self.body()[k] == 0u8 by {
                if k < first {
                } else {
                }
            }
            assert forall|m: int| 0 <= m < hs2.len() && (#[trigger] hs2[m]).is_live() implies hs2[m].offset
                == self.packed_offset(m) by {
                lemma_live_after_clear(hs, hs2, i as int, m);
            }
            assert forall|a: int, b: int|
                0 <= a < hs2.len() && 0 <= b < hs2.len() && a != b && (#[trigger] hs2[a]).is_live()
                    && (#[trigger] hs2[b]).is_live() implies hs2[a].slot_id != hs2[b].slot_id by {
                assert(hs[a].is_live() && hs[b].is_live());
            }
            assert forall|m: int| 0 <= m < hs2.len() && !(#[trigger] hs2[m]).is_live() implies hs2[m]
                == cleared_header() by {
                if m != i {
                    assert(!hs[m].is_live());
                    if i < m {
                        assert(hs2[m].slot_id == hs[m].slot_id);
                    } else {
                        assert(hs2[m] == hs[m]);
                    }
                }
            }
            assert(self.wf());
            let recs = old_page.records().remove(slot_id);
            assert forall|t: u16| #[trigger] self.holds(t) <==> recs.dom().contains(t) by {
                if self.holds(t) {
                    let m = choose|m: int| 0 <= m < hs2.len() && (#[trigger] hs2[m]).is_live() && hs2[m].slot_id == t;
                    assert(hs[m].is_live() && hs[m].slot_id == t);
                    assert(m != i);
                }
                if recs.dom().contains(t) {
                    let m = choose|m: int| 0 <= m < hs.len() && (#[trigger] hs[m]).is_live() && hs[m].slot_id == t;
                    assert(m != i);
                    assert(hs2[m].is_live() && hs2[m].slot_id == t);
                }
            }
            assert forall|t: u16| #[trigger] self.holds(t) implies self.payload(self.index_of(t)) == recs[t] by {
                let m = self.index_of(t);
                assert(hs[m].is_live() && hs[m].slot_id == t);
                old_page.lemma_index_of(m);
                old_page.lemma_payload_bounds(m);
                if m < i {
                    lemma_live_bytes_monotone(hs, m + 1, i as int);
                    assert(hs2[m] == hs[m]);
                    assert(self.payload(m) =~= old_page.payload(m));
                } else {
                    lemma_live_bytes_monotone(hs, i + 1, m);
                    let a = hs[m].offset - hs[m].size;
                    assert(self.payload(m).len() == old_page.payload(m).len());
                    assert forall|q: int| 0 <= q < self.payload(m).len() implies #[trigger] self.payload(m)[q]
                        == old_page.payload(m)[q] by {
                        assert(self.data@[a + size + q] == old_page.data@[a + q]);
                    }
                    assert(self.payload(m) =~= old_page.payload(m));
                }
            }
            assert(self.records() =~= recs);
            assert(self.slot_ids() =~= old_page.slot_ids().update(i as int, None));
        }
        Some(())
    }
}


/// Low byte of a little-endian `u16`.
pub open spec fn lo_byte(x: u16) -> u8 {
    (x % 256) as u8
}

/// High byte of a little-endian `u16`.
pub open spec fn hi_byte(x: u16) -> u8 {
    (x / 256) as u8
}

/// Byte `k` (0 or 1) of the little-endian encoding of `x`.
pub open spec fn le_byte(x: u16, k: int) -> u8 {
    if k == 0 {
        lo_byte(x)
    } else {
        hi_byte(x)
    }
}

/// The little-endian `u16` stored at `b[k]`, `b[k + 1]`.
pub open spec fn u16_at(b: Seq<u8>, k: int) -> u16 {
    (b[k] as int + 256 * b[k + 1] as int) as u16
}

/// The first free offset as written to disk: zero stands for `PAGE_SIZE`.
pub open spec fn stored_first(first: int) -> u16 {
    if first == PAGE_SIZE {
        0
    } else {
        first as u16
    }
}

pub open spec fn read_first(raw: u16) -> int {
    if raw == 0 {
        PAGE_SIZE as int
    } else {
        raw as int
    }
}

/// The `f`-th field (0: slot id, 1: size, 2: offset) of a directory entry.
pub open spec fn entry_field(h: SlotHeader, f: int) -> u16 {
    if f == 0 {
        h.slot_id
    } else if f == 1 {
        h.size
    } else {
        h.offset
    }
}

proof fn lemma_split6(k: int)
    requires
        k >= 0,
    ensures
        k == 6 * (k / 6) + k % 6,
        0 <= k % 6 < 6,
        k / 6 >= 0,
{
}

proof fn lemma_join6(e: int, r: int)
    requires
        e >= 0,
        0 <= r < 6,
    ensures
        (6 * e + r) / 6 == e,
        (6 * e + r) % 6 == r,
{
    vstd::arithmetic::div_mod::lemma_fundamental_div_mod_converse(6 * e + r, 6, e, r);
}

impl Page {
    /// Byte `k` of the page's on-disk image.
    pub open spec fn image_byte(self, k: int) -> u8 {
        let n = self.directory().len() as int;
        if k < HEADER_SIZE {
            let v = if k / 2 == 0 {
                self.id()
            } else if k / 2 == 1 {
                self.live_slots() as u16
            } else if k / 2 == 2 {
                stored_first(self.first_free())
            } else {
                n as u16
            };
            le_byte(v, k % 2)
        } else if k < HEADER_SIZE + SLOT_META_SIZE * n {
            let e = (k - HEADER_SIZE) / 6;
            let r = (k - HEADER_SIZE) % 6;
            le_byte(entry_field(self.directory()[e], r / 2), r % 2)
        } else {
            self.body()[k]
        }
    }

    /// The page's on-disk image: header, slot directory, then the body.
    #[verifier::opaque]
    pub open spec fn image(self) -> Seq<u8> {
        Seq::new(PAGE_SIZE as nat, |k: int| self.image_byte(k))
    }

    fn image_byte_at(&self, k: usize) -> (r: u8)
        requires
            self.wf(),
            k < PAGE_SIZE,
        ensures
            r == self.image_byte(k as int),
    {
        let n = self.headers.len();
        if k < HEADER_SIZE {
            let v: u16 = if k / 2 == 0 {
                self.page_id
            } else if k / 2 == 1 {
                self.num_live
            } else if k / 2 == 2 {
                if self.first_offset as usize == PAGE_SIZE {
                    0
                } else {
                    self.first_offset
                }
            } else {
                n as u16
            };
            if k % 2 == 0 {
                (v % 256) as u8
            } else {
                (v / 256) as u8
            }
        } else if k < HEADER_SIZE + SLOT_META_SIZE * n {
            let e = (k - HEADER_SIZE) / 6;
            let r = (k - HEADER_SIZE) % 6;
            proof {
                lemma_split6(k - HEADER_SIZE);
            }
            let h = self.headers[e];
            let v = if r / 2 == 0 {
                h.slot_id
            } else if r / 2 == 1 {
                h.size
            } else {
                h.offset
            };
            if r % 2 == 0 {
                (v % 256) as u8
            } else {
                (v / 256) as u8
            }
        } else {
            self.data[k]
        }
    }

    /// The page's `PAGE_SIZE`-byte on-disk image.
    pub fn to_bytes(&self) -> (r: Vec<u8>)
        requires
            self.wf(),
        ensures
            r@ == self.image(),
    {
        let mut out: Vec<u8> = Vec::new();
        let mut k: usize = 0;
        proof {
            reveal(Page::image);
        }
        while k < PAGE_SIZE
            invariant
                self.wf(),
                k <= PAGE_SIZE,
                out@ == self.image().take(k as int),
            decreases PAGE_SIZE - k,
        {
            let b = self.image_byte_at(k);
            out.push(b);
            k += 1;
            proof {
                reveal(Page::image);
            }
            assert(out@ =~= self.image().take(k as int));
        }
        proof {
            reveal(Page::image);
        }
        assert(out@ =~= self.image());
        out
    }
}


/// Directory entry `e` as stored in the image `b`.
pub open spec fn stored_header(b: Seq<u8>, e: int) -> SlotHeader {
    SlotHeader {
        slot_id: u16_at(b, HEADER_SIZE + 6 * e),
        size: u16_at(b, HEADER_SIZE + 6 * e + 2),
        offset: u16_at(b, HEADER_SIZE + 6 * e + 4),
    }
}

/// Number of directory entries recorded in the image `b`.
pub open spec fn stored_count(b: Seq<u8>) -> int {
    u16_at(b, 6) as int
}

pub open spec fn stored_directory(b: Seq<u8>) -> Seq<SlotHeader> {
    Seq::new(stored_count(b) as nat, |e: int| stored_header(b, e))
}

/// The body read from the image `b`: its bytes from the first payload on, zeros below.
pub open spec fn stored_body(b: Seq<u8>) -> Seq<u8> {
    Seq::new(PAGE_SIZE as nat, |k: int| if k < read_first(u16_at(b, 4)) { 0u8 } else { b[k] })
}

/// `b` is the image of a well-formed page.
pub open spec fn valid_image(b: Seq<u8>) -> bool {
    &&& b.len() == PAGE_SIZE
    &&& HEADER_SIZE + SLOT_META_SIZE * stored_count(b) <= PAGE_SIZE
    &&& layout_ok(stored_directory(b), stored_body(b), read_first(u16_at(b, 4)), u16_at(b, 2) as int)
}

/// `q` is the page that the image `b` describes.
pub open spec fn decodes_to(b: Seq<u8>, q: Page) -> bool {
    &&& q.id() == u16_at(b, 0)
    &&& q.live_slots() == u16_at(b, 2) as int
    &&& q.first_free() == read_first(u16_at(b, 4))
    &&& q.directory() == stored_directory(b)
    &&& q.body() == stored_body(b)
}

fn read_u16(b: &[u8], k: usize) -> (r: u16)
    requires
        k + 1 < b@.len(),
    ensures
        r == u16_at(b@, k as int),
{
    b[k] as u16 + 256 * (b[k + 1] as u16)
}

impl Page {
    /// Reads a page from its image. Returns none when `bytes` is not the
    /// `PAGE_SIZE`-byte image of a well-formed page. Bytes below the first
    /// payload are read as zeros.
    pub fn from_bytes(bytes: &[u8]) -> (r: Option<Page>)
        ensures
            r is Some <==> valid_image(bytes@),
            r matches Some(q) ==> q.wf() && decodes_to(bytes@, q),
    {
        if bytes.len() != PAGE_SIZE {
            return None;
        }
        let ghost b = bytes@;
        let page_id = read_u16(bytes, 0);
        let num_live = read_u16(bytes, 2);
        let raw_first = read_u16(bytes, 4);
        let n = read_u16(bytes, 6) as usize;
        if HEADER_SIZE + SLOT_META_SIZE * n > PAGE_SIZE {
            return None;
        }
        let first: usize = if raw_first == 0 {
            PAGE_SIZE
        } else {
            raw_first as usize
        };
        let ghost dir = stored_directory(b);
        let mut headers: Vec<SlotHeader> = Vec::new();
        let mut used: Vec<bool> = vec![false; 65536];
        let mut total: usize = 0;
        let mut count: usize = 0;
        let mut e: usize = 0;
        while e < n
            invariant
                b == bytes@,
                b.len() == PAGE_SIZE,
                n == stored_count(b),
                HEADER_SIZE + SLOT_META_SIZE * n <= PAGE_SIZE,
                dir == stored_directory(b),
                e <= n,
                headers@ == dir.take(e as int),
                total == live_bytes(dir, e as int),
                total <= PAGE_SIZE,
                count == live_entries(dir, e as int),
                count <= e,
                used@.len() == 65536,
                forall|id: int|
                    0 <= id < 65536 ==> (#[trigger] used@[id] <==> exists|j: int|
                        0 <= j < e && (#[trigger] dir[j]).is_live() && dir[j].slot_id == id),
                forall|i: int| 0 <= i < e ==> (#[trigger] dir[i]).is_live() ==> dir[i].offset == PAGE_SIZE - live_bytes(dir, i),
                forall|i: int| 0 <= i < e ==> !(#[trigger] dir[i]).is_live() ==> dir[i] == cleared_header(),
                forall|i: int, j: int|
                    0 <= i < e && 0 <= j < e && i != j && (#[trigger] dir[i]).is_live()
                        && (#[trigger] dir[j]).is_live() ==> dir[i].slot_id != dir[j].slot_id,
            decreases n - e,
        {
            let base = HEADER_SIZE + 6 * e;
            let h = SlotHeader {
                slot_id: read_u16(bytes, base),
                size: read_u16(bytes, base + 2),
                offset: read_u16(bytes, base + 4),
            };
            assert(h == dir[e as int]);
            if h.offset != 0 {
                if h.offset as usize != PAGE_SIZE - total {
                    return None;
                }
                if used[h.slot_id as usize] {
                    proof {
                        let j = choose|j: int| 0 <= j < e && (#[trigger] dir[j]).is_live() && dir[j].slot_id == h.slot_id;
                        assert(dir[j].slot_id == dir[e as int].slot_id);
                    }
                    return None;
                }
                if total + h.size as usize > PAGE_SIZE {
                    proof {
                        lemma_live_bytes_monotone(dir, e + 1, n as int);
                    }
                    return None;
                }
                used.set(h.slot_id as usize, true);
                total = total + h.size as usize;
                count = count + 1;
            } else if h.slot_id != 0 || h.size != 0 {
                return None;
            }
            headers.push(h);
            e += 1;
            proof {
                assert(headers@ =~= dir.take(e as int));
                assert forall|id: int| 0 <= id < 65536 implies (#[trigger] used@[id] <==> exists|j: int|
                    0 <= j < e && (#[trigger] dir[j]).is_live() && dir[j].slot_id == id) by {
                    if exists|j: int| 0 <= j < e && (#[trigger] dir[j]).is_live() && dir[j].slot_id == id {
                        let j = choose|j: int| 0 <= j < e && (#[trigger] dir[j]).is_live() && dir[j].slot_id == id;
                        if j < e - 1 {
                        } else {
                            assert(j == e - 1);
                        }
                    }
                    if used@[id] && !(h.offset != 0 && h.slot_id == id) {
                        let j = choose|j: int| 0 <= j < e - 1 && (#[trigger] dir[j]).is_live() && dir[j].slot_id == id;
                        assert(0 <= j < e);
                    }
                }
            }
        }
        proof {
            assert(headers@ =~= dir);
        }
        if first != PAGE_SIZE - total || HEADER_SIZE + SLOT_META_SIZE * n > first || num_live as usize != count {
            return None;
        }
        let mut data: Vec<u8> = Vec::new();
        let mut k: usize = 0;
        while k < PAGE_SIZE
            invariant
                b == bytes@,
                b.len() == PAGE_SIZE,
                first == read_first(u16_at(b, 4)),
                k <= PAGE_SIZE,
                data@ == stored_body(b).take(k as int),
            decreases PAGE_SIZE - k,
        {
            if k < first {
                data.push(0);
            } else {
                data.push(bytes[k]);
            }
            k += 1;
            assert(data@ =~= stored_body(b).take(k as int));
        }
        assert(data@ =~= stored_body(b));
        Some(Page { page_id, num_live, first_offset: first as u16, headers, data })
    }
}

proof fn lemma_u16_from_bytes(b: Seq<u8>, k: int, x: u16)
    requires
        0 <= k,
        k + 1 < b.len(),
        b[k] == lo_byte(x),
        b[k + 1] == hi_byte(x),
    ensures
        u16_at(b, k) == x,
{
    vstd::arithmetic::div_mod::lemma_fundamental_div_mod(x as int, 256);
}

proof fn lemma_image_entry(p: Page, e: int)
    requires
        p.wf(),
        0 <= e < p.directory().len(),
    ensures
        stored_header(p.image(), e) == p.directory()[e],
{
    reveal(Page::image);
    let b = p.image();
    let h = p.directory()[e];
    let n = p.directory().len() as int;
    lemma_live_bytes_monotone(p.directory(), 0, n);
    lemma_join6(e, 0);
    lemma_join6(e, 1);
    lemma_join6(e, 2);
    lemma_join6(e, 3);
    lemma_join6(e, 4);
    lemma_join6(e, 5);
    assert(HEADER_SIZE + 6 * e + 5 < HEADER_SIZE + SLOT_META_SIZE * n);
    assert(b[HEADER_SIZE + 6 * e] == p.image_byte(HEADER_SIZE + 6 * e));
    assert(b[HEADER_SIZE + 6 * e + 1] == p.image_byte(HEADER_SIZE + 6 * e + 1));
    assert(b[HEADER_SIZE + 6 * e + 2] == p.image_byte(HEADER_SIZE + 6 * e + 2));
    assert(b[HEADER_SIZE + 6 * e + 3] == p.image_byte(HEADER_SIZE + 6 * e + 3));
    assert(b[HEADER_SIZE + 6 * e + 4] == p.image_byte(HEADER_SIZE + 6 * e + 4));
    assert(b[HEADER_SIZE + 6 * e + 5] == p.image_byte(HEADER_SIZE + 6 * e + 5));
    lemma_u16_from_bytes(b, HEADER_SIZE + 6 * e, h.slot_id);
    lemma_u16_from_bytes(b, HEADER_SIZE + 6 * e + 2, h.size);
    lemma_u16_from_bytes(b, HEADER_SIZE + 6 * e + 4, h.offset);
}

proof fn lemma_image_header(p: Page)
    requires
        p.wf(),
    ensures
        u16_at(p.image(), 0) == p.id(),
        u16_at(p.image(), 2) == p.live_slots(),
        read_first(u16_at(p.image(), 4)) == p.first_free(),
        u16_at(p.image(), 6) == p.directory().len(),
{
    reveal(Page::image);
    let b = p.image();
    let hs = p.directory();
    let n = hs.len() as int;
    lemma_live_bytes_monotone(hs, 0, n);
    assert(b[0] == p.image_byte(0));
    assert(b[1] == p.image_byte(1));
    assert(b[2] == p.image_byte(2));
    assert(b[3] == p.image_byte(3));
    assert(b[4] == p.image_byte(4));
    assert(b[5] == p.image_byte(5));
    assert(b[6] == p.image_byte(6));
    assert(b[7] == p.image_byte(7));
    lemma_u16_from_bytes(b, 0, p.id());
    lemma_u16_from_bytes(b, 2, p.live_slots() as u16);
    lemma_u16_from_bytes(b, 4, stored_first(p.first_free()));
    lemma_u16_from_bytes(b, 6, n as u16);
}

/// The image of a well-formed page is valid and describes that page.
pub proof fn lemma_image_decodes(p: Page)
    requires
        p.wf(),
    ensures
        valid_image(p.image()),
        stored_directory(p.image()) == p.directory(),
        stored_body(p.image()) == p.body(),
        read_first(u16_at(p.image(), 4)) == p.first_free(),
        u16_at(p.image(), 0) == p.id(),
        u16_at(p.image(), 2) == p.live_slots(),
{
    let b = p.image();
    let hs = p.directory();
    let n = hs.len() as int;
    lemma_image_header(p);
    lemma_live_bytes_monotone(hs, 0, n);
    assert(b.len() == PAGE_SIZE) by {
        reveal(Page::image);
    }
    assert forall|e: int| 0 <= e < n implies #[trigger] stored_header(b, e) == hs[e] by {
        lemma_image_entry(p, e);
    }
    assert(stored_directory(b) =~= hs);
    assert forall|k: int| 0 <= k < PAGE_SIZE implies #[trigger] stored_body(b)[k] == p.body()[k] by {
        reveal(Page::image);
        lemma_live_bytes_monotone(hs, 0, n);
        if k >= p.first_free() {
            assert(b[k] == p.image_byte(k));
        }
    }
    assert(stored_body(b) =~= p.body());
}

/// Reading back a page's image and writing the result out again gives the
/// same bytes; reading the image always succeeds.
pub proof fn law_image_round_trip(p: Page, q: Page)
    requires
        p.wf(),
        decodes_to(p.image(), q),
    ensures
        valid_image(p.image()),
        q.image() == p.image(),
{
    lemma_image_decodes(p);
    assert(q.id() == p.id());
    assert(q.live_slots() == p.live_slots());
    assert(q.first_free() == p.first_free());
    assert(q.directory() == p.directory());
    assert(q.body() == p.body());
    assert forall|k: int| 0 <= k < PAGE_SIZE implies #[trigger] q.image_byte(k) == p.image_byte(k) by {
    }
    reveal(Page::image);
    assert(q.image() =~= p.image());
}


/// The live records of `p` whose slot ids lie in `[from, directory length)`,
/// in ascending slot order, each with its slot id.
pub open spec fn records_from(p: Page, from: int) -> Seq<(Seq<u8>, u16)>
    decreases p.directory().len() - from,
{
    if from >= p.directory().len() || from < 0 {
        Seq::empty()
    } else if p.records().contains_key(from as u16) {
        seq![(p.records()[from as u16], from as u16)] + records_from(p, from + 1)
    } else {
        records_from(p, from + 1)
    }
}

impl Page {
    /// The first live record whose slot id is at least `from` and below the
    /// number of directory entries, with its slot id.
    pub fn next_record(&self, from: u16) -> (r: Option<(Vec<u8>, u16)>)
        requires
            self.wf(),
        ensures
            r is None ==> records_from(*self, from as int) == Seq::<(Seq<u8>, u16)>::empty(),
            r matches Some((v, s)) ==> from <= s < self.directory().len() && records_from(*self, from as int)
                == seq![(v@, s)] + records_from(*self, s + 1),
    {
        let n = self.headers.len();
        proof {
            lemma_live_bytes_monotone(self.headers@, 0, n as int);
        }
        let mut c: usize = from as usize;
        while c < n
            invariant
                self.wf(),
                n == self.directory().len(),
                n < 65536,
                from <= c,
                records_from(*self, from as int) == records_from(*self, c as int),
            decreases n - c,
        {
            match self.get_value(c as u16) {
                Some(v) => {
                    return Some((v, c as u16));
                },
                None => {},
            }
            c += 1;
        }
        None
    }

    /// A consuming iterator over the live records, starting at slot `slot`.
    pub fn new_iter(self, slot: u16) -> (it: HeapPageIntoIter)
        requires
            self.wf(),
        ensures
            it.wf(),
            it.page() == self,
            it.cursor() == slot,
    {
        HeapPageIntoIter { page: self, next_slot: slot }
    }

    /// A consuming iterator over all live records in ascending slot order.
    pub fn into_iter(self) -> (it: HeapPageIntoIter)
        requires
            self.wf(),
        ensures
            it.wf(),
            it.page() == self,
            it.cursor() == 0,
    {
        self.new_iter(0)
    }
}

/// Consuming iterator over a page's live records, in ascending slot order.
pub struct HeapPageIntoIter {
    page: Page,
    next_slot: u16,
}

impl HeapPageIntoIter {
    pub closed spec fn page(self) -> Page {
        self.page
    }

    /// The slot id from which the next record is searched.
    pub closed spec fn cursor(self) -> int {
        self.next_slot as int
    }

    pub open spec fn wf(self) -> bool {
        self.page().wf()
    }

    /// The records still to come.
    pub open spec fn remaining(self) -> Seq<(Seq<u8>, u16)> {
        records_from(self.page(), self.cursor())
    }

    /// Yields the next live record and its slot id, or none at the end.
    pub fn next(&mut self) -> (r: Option<(Vec<u8>, u16)>)
        requires
            old(self).wf(),
        ensures
            final(self).wf(),
            final(self).page() == old(self).page(),
            r is None ==> old(self).remaining() == Seq::<(Seq<u8>, u16)>::empty() && final(self).remaining()
                == Seq::<(Seq<u8>, u16)>::empty(),
            r matches Some((v, s)) ==> old(self).remaining() == seq![(v@, s)] + final(self).remaining(),
    {
        match self.page.next_record(self.next_slot) {
            Some((v, s)) => {
                self.next_slot = s + 1;
                Some((v, s))
            },
            None => None,
        }
    }
}

/// The payload read back from a live slot is the one most recently stored
/// there: right after `add_value` stored `bytes` under `s`, reading `s` gives
/// `bytes`, and a later add or delete of another slot leaves it unchanged.
pub proof fn law_value_is_last_written(p: Page, q: Page, bytes: Seq<u8>, s: u16, t: u16, r2: Option<u16>, q2: Page)
    requires
        p.wf(),
        add_outcome(p, q, bytes, Some(s)),
    ensures
        q.records()[s] == bytes,
        r2 != Some(s) && add_outcome(q, q2, bytes, r2) ==> q2.records()[s] == bytes,
        t != s && delete_outcome(q, q2, t, Some(())) ==> q2.records()[s] == bytes,
{
    if r2 != Some(s) && add_outcome(q, q2, bytes, r2) {
        if let Some(s2) = r2 {
            assert(q2.records() == q.records().insert(s2, bytes));
        }
    }
}

/// After deleting slot `s` and then adding a record that fits, the new record
/// gets slot `s` exactly when `s` is then the smallest free slot id.
pub proof fn law_delete_then_add(p: Page, q: Page, s: u16, bytes: Seq<u8>, q2: Page, r: Option<u16>)
    requires
        p.wf(),
        delete_outcome(p, q, s, Some(())),
        add_outcome(q, q2, bytes, r),
        bytes.len() + SLOT_META_SIZE <= q.free_space_of(),
    ensures
        r is Some,
        r == Some(s) <==> q.is_smallest_free(s),
{
    assert(!q.records().dom().contains(s));
    if q.is_smallest_free(s) {
        let s2 = r->0;
        if s2 != s {
            if s2 < s {
                assert(q.records().dom().contains(s2));
            } else {
                assert(q.records().dom().contains(s));
            }
        }
    }
}

/// Free space always equals the first free offset minus the header and
/// directory size, `8 + 6` per directory entry, and never goes negative; adds
/// and deletes keep it so.
pub proof fn law_free_space(p: Page, q: Page, bytes: Seq<u8>, s: u16, r: Option<u16>, d: Option<()>)
    requires
        p.wf(),
        add_outcome(p, q, bytes, r) || delete_outcome(p, q, s, d),
    ensures
        p.free_space_of() == p.first_free() - (HEADER_SIZE + SLOT_META_SIZE * p.directory().len()),
        q.free_space_of() == q.first_free() - (HEADER_SIZE + SLOT_META_SIZE * q.directory().len()),
        q.free_space_of() >= 0,
{
}


/// `q` comes from `p` by an add that did not store under slot `s`, or by a
/// delete of another slot.
pub open spec fn other_slot_step(p: Page, q: Page, s: u16) -> bool {
    ||| exists|b: Seq<u8>, r: Option<u16>| r != Some(s) && #[trigger] add_outcome(p, q, b, r)
    ||| exists|t: u16, d: Option<()>| t != s && #[trigger] delete_outcome(p, q, t, d)
}

/// Along any sequence of adds and deletes that leaves slot `s` alone, the
/// payload under `s` stays the one stored there.
pub proof fn law_value_survives_other_operations(pages: Seq<Page>, s: u16)
    requires
        pages.len() >= 1,
        pages[0].wf(),
        pages[0].records().contains_key(s),
        forall|i: int| 0 <= i < pages.len() - 1 ==> other_slot_step(#[trigger] pages[i], pages[i + 1], s),
    ensures
        pages.last().wf(),
        pages.last().records().contains_key(s),
        pages.last().records()[s] == pages[0].records()[s],
    decreases pages.len(),
{
    if pages.len() > 1 {
        let prev = pages.drop_last();
        assert forall|i: int| 0 <= i < prev.len() - 1 implies other_slot_step(#[trigger] prev[i], prev[i + 1], s) by {
            assert(prev[i] == pages[i] && prev[i + 1] == pages[i + 1]);
            assert(other_slot_step(pages[i], pages[i + 1], s));
        }
        law_value_survives_other_operations(prev, s);
        let p = prev.last();
        let q = pages.last();
        assert(p == pages[pages.len() - 2]);
        assert(other_slot_step(pages[pages.len() - 2], pages[pages.len() - 2 + 1], s));
        if exists|b: Seq<u8>, r: Option<u16>| r != Some(s) && #[trigger] add_outcome(p, q, b, r) {
            let (b, r) = choose|b: Seq<u8>, r: Option<u16>| r != Some(s) && #[trigger] add_outcome(p, q, b, r);
            if let Some(s2) = r {
                assert(q.records() == p.records().insert(s2, b));
            }
        } else {
            let (t, d) = choose|t: u16, d: Option<()>| t != s && #[trigger] delete_outcome(p, q, t, d);
            if d is Some {
                assert(q.records() == p.records().remove(t));
            }
        }
    }
}

/// `q` comes from `p` by one add or one delete.
pub open spec fn page_step(p: Page, q: Page) -> bool {
    ||| exists|b: Seq<u8>, r: Option<u16>| #[trigger] add_outcome(p, q, b, r)
    ||| exists|t: u16, d: Option<()>| #[trigger] delete_outcome(p, q, t, d)
}

/// Every live slot id is below the number of directory entries; this holds of
/// every page built from `Page::new` by adds and deletes.
pub open spec fn slots_below_directory(p: Page) -> bool {
    forall|s: u16| #[trigger] p.records().contains_key(s) ==> s < p.directory().len()
}

/// `records_from(p, from)` lists, in strictly ascending slot order, exactly the
/// live records whose slot ids lie in `[from, directory length)`.
pub proof fn lemma_records_from(p: Page, from: int)
    requires
        p.wf(),
        0 <= from,
    ensures
        forall|k: int|
            0 <= k < records_from(p, from).len() ==> from <= (#[trigger] records_from(p, from)[k]).1 < p.directory().len()
                && p.records().contains_key(records_from(p, from)[k].1) && p.records()[records_from(p, from)[k].1]
                == records_from(p, from)[k].0,
        forall|k: int, l: int|
            0 <= k < l < records_from(p, from).len() ==> (#[trigger] records_from(p, from)[k]).1 < (#[trigger] records_from(
                p,
                from,
            )[l]).1,
        forall|s: u16|
            from <= s < p.directory().len() && #[trigger] p.records().contains_key(s) ==> exists|k: int|
                0 <= k < records_from(p, from).len() && (#[trigger] records_from(p, from)[k]).1 == s,
    decreases p.directory().len() - from,
{
    p.lemma_bounds();
    if from < p.directory().len() {
        lemma_records_from(p, from + 1);
        let rest = records_from(p, from + 1);
        if p.records().contains_key(from as u16) {
            let all = seq![(p.records()[from as u16], from as u16)] + rest;
            assert(records_from(p, from) == all);
            assert forall|k: int| 0 <= k < all.len() implies from <= (#[trigger] all[k]).1 < p.directory().len()
                && p.records().contains_key(all[k].1) && p.records()[all[k].1] == all[k].0 by {
                if k > 0 {
                    assert(all[k] == rest[k - 1]);
                }
            }
            assert forall|k: int, l: int| 0 <= k < l < all.len() implies (#[trigger] all[k]).1 < (#[trigger] all[l]).1 by {
                assert(all[l] == rest[l - 1]);
                if k > 0 {
                    assert(all[k] == rest[k - 1]);
                }
            }
            assert forall|s: u16| from <= s < p.directory().len() && #[trigger] p.records().contains_key(s) implies exists|k: int|
                0 <= k < all.len() && (#[trigger] all[k]).1 == s by {
                if s == from {
                    assert(all[0].1 == s);
                } else {
                    let k = choose|k: int| 0 <= k < rest.len() && (#[trigger] rest[k]).1 == s;
                    assert(all[k + 1] == rest[k]);
                }
            }
        } else {
            assert(records_from(p, from) == rest);
            assert forall|s: u16| from <= s < p.directory().len() && #[trigger] p.records().contains_key(s) implies exists|k: int|
                0 <= k < rest.len() && (#[trigger] rest[k]).1 == s by {
                assert(s != from);
            }
        }
    }
}

/// Iterating a page built from `Page::new` by adds and deletes yields every
/// live record exactly once, with its slot id, in ascending slot order; so the
/// payloads yielded are exactly the payloads stored and not deleted since.
pub proof fn law_iteration_yields_live_records(pages: Seq<Page>)
    requires
        pages.len() >= 1,
        pages[0].wf(),
        pages[0].directory().len() == 0,
        forall|i: int| 0 <= i < pages.len() - 1 ==> page_step(#[trigger] pages[i], pages[i + 1]),
    ensures
        pages.last().wf(),
        slots_below_directory(pages.last()),
        forall|k: int|
            0 <= k < records_from(pages.last(), 0).len() ==> pages.last().records().contains_key(
                (#[trigger] records_from(pages.last(), 0)[k]).1,
            ) && pages.last().records()[records_from(pages.last(), 0)[k].1] == records_from(pages.last(), 0)[k].0,
        forall|k: int, l: int|
            0 <= k < l < records_from(pages.last(), 0).len() ==> (#[trigger] records_from(pages.last(), 0)[k]).1 < (
            #[trigger] records_from(pages.last(), 0)[l]).1,
        forall|s: u16|
            #[trigger] pages.last().records().contains_key(s) ==> exists|k: int|
                0 <= k < records_from(pages.last(), 0).len() && (#[trigger] records_from(pages.last(), 0)[k]).1 == s,
    decreases pages.len(),
{
    if pages.len() == 1 {
        assert forall|s: u16| #[trigger] pages[0].records().contains_key(s) implies s < pages[0].directory().len() by {
            let i = choose|i: int|
                0 <= i < pages[0].directory().len() && (#[trigger] pages[0].directory()[i]).is_live()
                    && pages[0].directory()[i].slot_id == s;
        }
    } else {
        let prev = pages.drop_last();
        assert forall|i: int| 0 <= i < prev.len() - 1 implies page_step(#[trigger] prev[i], prev[i + 1]) by {
            assert(prev[i] == pages[i] && prev[i + 1] == pages[i + 1]);
            assert(page_step(pages[i], pages[i + 1]));
        }
        law_iteration_yields_live_records(prev);
        let p = prev.last();
        let q = pages.last();
        assert(p == pages[pages.len() - 2]);
        assert(q == pages[pages.len() - 2 + 1]);
        assert(page_step(pages[pages.len() - 2], pages[pages.len() - 2 + 1]));
        if exists|b: Seq<u8>, r: Option<u16>| #[trigger] add_outcome(p, q, b, r) {
            let (b, r) = choose|b: Seq<u8>, r: Option<u16>| #[trigger] add_outcome(p, q, b, r);
            if let Some(s2) = r {
                assert(q.records() == p.records().insert(s2, b));
            }
        } else {
            let (t, d) = choose|t: u16, d: Option<()>| #[trigger] delete_outcome(p, q, t, d);
            if d is Some {
                assert(q.records() == p.records().remove(t));
            }
        }
    }
    lemma_records_from(pages.last(), 0);
}
} // verus!
