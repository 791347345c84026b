//! Going through the values of a heap file.

use vstd::prelude::*;

use crate::heapfile::{
    page_at, page_bytes, page_count, page_total, value_at, HeapFile, PAGE_ID_LIMIT,
};
use crate::ids::{ContainerId, PageId, SlotId, TransactionId, ValueId};
use crate::page::{lemma_parsed_page_fits, page_items, HeapPageIntoIter, Slots, FREE_SLOT};

verus! {

/// Some values of a page, together with where they lie in a container.
pub open spec fn located(
    items: Seq<(Seq<u8>, SlotId)>,
    container_id: ContainerId,
    page_id: PageId,
) -> Seq<(Seq<u8>, ValueId)> {
    items.map_values(
        |item: (Seq<u8>, SlotId)| (item.0, ValueId::slot(container_id, page_id, item.1)),
    )
}

/// The values on the pages from `page` up to `end`, those on the first of them from `slot` on. The
/// pages end where the file does.
pub open spec fn file_items(
    data: Seq<u8>,
    container_id: ContainerId,
    page: int,
    slot: int,
    end: int,
) -> Seq<(Seq<u8>, ValueId)>
    decreases end - page,
{
    if page >= end || page >= page_count(data) {
        Seq::empty()
    } else {
        located(page_items(page_at(data, page).slots, slot), container_id, page as PageId)
            + file_items(data, container_id, page + 1, 0, end)
    }
}

/// Goes through the values of a heap file, page by page and slot by slot. It ends at the page that
/// was the end of the file when it was made. A page is read when its turn comes.
#[derive(Debug)]
pub struct HeapFileIterator {
    container_id: ContainerId,
    tid: TransactionId,
    /// The page to look at next; `None` if there is nothing to look at.
    next_page_id: Option<PageId>,
    /// The slot of that page to start from, if it is not the first.
    resume_slot_id: Option<SlotId>,
    /// The page to stop before.
    end_page_id: PageId,
    /// What is left of the page, once it has been read.
    current_page_iter: Option<HeapPageIntoIter>,
}

impl HeapFileIterator {
    /// The container whose values are gone through.
    pub closed spec fn container(&self) -> ContainerId {
        self.container_id
    }

    /// The transaction on whose behalf this happens.
    pub closed spec fn transaction(&self) -> TransactionId {
        self.tid
    }

    /// The page to look at next.
    pub closed spec fn page(&self) -> Option<PageId> {
        self.next_page_id
    }

    /// The page to stop before.
    pub closed spec fn end(&self) -> PageId {
        self.end_page_id
    }

    /// The slot of the page to look at to start from, if it is not the first.
    pub closed spec fn resume(&self) -> Option<SlotId> {
        self.resume_slot_id
    }

    /// What is left of the page to look at, once it has been read.
    pub closed spec fn page_rest(&self) -> Option<Seq<(Seq<u8>, SlotId)>> {
        match self.current_page_iter {
            Some(items) => Some(items.remaining()),
            None => None,
        }
    }

    /// Only a page that there is has been read.
    pub closed spec fn wf(&self) -> bool {
        self.current_page_iter matches Some(items) ==> items.wf() && self.next_page_id is Some
            && self.next_page_id->0 < self.end_page_id
    }

    /// What is still handed out if the file holds `data` from now on.
    pub open spec fn remaining(&self, data: Seq<u8>) -> Seq<(Seq<u8>, ValueId)> {
        match (self.page(), self.page_rest()) {
            (None, _) => Seq::empty(),
            (Some(page), Some(items)) => located(items, self.container(), page) + file_items(
                data,
                self.container(),
                page + 1,
                0,
                self.end() as int,
            ),
            (Some(page), None) => file_items(
                data,
                self.container(),
                page as int,
                match self.resume() {
                    Some(slot) => slot as int,
                    None => 0,
                },
                self.end() as int,
            ),
        }
    }

    /// How many pages have been read, if those before the first page count too.
    pub open spec fn pages_done(&self) -> int {
        match self.page() {
            Some(page) => page + if self.page_rest() is Some {
                1int
            } else {
                0int
            },
            None => 0,
        }
    }

    /// Whether the page to look at next is one before the page to stop at.
    pub open spec fn pages_left(&self) -> bool {
        self.page() is Some && self.page()->0 < self.end()
    }

    /// The page to look at once there is nothing more to hand out of a file that holds `data`.
    pub open spec fn page_after_end(&self, data: Seq<u8>) -> PageId {
        let stop = if self.end() < page_count(data) {
            self.end() as int
        } else {
            page_count(data)
        };
        if self.pages_done() < stop {
            stop as PageId
        } else {
            self.pages_done() as PageId
        }
    }

    /// Starts at the first value of a heap file.
    pub fn new(tid: TransactionId, hf: &HeapFile) -> (res: Self)
        ensures
            res.wf(),
            res.container() == hf.container_id,
            res.transaction() == tid,
            res.page() == Some(0u16),
            res.end() == page_total(hf.data@),
            res.resume() is None,
            res.page_rest() is None,
    {
        HeapFileIterator {
            container_id: hf.container_id,
            tid,
            next_page_id: Some(0),
            resume_slot_id: None,
            end_page_id: hf.num_pages(),
            current_page_iter: None,
        }
    }

    /// Starts at the given value of a heap file, or at the first one behind it. If it has no page,
    /// there is nothing to go through; if it has no slot, the page is gone through as a whole.
    pub fn new_from(tid: TransactionId, hf: &HeapFile, start: ValueId) -> (res: Self)
        ensures
            res.wf(),
            res.container() == hf.container_id,
            res.transaction() == tid,
            res.page() == start.page_id,
            res.end() == page_total(hf.data@),
            res.resume() == start.slot_id,
            res.page_rest() is None,
    {
        HeapFileIterator {
            container_id: hf.container_id,
            tid,
            next_page_id: start.page_id,
            resume_slot_id: start.slot_id,
            end_page_id: hf.num_pages(),
            current_page_iter: None,
        }
    }

    /// The container whose values are gone through.
    pub fn container_id(&self) -> (res: ContainerId)
        ensures
            res == self.container(),
    {
        self.container_id
    }

    /// Hands out the next value, and where it lies. The heap file must be that of the container
    /// that the iterator was made for.
    ///
    /// It is read once for each page that is looked at, also where the page turns out not to be
    /// there.
    pub fn next(&mut self, hf: &mut HeapFile) -> (res: Option<(Vec<u8>, ValueId)>)
        requires
            old(self).wf(),
            old(hf).container_id == old(self).container(),
        ensures
            final(self).wf(),
            final(self).container() == old(self).container(),
            final(self).transaction() == old(self).transaction(),
            final(self).end() == old(self).end(),
            final(hf).data == old(hf).data,
            final(hf).container_id == old(hf).container_id,
            final(hf).write_count == old(hf).write_count,
            match res {
                Some((value, id)) => {
                    &&& old(self).remaining(old(hf).data@).len() > 0
                    &&& old(self).remaining(old(hf).data@)[0] == (value@, id)
                    &&& final(self).page() == id.page_id
                    &&& final(self).page_rest() is Some
                    &&& final(self).remaining(old(hf).data@) == old(self).remaining(
                        old(hf).data@,
                    ).drop_first()
                    &&& final(hf).read_count == (old(hf).read_count + final(self).pages_done()
                        - old(self).pages_done()) % 65536
                },
                None => {
                    &&& old(self).remaining(old(hf).data@).len() == 0
                    &&& final(self).remaining(old(hf).data@).len() == 0
                    &&& final(self).page_rest() is None
                    &&& final(self).page() == match old(self).page() {
                        Some(_) => Some(old(self).page_after_end(old(hf).data@)),
                        None => None,
                    }
                    &&& final(hf).read_count == (old(hf).read_count + final(self).pages_done()
                        - old(self).pages_done() + if final(self).pages_left() {
                        1int
                    } else {
                        0int
                    }) % 65536
                },
            },
    {
        let ghost data = hf.data@;
        let ghost items = self.remaining(data);
        let mut page_id: PageId = match self.next_page_id {
            Some(page_id) => page_id,
            None => {
                return None;
            },
        };
        while page_id < self.end_page_id
            invariant
                self.wf(),
                self.next_page_id == Some(page_id),
                self.container_id == old(self).container_id,
                self.tid == old(self).tid,
                self.end_page_id == old(self).end_page_id,
                hf.data == old(hf).data,
                hf.container_id == old(hf).container_id,
                hf.container_id == self.container_id,
                hf.write_count == old(hf).write_count,
                data == old(hf).data@,
                items == old(self).remaining(data),
                self.remaining(data) == items,
                self.pages_done() >= old(self).pages_done(),
                self.pages_done() > old(self).pages_done() ==> self.pages_done() <= page_count(data)
                    && self.pages_done() <= self.end_page_id,
                old(self).page() is Some,
                hf.read_count == (old(hf).read_count + self.pages_done() - old(self).pages_done())
                    % 65536,
            decreases self.end_page_id - page_id,
        {
            if self.current_page_iter.is_none() {
                let page = match hf.read_page_from_file(page_id) {
                    Ok(page) => page,
                    Err(_) => {
                        return None;
                    },
                };
                let page_iter = match self.resume_slot_id {
                    Some(slot_id) => HeapPageIntoIter::new_at_slot(page, slot_id),
                    None => page.into_iter(),
                };
                self.current_page_iter = Some(page_iter);
            }
            let mut page_iter = self.current_page_iter.take().unwrap();
            let ghost later = file_items(
                data,
                self.container_id,
                page_id + 1,
                0,
                self.end_page_id as int,
            );
            let ghost here = located(page_iter.remaining(), self.container_id, page_id);
            assert(items == here + later);
            let found = page_iter.next();
            match found {
                Some((bytes, slot_id)) => {
                    assert(located(page_iter.remaining(), self.container_id, page_id)
                        =~= here.drop_first());
                    assert((here + later).drop_first() =~= here.drop_first() + later);
                    self.current_page_iter = Some(page_iter);
                    let value_id = ValueId::new_slot(self.container_id, page_id, slot_id);
                    return Some((bytes, value_id));
                },
                None => {
                    assert(here + later =~= later);
                    page_id = page_id + 1;
                    self.next_page_id = Some(page_id);
                    self.resume_slot_id = None;
                },
            }
        }
        None
    }
}

/// Whether one value lies before another: on an earlier page, or in an earlier slot of the page.
pub open spec fn precedes(a: ValueId, b: ValueId) -> bool {
    a.page_id->0 < b.page_id->0 || (a.page_id->0 == b.page_id->0 && a.slot_id->0 < b.slot_id->0)
}

/// Whether a slot is at or behind a given one.
pub open spec fn at_or_behind(page: int, slot: int, from_page: int, from_slot: int) -> bool {
    page > from_page || (page == from_page && slot >= from_slot)
}

/// Whether an entry of a scan that starts at a given slot tells where a value of the file lies.
pub open spec fn sound_entry(
    data: Seq<u8>,
    container_id: ContainerId,
    from_page: int,
    from_slot: int,
    entry: (Seq<u8>, ValueId),
) -> bool {
    let (value, id) = entry;
    &&& id.container_id == container_id
    &&& id.page_id is Some
    &&& id.slot_id is Some
    &&& at_or_behind(id.page_id->0 as int, id.slot_id->0 as int, from_page, from_slot)
    &&& value_at(data, id.page_id->0 as int, id.slot_id->0 as int) == Some(value)
}

/// The values of a page from a slot on: what lies there, all that lies there, slot by slot.
pub proof fn lemma_page_items(slots: Slots, from: int)
    requires
        slots.len() <= FREE_SLOT,
        from >= 0,
    ensures
        forall|i: int|
            0 <= i < page_items(slots, from).len() ==> ({
                let item = #[trigger] page_items(slots, from)[i];
                from <= item.1 < slots.len() && slots[item.1 as int] == Some(item.0)
            }),
        forall|i: int, j: int|
            0 <= i < j < page_items(slots, from).len() ==> (#[trigger] page_items(slots, from)[i]).1
                < (#[trigger] page_items(slots, from)[j]).1,
        forall|s: int|
            from <= s < slots.len() && (#[trigger] slots[s]) is Some ==> page_items(
                slots,
                from,
            ).contains((slots[s]->0, s as SlotId)),
    decreases slots.len() - from,
{
    if from < slots.len() {
        lemma_page_items(slots, from + 1);
        let later = page_items(slots, from + 1);
        if let Some(value) = slots[from] {
            let first = (value, from as SlotId);
            let items = page_items(slots, from);
            assert(items == seq![first] + later);
            assert forall|i: int| 0 <= i < items.len() implies ({
                let item = #[trigger] items[i];
                from <= item.1 < slots.len() && slots[item.1 as int] == Some(item.0)
            }) by {
                if i > 0 {
                    assert(items[i] == later[i - 1]);
                }
            }
            assert forall|i: int, j: int| 0 <= i < j < items.len() implies (#[trigger] items[i]).1
                < (#[trigger] items[j]).1 by {
                assert(items[j] == later[j - 1]);
                if i > 0 {
                    assert(items[i] == later[i - 1]);
                }
            }
            assert forall|s: int|
                from <= s < slots.len() && (#[trigger] slots[s]) is Some implies items.contains(
                (slots[s]->0, s as SlotId),
            ) by {
                if s == from {
                    assert(items[0] == first);
                } else {
                    let entry = (slots[s]->0, s as SlotId);
                    let k = later.index_of(entry);
                    assert(later.contains(entry));
                    assert(items[k + 1] == entry);
                }
            }
        }
    }
}

/// A scan from a slot on, up to a page that the file has: it hands out values that lie there, all
/// that lie there, and those that lie before others first.
proof fn lemma_scan_pages(data: Seq<u8>, container_id: ContainerId, page: int, slot: int, end: int)
    requires
        0 <= page,
        0 <= slot,
        end <= page_count(data),
        end <= PAGE_ID_LIMIT,
    ensures
        forall|i: int|
            0 <= i < file_items(data, container_id, page, slot, end).len() ==> sound_entry(
                data,
                container_id,
                page,
                slot,
                #[trigger] file_items(data, container_id, page, slot, end)[i],
            ),
        forall|i: int, j: int|
            0 <= i < j < file_items(data, container_id, page, slot, end).len() ==> precedes(
                (#[trigger] file_items(data, container_id, page, slot, end)[i]).1,
                (#[trigger] file_items(data, container_id, page, slot, end)[j]).1,
            ),
        forall|p: int, s: int|
            at_or_behind(p, s, page, slot) && p < end && (#[trigger] value_at(
                data,
                p,
                s,
            )) is Some ==> file_items(data, container_id, page, slot, end).contains(
                (value_at(data, p, s)->0, ValueId::slot(container_id, p as PageId, s as SlotId)),
            ),
    decreases end - page,
{
    if page < end {
        lemma_scan_pages(data, container_id, page + 1, 0, end);
        let slots = page_at(data, page).slots;
        lemma_parsed_page_fits(page_bytes(data, page));
        assert(slots.len() <= FREE_SLOT);
        lemma_page_items(slots, slot);
        let here = page_items(slots, slot);
        let first = located(here, container_id, page as PageId);
        let later = file_items(data, container_id, page + 1, 0, end);
        let items = file_items(data, container_id, page, slot, end);
        assert(items == first + later);
        assert forall|i: int| 0 <= i < items.len() implies sound_entry(
            data,
            container_id,
            page,
            slot,
            #[trigger] items[i],
        ) by {
            if i < first.len() {
                assert(items[i] == first[i]);
                assert(first[i] == (
                    here[i].0,
                    ValueId::slot(container_id, page as PageId, here[i].1),
                ));
            } else {
                assert(items[i] == later[i - first.len()]);
            }
        }
        assert forall|i: int, j: int| 0 <= i < j < items.len() implies precedes(
            (#[trigger] items[i]).1,
            (#[trigger] items[j]).1,
        ) by {
            if i < first.len() {
                assert(first[i].1 == ValueId::slot(container_id, page as PageId, here[i].1));
            }
            if j < first.len() {
                assert(first[j].1 == ValueId::slot(container_id, page as PageId, here[j].1));
                assert(here[i].1 < here[j].1);
            } else {
                assert(items[j] == later[j - first.len()]);
                assert(sound_entry(data, container_id, page + 1, 0, later[j - first.len()]));
                if i >= first.len() {
                    assert(items[i] == later[i - first.len()]);
                }
            }
        }
        assert forall|p: int, s: int|
            at_or_behind(p, s, page, slot) && p < end && (#[trigger] value_at(
                data,
                p,
                s,
            )) is Some implies items.contains(
            (value_at(data, p, s)->0, ValueId::slot(container_id, p as PageId, s as SlotId)),
        ) by {
            let entry = (
                value_at(data, p, s)->0,
                ValueId::slot(container_id, p as PageId, s as SlotId),
            );
            if p == page {
                let found = (slots[s]->0, s as SlotId);
                assert(here.contains(found));
                let k = here.index_of(found);
                assert(first[k] == entry);
                assert(items[k] == entry);
            } else {
                assert(at_or_behind(p, s, page + 1, 0));
                assert(later.contains(entry));
                let k = later.index_of(entry);
                assert(items[first.len() + k] == entry);
            }
        }
    }
}

/// What an iterator over a whole heap file hands out, if the file does not change meanwhile: every
/// value of the file once, with the place where it lies, in the order of pages and slots, and
/// nothing else.
pub proof fn lemma_full_scan(data: Seq<u8>, container_id: ContainerId)
    requires
        page_count(data) < PAGE_ID_LIMIT,
    ensures
        ({
            let items = file_items(data, container_id, 0, 0, page_total(data));
            &&& forall|i: int|
                0 <= i < items.len() ==> sound_entry(data, container_id, 0, 0, #[trigger] items[i])
            &&& forall|i: int, j: int|
                0 <= i < j < items.len() ==> precedes(
                    (#[trigger] items[i]).1,
                    (#[trigger] items[j]).1,
                )
            &&& forall|p: int, s: int|
                (#[trigger] value_at(data, p, s)) is Some ==> items.contains(
                    (value_at(data, p, s)->0, ValueId::slot(container_id, p as PageId, s as SlotId)),
                )
        }),
{
    lemma_scan_pages(data, container_id, 0, 0, page_total(data));
    assert forall|p: int, s: int| (#[trigger] value_at(data, p, s)) is Some implies at_or_behind(
        p,
        s,
        0,
        0,
    ) && p < page_total(data) by {}
}

/// What an iterator that starts at a given slot hands out, if the file does not change meanwhile:
/// every value that lies at or behind that slot once, in the order of pages and slots, and nothing
/// else.
pub proof fn lemma_scan_from(data: Seq<u8>, container_id: ContainerId, page: int, slot: int)
    requires
        page_count(data) < PAGE_ID_LIMIT,
        0 <= page,
        0 <= slot,
    ensures
        ({
            let items = file_items(data, container_id, page, slot, page_total(data));
            &&& forall|i: int|
                0 <= i < items.len() ==> sound_entry(
                    data,
                    container_id,
                    page,
                    slot,
                    #[trigger] items[i],
                )
            &&& forall|i: int, j: int|
                0 <= i < j < items.len() ==> precedes(
                    (#[trigger] items[i]).1,
                    (#[trigger] items[j]).1,
                )
            &&& forall|p: int, s: int|
                at_or_behind(p, s, page, slot) && (#[trigger] value_at(data, p, s)) is Some
                    ==> items.contains(
                    (value_at(data, p, s)->0, ValueId::slot(container_id, p as PageId, s as SlotId)),
                )
        }),
{
    lemma_scan_pages(data, container_id, page, slot, page_total(data));
}

/// An iterator without a page hands out nothing.
pub proof fn lemma_iterator_without_page(iter: HeapFileIterator, data: Seq<u8>)
    requires
        iter.page() is None,
    ensures
        iter.remaining(data).len() == 0,
{
}

/// An iterator that is about to read the page `page`, and to start there at the slot that it resumes
/// at, or at the first one, hands out exactly the values that lie at or behind that slot, up to its
/// end: each once, with the id of where it lies, those on earlier pages and in earlier slots first,
/// and none that lies before.
pub proof fn lemma_iterator_from_slot(iter: HeapFileIterator, data: Seq<u8>, page: PageId)
    requires
        iter.page() == Some(page),
        iter.page_rest() is None,
        iter.end() <= page_count(data),
    ensures
        ({
            let items = iter.remaining(data);
            let start = match iter.resume() {
                Some(slot) => slot as int,
                None => 0,
            };
            &&& forall|i: int|
                0 <= i < items.len() ==> ({
                    let (value, id) = #[trigger] items[i];
                    &&& id.container_id == iter.container()
                    &&& id.page_id is Some
                    &&& id.slot_id is Some
                    &&& page < id.page_id->0 || (page == id.page_id->0 && start <= id.slot_id->0)
                    &&& id.page_id->0 < iter.end()
                    &&& value_at(data, id.page_id->0 as int, id.slot_id->0 as int) == Some(value)
                })
            &&& forall|i: int, j: int|
                0 <= i < j < items.len() ==> ({
                    let a = (#[trigger] items[i]).1;
                    let b = (#[trigger] items[j]).1;
                    a.page_id->0 < b.page_id->0 || (a.page_id->0 == b.page_id->0 && a.slot_id->0
                        < b.slot_id->0)
                })
            &&& forall|p: int, s: int|
                (page < p || (page == p && start <= s)) && p < iter.end() && (#[trigger] value_at(
                    data,
                    p,
                    s,
                )) is Some ==> items.contains(
                    (
                        value_at(data, p, s)->0,
                        ValueId {
                            container_id: iter.container(),
                            page_id: Some(p as PageId),
                            slot_id: Some(s as SlotId),
                        },
                    ),
                )
        }),
{
    let start = match iter.resume() {
        Some(slot) => slot as int,
        None => 0,
    };
    let end = iter.end() as int;
    lemma_scan_pages(data, iter.container(), page as int, start, end);
    lemma_pages_before_end(data, iter.container(), page as int, start, end);
    let items = iter.remaining(data);
    assert(items == file_items(data, iter.container(), page as int, start, end));
    assert forall|i: int| 0 <= i < items.len() implies (#[trigger] items[i]).1.page_id->0 < end
        && sound_entry(data, iter.container(), page as int, start, items[i]) by {}
    assert forall|i: int, j: int| 0 <= i < j < items.len() implies precedes(
        (#[trigger] items[i]).1,
        (#[trigger] items[j]).1,
    ) by {}
    assert forall|p: int, s: int|
        (page < p || (page == p && start <= s)) && p < end && (#[trigger] value_at(
            data,
            p,
            s,
        )) is Some implies items.contains(
        (
            value_at(data, p, s)->0,
            ValueId {
                container_id: iter.container(),
                page_id: Some(p as PageId),
                slot_id: Some(s as SlotId),
            },
        ),
    ) by {
        assert(at_or_behind(p, s, page as int, start));
    }
}

/// A scan ends before the page that it stops at.
proof fn lemma_pages_before_end(
    data: Seq<u8>,
    container_id: ContainerId,
    page: int,
    slot: int,
    end: int,
)
    requires
        0 <= page,
        end <= PAGE_ID_LIMIT,
    ensures
        forall|i: int|
            0 <= i < file_items(data, container_id, page, slot, end).len() ==> (
            #[trigger] file_items(data, container_id, page, slot, end)[i]).1.page_id->0 < end,
    decreases end - page,
{
    if page < end && page < page_count(data) {
        lemma_pages_before_end(data, container_id, page + 1, 0, end);
        let first = located(
            page_items(page_at(data, page).slots, slot),
            container_id,
            page as PageId,
        );
        let later = file_items(data, container_id, page + 1, 0, end);
        let items = file_items(data, container_id, page, slot, end);
        assert(items == first + later);
        assert forall|i: int| 0 <= i < items.len() implies (#[trigger] items[i]).1.page_id->0
            < end by {
            if i < first.len() {
                assert(items[i] == first[i]);
            } else {
                assert(items[i] == later[i - first.len()]);
            }
        }
    }
}

/// An iterator in the middle of a page hands out what is left of that page, each value with the id of
/// where it lies, and then what an iterator hands out that is about to read the next page.
pub proof fn lemma_iterator_within_page(
    iter: HeapFileIterator,
    fresh: HeapFileIterator,
    data: Seq<u8>,
    page: PageId,
    rest: Seq<(Seq<u8>, SlotId)>,
)
    requires
        iter.page() == Some(page),
        iter.page_rest() == Some(rest),
        page < PageId::MAX,
        fresh.page() == Some((page + 1) as PageId),
        fresh.page_rest() is None,
        fresh.resume() is None,
        fresh.end() == iter.end(),
        fresh.container() == iter.container(),
    ensures
        iter.remaining(data).len() == rest.len() + fresh.remaining(data).len(),
        forall|i: int|
            0 <= i < rest.len() ==> #[trigger] iter.remaining(data)[i] == (
                rest[i].0,
                ValueId {
                    container_id: iter.container(),
                    page_id: Some(page),
                    slot_id: Some(rest[i].1),
                },
            ),
        forall|i: int|
            0 <= i < fresh.remaining(data).len() ==> iter.remaining(data)[rest.len() + i]
                == #[trigger] fresh.remaining(data)[i],
{
}

/// How far an iterator has got: the pages before the one to look at are done, and that one is read if
/// there is a rest of it. Once there is nothing more to hand out it stands at its end, or at the end of
/// the file if that comes first, unless it was behind that before.
pub proof fn lemma_progress(iter: HeapFileIterator, data: Seq<u8>, page: PageId)
    requires
        iter.page() == Some(page),
        iter.page_rest() is Some ==> page < PageId::MAX,
    ensures
        iter.page_rest() is None ==> iter.pages_done() == page,
        iter.page_rest() is Some ==> iter.pages_done() == page + 1,
        iter.pages_left() <==> page < iter.end(),
        iter.page_after_end(data) >= iter.pages_done(),
        iter.pages_done() <= iter.end() && iter.pages_done() <= page_count(data) ==> (
        iter.page_after_end(data) <= iter.end() && iter.page_after_end(data) <= page_count(data)
            && (iter.page_after_end(data) == iter.end() || iter.page_after_end(data) == page_count(
            data,
        ))),
        iter.pages_done() > iter.end() || iter.pages_done() > page_count(data)
            ==> iter.page_after_end(data) == iter.pages_done(),
{
}

} // verus!
