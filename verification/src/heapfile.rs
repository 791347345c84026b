//! Heap files: the pages of a container, one after the other.

use vstd::prelude::*;

use crate::error::CrustyError;
use crate::ids::{ContainerId, PageId, ValueId};
use crate::page::{
    bytes_without, first_free, lemma_first_free, lemma_parsed_page_fits, lemma_read_back,
    lemma_with_value, lemma_without, page_array, parse_page, Page, PageView, MAX_VALUE_SIZE,
    PAGE_SIZE,
};

verus! {

/// How many pages can be told apart by their ids.
pub const PAGE_ID_LIMIT: usize = 65536;

/// How many whole pages a file has.
pub open spec fn page_count(data: Seq<u8>) -> int {
    data.len() as int / PAGE_SIZE as int
}

/// How many pages a file has, as far as a page id can say: the count starts again at zero once
/// there are `PAGE_ID_LIMIT` of them.
pub open spec fn page_total(data: Seq<u8>) -> int {
    page_count(data) % PAGE_ID_LIMIT as int
}

/// The bytes of a page of a file.
pub open spec fn page_bytes(data: Seq<u8>, page: int) -> Seq<u8> {
    data.subrange(PAGE_SIZE * page, PAGE_SIZE * page + PAGE_SIZE)
}

/// A page of a file.
pub open spec fn page_at(data: Seq<u8>, page: int) -> PageView {
    parse_page(page_bytes(data, page))
}

/// The value in a slot of a page of a file, if there is one.
pub open spec fn value_at(data: Seq<u8>, page: int, slot: int) -> Option<Seq<u8>> {
    if 0 <= page < page_count(data) {
        page_at(data, page).value(slot)
    } else {
        None
    }
}

/// A file after bytes are written to it at a position. Where the position lies behind the end of
/// the file, zeros fill the gap.
pub open spec fn overwrite(data: Seq<u8>, at: int, bytes: Seq<u8>) -> Seq<u8> {
    Seq::new(
        if data.len() < at + bytes.len() {
            (at + bytes.len()) as nat
        } else {
            data.len()
        },
        |i: int|
            if at <= i < at + bytes.len() {
                bytes[i - at]
            } else if i < data.len() {
                data[i]
            } else {
                0u8
            },
    )
}

/// A file after the bytes of a page are written to it, at the position that the id of the page
/// gives.
pub open spec fn write_page(data: Seq<u8>, bytes: Seq<u8>) -> Seq<u8> {
    overwrite(data, PAGE_SIZE * parse_page(bytes).id, bytes)
}

/// Whether every page of a file stands at the position that its id gives, and there are no more
/// pages than can be counted by a page id.
pub open spec fn well_formed(data: Seq<u8>) -> bool {
    &&& page_count(data) < PAGE_ID_LIMIT
    &&& forall|i: int| 0 <= i < page_count(data) ==> (#[trigger] page_at(data, i)).id == i
}

/// The first page from `from` on that has room for a value of the given length; the number of pages
/// if there is none.
pub open spec fn page_with_room(data: Seq<u8>, len: nat, from: int) -> int
    decreases page_total(data) - from,
{
    if from >= page_total(data) || page_at(data, from).has_room(len) {
        from
    } else {
        page_with_room(data, len, from + 1)
    }
}

/// The page that a value of the given length is put on: the first one that has room for it, or a
/// new one.
pub open spec fn page_for(data: Seq<u8>, len: nat) -> PageView {
    let page = page_with_room(data, len, 0);
    if page < page_total(data) {
        page_at(data, page)
    } else {
        PageView::empty(page_total(data) as PageId)
    }
}

/// A file after a value is inserted.
pub open spec fn insert(data: Seq<u8>, value: Seq<u8>) -> Seq<u8> {
    write_page(data, page_for(data, value.len()).with_value(value).bytes())
}

/// Where a value lies after it is inserted into the file of a container.
pub open spec fn insert_id(container_id: ContainerId, data: Seq<u8>, value: Seq<u8>) -> ValueId {
    ValueId::slot(
        container_id,
        page_with_room(data, value.len(), 0) as PageId,
        first_free(page_for(data, value.len()).slots) as u16,
    )
}

/// A file after the value in a slot is deleted. The page is written back, if it exists.
pub open spec fn delete(data: Seq<u8>, page: int, slot: int) -> Seq<u8> {
    if 0 <= page < page_count(data) {
        write_page(data, bytes_without(page_bytes(data, page), slot))
    } else {
        data
    }
}

/// A counter after some more events; it starts again at zero after `u16::MAX`.
pub open spec fn counted(count: u16, events: int) -> u16 {
    ((count + events) % 65536) as u16
}

/// How many pages are looked at to find one with room for a value of the given length.
pub open spec fn pages_tried(data: Seq<u8>, len: nat) -> int {
    let page = page_with_room(data, len, 0);
    if page < page_total(data) {
        page + 1
    } else {
        page
    }
}

/// What a `HeapFile` holds.
#[verifier::ext_equal]
pub struct FileView {
    pub container_id: ContainerId,
    pub data: Seq<u8>,
    pub reads: u16,
    pub writes: u16,
}

impl FileView {
    /// The file of a container that has not been read or written yet.
    pub open spec fn opened(container_id: ContainerId, data: Seq<u8>) -> FileView {
        FileView { container_id, data, reads: 0, writes: 0 }
    }

    /// The file after some pages have been read.
    pub open spec fn after_reads(self, pages: int) -> FileView {
        FileView { reads: counted(self.reads, pages), ..self }
    }

    /// The file after a page has been written.
    pub open spec fn after_write(self, bytes: Seq<u8>) -> FileView {
        FileView {
            data: write_page(self.data, bytes),
            writes: counted(self.writes, 1),
            ..self
        }
    }

    /// The file after a value has been inserted.
    pub open spec fn after_insert(self, value: Seq<u8>) -> FileView {
        FileView {
            data: insert(self.data, value),
            reads: counted(self.reads, pages_tried(self.data, value.len())),
            writes: counted(self.writes, 1),
            ..self
        }
    }

    /// The file after some values have been inserted, one after the other.
    pub open spec fn after_inserts(self, values: Seq<Seq<u8>>) -> FileView
        decreases values.len(),
    {
        if values.len() == 0 {
            self
        } else {
            self.after_inserts(values.drop_last()).after_insert(values.last())
        }
    }

    /// The file after the value in a slot has been deleted. The page is read, and written if it is
    /// there.
    pub open spec fn after_delete(self, page: int, slot: int) -> FileView {
        FileView {
            data: delete(self.data, page, slot),
            reads: counted(self.reads, 1),
            writes: if 0 <= page < page_count(self.data) {
                counted(self.writes, 1)
            } else {
                self.writes
            },
            ..self
        }
    }
}

impl View for HeapFile {
    type V = FileView;

    open spec fn view(&self) -> FileView {
        FileView {
            container_id: self.container_id,
            data: self.data@,
            reads: self.read_count,
            writes: self.write_count,
        }
    }
}

/// Where the bytes of a page start in a file.
pub fn page_offset(page_id: PageId) -> (res: usize)
    ensures
        res == PAGE_SIZE * page_id,
{
    PAGE_SIZE * (page_id as usize)
}

/// The file of a container: the bytes that it holds, and how often it was read and written.
#[derive(Debug)]
pub struct HeapFile {
    pub data: Vec<u8>,
    pub container_id: ContainerId,
    /// How many pages have been read; starts again at zero after `u16::MAX`.
    pub read_count: u16,
    /// How many pages have been written; starts again at zero after `u16::MAX`.
    pub write_count: u16,
}

impl HeapFile {
    /// The file of a container, with the bytes that it holds.
    pub fn new(data: Vec<u8>, container_id: ContainerId) -> (res: Self)
        ensures
            res.data == data,
            res.container_id == container_id,
            res.read_count == 0,
            res.write_count == 0,
    {
        HeapFile { data, container_id, read_count: 0, write_count: 0 }
    }

    /// How many pages the file has; see `page_total`.
    pub fn num_pages(&self) -> (res: PageId)
        ensures
            res == page_total(self.data@),
    {
        ((self.data.len() / PAGE_SIZE) % PAGE_ID_LIMIT) as PageId
    }

    /// Reads a page. It is an error if the page does not lie wholly within the file.
    pub fn read_page_from_file(&mut self, page_id: PageId) -> (res: Result<Page, CrustyError>)
        ensures
            final(self).data == old(self).data,
            final(self).container_id == old(self).container_id,
            final(self).read_count == old(self).read_count.wrapping_add(1),
            final(self).write_count == old(self).write_count,
            match res {
                Ok(page) => {
                    &&& page_id < page_count(old(self).data@)
                    &&& page.raw() == page_bytes(old(self).data@, page_id as int)
                    &&& page@ == page_at(old(self).data@, page_id as int)
                },
                Err(e) => page_id >= page_count(old(self).data@) && e == CrustyError::PageRead(
                    page_id,
                ),
            },
    {
        self.read_count = self.read_count.wrapping_add(1);
        let start: usize = page_offset(page_id);
        if start + PAGE_SIZE > self.data.len() {
            return Err(CrustyError::PageRead(page_id));
        }
        Ok(Page::from_bytes(page_array(self.data.as_slice(), start)))
    }

    /// Writes a page at the position that its id gives. The file grows where it has to.
    pub fn write_page_to_file(&mut self, page: &Page) -> (res: Result<(), CrustyError>)
        ensures
            res is Ok,
            final(self).data@ == write_page(old(self).data@, page.raw()),
            final(self).container_id == old(self).container_id,
            final(self).read_count == old(self).read_count,
            final(self).write_count == old(self).write_count.wrapping_add(1),
    {
        self.write_count = self.write_count.wrapping_add(1);
        let start: usize = page_offset(page.get_page_id());
        let bytes = page.to_bytes();
        let ghost before = self.data@;
        while self.data.len() < start + PAGE_SIZE
            invariant
                start == PAGE_SIZE * page@.id,
                before.len() <= self.data@.len(),
                before.len() < self.data@.len() ==> self.data@.len() <= start + PAGE_SIZE,
                forall|k: int| 0 <= k < before.len() ==> self.data@[k] == before[k],
                forall|k: int| before.len() <= k < self.data@.len() ==> self.data@[k] == 0,
                self.container_id == old(self).container_id,
                self.read_count == old(self).read_count,
                self.write_count == old(self).write_count.wrapping_add(1),
            decreases start + PAGE_SIZE - self.data@.len(),
        {
            self.data.push(0);
        }
        let ghost grown = self.data@;
        for i in 0..PAGE_SIZE
            invariant
                start == PAGE_SIZE * page@.id,
                self.data@.len() == grown.len(),
                start + PAGE_SIZE <= grown.len(),
                forall|k: int|
                    0 <= k < grown.len() ==> self.data@[k] == if start <= k < start + i {
                        bytes@[k - start]
                    } else {
                        grown[k]
                    },
                self.container_id == old(self).container_id,
                self.read_count == old(self).read_count,
                self.write_count == old(self).write_count.wrapping_add(1),
        {
            self.data.set(start + i, bytes[i]);
        }
        assert(self.data@ =~= write_page(before, page.raw()));
        Ok(())
    }

    /// How many bytes the file has.
    pub fn get_file_size(&self) -> (res: usize)
        ensures
            res == self.data@.len(),
    {
        self.data.len()
    }
}

/// What is written to a page is read back from it, and every other page of the file stays as it is.
pub proof fn lemma_write_page(data: Seq<u8>, bytes: Seq<u8>)
    requires
        bytes.len() == PAGE_SIZE,
    ensures
        ({
            let id = parse_page(bytes).id as int;
            let after = write_page(data, bytes);
            &&& page_bytes(after, id) == bytes
            &&& page_at(after, id) == parse_page(bytes)
            &&& forall|i: int|
                0 <= i < page_count(data) && i != id ==> #[trigger] page_bytes(after, i)
                    == page_bytes(data, i)
            &&& forall|i: int|
                0 <= i < page_count(data) && i != id ==> #[trigger] page_at(after, i) == page_at(
                    data,
                    i,
                )
            &&& page_count(after) == if id < page_count(data) {
                page_count(data)
            } else {
                id + 1
            }
        }),
{
    let id = parse_page(bytes).id as int;
    let after = write_page(data, bytes);
    assert(page_bytes(after, id) =~= bytes);
    assert forall|i: int| 0 <= i < page_count(data) && i != id implies #[trigger] page_bytes(
        after,
        i,
    ) == page_bytes(data, i) by {
        assert(page_bytes(after, i) =~= page_bytes(data, i));
    }
    assert forall|i: int| 0 <= i < page_count(data) && i != id implies #[trigger] page_at(after, i)
        == page_at(data, i) by {
        assert(page_bytes(after, i) == page_bytes(data, i));
    }
}

/// A file after the bytes of some pages are written to it, one after the other.
pub open spec fn write_pages(data: Seq<u8>, pages: Seq<Seq<u8>>) -> Seq<u8>
    decreases pages.len(),
{
    if pages.len() == 0 {
        data
    } else {
        write_page(write_pages(data, pages.drop_last()), pages.last())
    }
}

/// What is read from a page are the bytes that were last written to it, whatever was written to other
/// pages since.
pub proof fn lemma_last_written(data: Seq<u8>, bytes: Seq<u8>, later: Seq<Seq<u8>>)
    requires
        bytes.len() == PAGE_SIZE,
        forall|i: int|
            0 <= i < later.len() ==> (#[trigger] later[i]).len() == PAGE_SIZE && parse_page(
                later[i],
            ).id != parse_page(bytes).id,
    ensures
        ({
            let after = write_pages(write_page(data, bytes), later);
            let id = parse_page(bytes).id as int;
            id < page_count(after) && page_bytes(after, id) == bytes
        }),
    decreases later.len(),
{
    if later.len() == 0 {
        lemma_write_page(data, bytes);
    } else {
        let earlier = later.drop_last();
        assert(later.last() == later[later.len() - 1]);
        assert(forall|i: int| 0 <= i < earlier.len() ==> earlier[i] == later[i]);
        lemma_last_written(data, bytes, earlier);
        lemma_write_page(write_pages(write_page(data, bytes), earlier), later.last());
    }
}

/// Where a value of a given length is put: on the first page that has room for it, so that none
/// before it has, or on a new page if none has.
pub proof fn lemma_page_with_room(data: Seq<u8>, len: nat, from: int)
    requires
        0 <= from <= page_total(data),
    ensures
        from <= page_with_room(data, len, from) <= page_total(data),
        page_with_room(data, len, from) < page_total(data) ==> page_at(
            data,
            page_with_room(data, len, from),
        ).has_room(len),
        forall|i: int|
            from <= i < page_with_room(data, len, from) ==> !(#[trigger] page_at(
                data,
                i,
            )).has_room(len),
    decreases page_total(data) - from,
{
    if from < page_total(data) && !page_at(data, from).has_room(len) {
        lemma_page_with_room(data, len, from + 1);
    }
}

/// The page that a value is put on has room for it.
pub proof fn lemma_page_for(data: Seq<u8>, len: nat)
    requires
        len <= MAX_VALUE_SIZE,
    ensures
        page_for(data, len).fits(),
        page_for(data, len).has_room(len),
        0 <= page_with_room(data, len, 0) <= page_total(data),
{
    lemma_page_with_room(data, len, 0);
    let page = page_with_room(data, len, 0);
    if page < page_total(data) {
        lemma_parsed_page_fits(page_bytes(data, page));
    }
}

/// A value that was inserted into a well-formed file is read back from where it was put. Nothing lay
/// there before, and every other value stays where and as it was.
pub proof fn lemma_insert(data: Seq<u8>, container_id: ContainerId, value: Seq<u8>)
    requires
        well_formed(data),
        value.len() <= MAX_VALUE_SIZE,
    ensures
        ({
            let id = insert_id(container_id, data, value);
            let page = id.page_id->0 as int;
            let slot = id.slot_id->0 as int;
            let after = insert(data, value);
            &&& value_at(data, page, slot) is None
            &&& value_at(after, page, slot) == Some(value)
            &&& forall|p: int, s: int|
                !(p == page && s == slot) ==> #[trigger] value_at(after, p, s) == value_at(
                    data,
                    p,
                    s,
                )
        }),
{
    let len = value.len();
    lemma_page_for(data, len);
    let place = page_with_room(data, len, 0);
    let page = page_for(data, len);
    let grown = page.with_value(value);
    let slot = first_free(page.slots);
    lemma_first_free(page.slots);
    lemma_with_value(page, value);
    lemma_read_back(grown);
    lemma_write_page(data, grown.bytes());
    assert(page.id == place);
    assert(slot <= page.slots.len() <= PAGE_SIZE);
    let after = insert(data, value);
    assert forall|p: int, s: int| !(p == place && s == slot) implies #[trigger] value_at(
        after,
        p,
        s,
    ) == value_at(data, p, s) by {
        if p == place {
            assert(grown.value(s) == page.value(s));
        }
    }
}

/// Inserting a value into a well-formed file leaves a well-formed file, as long as the pages can
/// still be counted if a new one is needed.
pub proof fn lemma_insert_well_formed(data: Seq<u8>, value: Seq<u8>)
    requires
        well_formed(data),
        value.len() <= MAX_VALUE_SIZE,
        page_with_room(data, value.len(), 0) + 1 < PAGE_ID_LIMIT,
    ensures
        well_formed(insert(data, value)),
{
    let len = value.len();
    lemma_page_for(data, len);
    let page = page_for(data, len);
    let place = page_with_room(data, len, 0);
    let grown = page.with_value(value);
    lemma_with_value(page, value);
    lemma_read_back(grown);
    lemma_write_page(data, grown.bytes());
    let after = insert(data, value);
    assert forall|i: int| 0 <= i < page_count(after) implies (#[trigger] page_at(after, i)).id
        == i by {
        if i != place {
            assert(page_at(after, i) == page_at(data, i));
        }
    }
}

/// Deleting a value from a well-formed file leaves a well-formed file. Nothing lies in its slot any
/// more, and every other value stays where and as it was.
pub proof fn lemma_delete(data: Seq<u8>, page: int, slot: int)
    requires
        well_formed(data),
    ensures
        well_formed(delete(data, page, slot)),
        value_at(delete(data, page, slot), page, slot) is None,
        forall|p: int, s: int|
            !(p == page && s == slot) ==> #[trigger] value_at(delete(data, page, slot), p, s)
                == value_at(data, p, s),
        page_count(delete(data, page, slot)) == page_count(data),
{
    if 0 <= page < page_count(data) {
        let found = page_at(data, page);
        lemma_parsed_page_fits(page_bytes(data, page));
        lemma_without(found, slot);
        let shrunk = found.without(slot);
        let bytes = bytes_without(page_bytes(data, page), slot);
        lemma_read_back(shrunk);
        lemma_write_page(data, bytes);
        assert(parse_page(bytes) == shrunk);
        assert(found.id == page);
        let after = delete(data, page, slot);
        assert forall|i: int| 0 <= i < page_count(after) implies (#[trigger] page_at(after, i)).id
            == i by {
            if i != page {
                assert(page_at(after, i) == page_at(data, i));
            }
        }
        assert forall|p: int, s: int| !(p == page && s == slot) implies #[trigger] value_at(
            after,
            p,
            s,
        ) == value_at(data, p, s) by {
            if p == page {
                assert(shrunk.value(s) == found.value(s));
            }
        }
    }
}

/// Deleting what is not there leaves a well-formed file as it is.
pub proof fn lemma_delete_missing(data: Seq<u8>, page: int, slot: int)
    requires
        well_formed(data),
        value_at(data, page, slot) is None,
    ensures
        delete(data, page, slot) == data,
{
    if 0 <= page < page_count(data) {
        assert(page_at(data, page).id == page);
        assert(delete(data, page, slot) =~= data);
    }
}

/// The number of pages of a file: as many as fit into its bytes, counted as far as a page id goes.
pub proof fn lemma_page_count(data: Seq<u8>)
    ensures
        4096 * page_count(data) <= data.len() < 4096 * (page_count(data) + 1),
        0 <= page_total(data) < 65536,
        (page_count(data) - page_total(data)) % 65536 == 0,
        page_count(data) < 65536 ==> page_total(data) == page_count(data),
{
}

/// The bytes of a page of a file stand one after the other, where the number of the page says.
pub proof fn lemma_page_bytes_at(data: Seq<u8>, page: int)
    requires
        0 <= page < page_count(data),
    ensures
        page_bytes(data, page).len() == 4096,
        forall|k: int|
            0 <= k < 4096 ==> #[trigger] page_bytes(data, page)[k] == data[4096 * page + k],
        page_at(data, page) == parse_page(page_bytes(data, page)),
{
}

/// The value in a slot of a page of a file is that of the page, if the file has the page.
pub proof fn lemma_value_at(data: Seq<u8>, page: int, slot: int)
    ensures
        0 <= page < page_count(data) ==> value_at(data, page, slot) == page_at(data, page).value(
            slot,
        ),
        !(0 <= page < page_count(data)) ==> value_at(data, page, slot) is None,
{
}

/// Bytes that are written to a file stand where they were written; what stood elsewhere stays, and what
/// lies between the end of the file and them is zero.
pub proof fn lemma_overwrite(data: Seq<u8>, at: int, bytes: Seq<u8>)
    requires
        0 <= at,
    ensures
        overwrite(data, at, bytes).len() == if data.len() < at + bytes.len() {
            at + bytes.len()
        } else {
            data.len() as int
        },
        forall|k: int|
            0 <= k < bytes.len() ==> #[trigger] bytes[k] == overwrite(data, at, bytes)[at + k],
        forall|k: int|
            0 <= k < data.len() && !(at <= k < at + bytes.len()) ==> #[trigger] overwrite(
                data,
                at,
                bytes,
            )[k] == data[k],
        forall|k: int|
            data.len() <= k < at ==> #[trigger] overwrite(data, at, bytes)[k] == 0,
{
}

/// The pages of a page-by-page file stand where their ids say: that is all that makes it well-formed,
/// as long as they can be counted.
pub proof fn lemma_well_formed(data: Seq<u8>)
    ensures
        well_formed(data) <==> data.len() < 4096 * 65536 && forall|i: int|
            0 <= i && 4096 * (i + 1) <= data.len() ==> (#[trigger] page_at(data, i)).id == i,
{
    if well_formed(data) {
        assert forall|i: int| 0 <= i && 4096 * (i + 1) <= data.len() implies (
        #[trigger] page_at(data, i)).id == i by {
            assert(i < page_count(data));
        }
    }
}

/// Where a value goes: to the first page that has room for it, and there to the first slot that holds
/// nothing; or, if no page has room, to the first slot of a new page.
pub proof fn lemma_insert_place(container_id: ContainerId, data: Seq<u8>, value: Seq<u8>)
    requires
        value.len() <= MAX_VALUE_SIZE,
    ensures
        ({
            let id = insert_id(container_id, data, value);
            let page = id.page_id->0 as int;
            let slot = id.slot_id->0 as int;
            &&& id.container_id == container_id
            &&& id.page_id is Some
            &&& id.slot_id is Some
            &&& page <= page_total(data)
            &&& forall|p: int| 0 <= p < page ==> !(#[trigger] page_at(data, p)).has_room(value.len())
            &&& page < page_total(data) ==> {
                &&& page_at(data, page).has_room(value.len())
                &&& page_at(data, page).value(slot) is None
                &&& forall|s: int| 0 <= s < slot ==> (#[trigger] page_at(data, page).value(s)) is Some
            }
            &&& page == page_total(data) ==> slot == 0
        }),
{
    lemma_page_for(data, value.len());
    lemma_page_with_room(data, value.len(), 0);
    let page = page_for(data, value.len());
    lemma_first_free(page.slots);
    let slot = first_free(page.slots);
    assert(slot <= page.slots.len() <= PAGE_SIZE);
    let place = page_with_room(data, value.len(), 0);
    if place < page_total(data) {
        assert forall|s: int| 0 <= s < slot implies (#[trigger] page_at(data, place).value(
            s,
        )) is Some by {
            assert(page.slots[s] is Some);
        }
    }
}

/// What inserting a value counts: a read for each page that is looked at, up to the one that the value
/// goes to, and one write.
pub proof fn lemma_insert_counts(file: FileView, value: Seq<u8>)
    requires
        value.len() <= MAX_VALUE_SIZE,
    ensures
        ({
            let page = insert_id(0, file.data, value).page_id->0 as int;
            let looked_at = if page < page_total(file.data) {
                page + 1
            } else {
                page
            };
            let after = file.after_insert(value);
            &&& (after.reads - file.reads - looked_at) % 65536 == 0
            &&& (after.writes - file.writes - 1) % 65536 == 0
            &&& after.container_id == file.container_id
            &&& after.data == insert(file.data, value)
        }),
{
    lemma_page_for(file.data, value.len());
}

/// What deleting a value counts: a read, and a write if the page is there.
pub proof fn lemma_delete_counts(file: FileView, page: int, slot: int)
    ensures
        ({
            let after = file.after_delete(page, slot);
            &&& (after.reads - file.reads - 1) % 65536 == 0
            &&& 0 <= page < page_count(file.data) ==> (after.writes - file.writes - 1) % 65536 == 0
            &&& !(0 <= page < page_count(file.data)) ==> after.writes == file.writes
            &&& after.container_id == file.container_id
            &&& after.data == delete(file.data, page, slot)
        }),
{
}

/// What reads and writes count, and what they leave as it is.
pub proof fn lemma_counts(file: FileView, pages: int, bytes: Seq<u8>)
    requires
        pages >= 0,
    ensures
        (file.after_reads(pages).reads - file.reads - pages) % 65536 == 0,
        file.after_reads(pages).writes == file.writes,
        file.after_reads(pages).data == file.data,
        file.after_reads(pages).container_id == file.container_id,
        (file.after_write(bytes).writes - file.writes - 1) % 65536 == 0,
        file.after_write(bytes).reads == file.reads,
        file.after_write(bytes).data == write_page(file.data, bytes),
        file.after_write(bytes).container_id == file.container_id,
{
}

/// Inserting values one after the other is inserting all but the last, and then the last.
pub proof fn lemma_inserts_in_turn(file: FileView, values: Seq<Seq<u8>>, value: Seq<u8>)
    ensures
        file.after_inserts(Seq::empty()) == file,
        file.after_inserts(values.push(value)) == file.after_inserts(values).after_insert(value),
{
    assert(values.push(value).drop_last() =~= values);
}

/// What inserting a value does to any file, also to one whose pages carry foreign ids: the page that
/// has room, or a new one, is written back with the value in its first free slot, at the position that
/// the id of the page gives. Every other page stays as it is.
pub proof fn lemma_insert_into_any(data: Seq<u8>, value: Seq<u8>)
    requires
        value.len() <= MAX_VALUE_SIZE,
    ensures
        ({
            let id = insert_id(0, data, value);
            let place = id.page_id->0 as int;
            let slot = id.slot_id->0 as int;
            let found = if place < page_total(data) {
                page_at(data, place)
            } else {
                PageView { id: place as PageId, slots: Seq::empty() }
            };
            let after = insert(data, value);
            let written = page_at(after, found.id as int);
            &&& written.id == found.id
            &&& found.value(slot) is None
            &&& written.value(slot) == Some(value)
            &&& forall|s: int| s != slot ==> #[trigger] written.value(s) == found.value(s)
            &&& forall|i: int|
                0 <= i < page_count(data) && i != found.id ==> #[trigger] page_bytes(after, i)
                    == page_bytes(data, i)
            &&& page_count(after) == if found.id < page_count(data) {
                page_count(data)
            } else {
                found.id + 1
            }
        }),
{
    lemma_page_for(data, value.len());
    let found = page_for(data, value.len());
    lemma_first_free(found.slots);
    assert(first_free(found.slots) <= found.slots.len() <= PAGE_SIZE);
    lemma_with_value(found, value);
    lemma_read_back(found.with_value(value));
    lemma_write_page(data, found.with_value(value).bytes());
}

/// What deleting a value does to any file, also to one whose pages carry foreign ids: the page is
/// written back without the value, at the position that its id gives. Every other page stays as it is.
pub proof fn lemma_delete_from_any(data: Seq<u8>, page: int, slot: int)
    requires
        0 <= page < page_count(data),
    ensures
        ({
            let found = page_at(data, page);
            let after = delete(data, page, slot);
            let written = page_at(after, found.id as int);
            &&& written.id == found.id
            &&& written.value(slot) is None
            &&& forall|s: int| s != slot ==> #[trigger] written.value(s) == found.value(s)
            &&& forall|i: int|
                0 <= i < page_count(data) && i != found.id ==> #[trigger] page_bytes(after, i)
                    == page_bytes(data, i)
        }),
{
    let found = page_at(data, page);
    lemma_parsed_page_fits(page_bytes(data, page));
    lemma_without(found, slot);
    lemma_read_back(found.without(slot));
    lemma_write_page(data, bytes_without(page_bytes(data, page), slot));
}

} // verus!
