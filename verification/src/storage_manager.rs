//! The storage manager: containers of values, each in a heap file of its own.

use std::collections::HashMap;

use vstd::prelude::*;
use vstd::string::StringExecFns;

use crate::error::CrustyError;
use crate::heapfile::{
    counted, delete, insert_id, lemma_page_for, page_at, page_bytes, page_count, page_for, page_total,
    page_with_room, value_at, FileView, HeapFile,
};
use crate::heapfileiter::HeapFileIterator;
use crate::ids::{ContainerId, PageId, Permissions, StateType, TransactionId, ValueId};
use crate::page::{bytes_without, first_free, page_text, Page, MAX_VALUE_SIZE};
use crate::text::{append_decimal, decimal, join_path, path_within};

verus! {

broadcast use vstd::std_specs::hash::group_hash_axioms;

/// The directory for the files of a storage manager.
pub const STORAGE_DIR: &'static str = "heapstore";

/// What the name of a heap file ends with.
pub const HEAP_FILE_EXTENSION: &'static str = "hf";

/// The name of the file that the configuration of a storage manager is kept in.
pub const PERSIST_CONFIG_FILENAME: &'static str = "storage_manager";

/// The path of the heap file of a container in a directory.
pub open spec fn container_path(dir: Seq<char>, container_id: ContainerId) -> Seq<char> {
    join_path(dir, decimal(container_id as nat) + "."@ + HEAP_FILE_EXTENSION@)
}

/// A container whose heap file has been opened: where the file lies, and the bytes that it holds.
#[derive(Debug)]
pub struct OpenContainer {
    pub container_id: ContainerId,
    pub path: String,
    pub data: Vec<u8>,
}

/// Where the heap file of a container lies.
#[derive(Debug)]
pub struct ContainerPath {
    pub container_id: ContainerId,
    pub path: String,
}

/// What has to be kept of a storage manager to have it again later.
#[derive(Debug)]
pub struct StorageConfig {
    pub storage_dir: String,
    pub is_temp: bool,
    pub cid_path_map: Vec<ContainerPath>,
}

/// The files of some containers. Of two entries for one container the later one counts.
pub open spec fn opened_files(containers: Seq<OpenContainer>) -> Map<ContainerId, FileView>
    decreases containers.len(),
{
    if containers.len() == 0 {
        Map::empty()
    } else {
        opened_files(containers.drop_last()).insert(
            containers.last().container_id,
            FileView::opened(containers.last().container_id, containers.last().data@),
        )
    }
}

/// The paths of some containers. Of two entries for one container the later one counts.
pub open spec fn opened_paths(containers: Seq<OpenContainer>) -> Map<ContainerId, Seq<char>>
    decreases containers.len(),
{
    if containers.len() == 0 {
        Map::empty()
    } else {
        opened_paths(containers.drop_last()).insert(
            containers.last().container_id,
            containers.last().path@,
        )
    }
}

/// Where each of some containers has its file among the files of all of them. Of two entries for
/// one container the later one counts.
pub open spec fn opened_places(containers: Seq<OpenContainer>) -> Map<ContainerId, int>
    decreases containers.len(),
{
    if containers.len() == 0 {
        Map::empty()
    } else {
        opened_places(containers.drop_last()).insert(
            containers.last().container_id,
            containers.len() - 1,
        )
    }
}

/// Manages containers of values. The bytes of a heap file are handed in when its container is opened
/// or created; after that all reads and writes are served from here.
///
/// The heap file of a container that was removed is kept for the iterators that still go through
/// it, until `forget_removed_files` is called.
#[derive(Debug)]
pub struct StorageManager {
    /// The directory that the heap files lie in.
    pub storage_dir: String,
    /// Whether the directory is to be deleted in the end.
    is_temp: bool,
    /// Where the heap file of each container lies.
    cid_path_map: HashMap<ContainerId, String>,
    /// Which of the heap files is that of each container.
    cid_heapfile_map: HashMap<ContainerId, usize>,
    /// The heap files, those of removed containers among them; `None` for one that was forgotten.
    heap_files: Vec<Option<HeapFile>>,
}

/// Goes through the values of the heap file that a container had when the iterator was made.
#[derive(Debug)]
pub struct ValIterator {
    /// Which of the heap files it is.
    file: usize,
    iter: HeapFileIterator,
}

impl ValIterator {
    /// Which of the heap files it goes through.
    pub closed spec fn file(&self) -> int {
        self.file as int
    }

    /// How far it has got in the heap file.
    pub closed spec fn inner(&self) -> HeapFileIterator {
        self.iter
    }
}

/// What each of some heap files holds.
spec fn file_views(files: Seq<Option<HeapFile>>) -> Seq<Option<FileView>> {
    files.map_values(
        |file: Option<HeapFile>|
            match file {
                Some(file) => Some(file@),
                None => None,
            },
    )
}

impl StorageManager {
    /// The heap files, those of removed containers among them.
    pub closed spec fn store(&self) -> Seq<Option<FileView>> {
        file_views(self.heap_files@)
    }

    /// Which of the heap files is that of each container.
    pub closed spec fn places(&self) -> Map<ContainerId, int> {
        self.cid_heapfile_map@.map_values(|place: usize| place as int)
    }

    /// The heap file of each container.
    pub open spec fn files(&self) -> Map<ContainerId, FileView> {
        self.places().map_values(|place: int| self.store()[place]->0)
    }

    /// Where the heap file of each container lies.
    pub closed spec fn paths(&self) -> Map<ContainerId, Seq<char>> {
        self.cid_path_map@.map_values(|path: String| path@)
    }

    /// The directory that the heap files lie in.
    pub closed spec fn dir(&self) -> Seq<char> {
        self.storage_dir@
    }

    /// Whether the directory is to be deleted in the end.
    pub closed spec fn temporary(&self) -> bool {
        self.is_temp
    }

    /// Every container has a heap file, which is its own, and a path.
    pub open spec fn wf(&self) -> bool {
        &&& self.places().dom() == self.paths().dom()
        &&& forall|c: ContainerId| #[trigger]
            self.places().contains_key(c) ==> 0 <= self.places()[c] < self.store().len()
                && self.store()[self.places()[c]] is Some
                && self.store()[self.places()[c]]->0.container_id == c
    }

    /// Whether nothing but what the heap files hold differs from another storage manager.
    pub open spec fn same_but_store(&self, other: &StorageManager) -> bool {
        &&& self.dir() == other.dir()
        &&& self.temporary() == other.temporary()
        &&& self.paths() == other.paths()
        &&& self.places() == other.places()
    }

    /// Whether nothing but the heap file of a container differs from another storage manager, and
    /// that is the given one.
    pub open spec fn file_changed(
        &self,
        before: &StorageManager,
        container_id: ContainerId,
        file: FileView,
    ) -> bool {
        &&& self.same_but_store(before)
        &&& self.store() == before.store().update(before.places()[container_id], Some(file))
        &&& self.files() == before.files().insert(container_id, file)
    }

    /// Whether the heap file that an iterator goes through is there.
    pub open spec fn holds(&self, iter: &ValIterator) -> bool {
        &&& 0 <= iter.file() < self.store().len()
        &&& self.store()[iter.file()] is Some
        &&& self.store()[iter.file()]->0.container_id == iter.inner().container()
    }

    /// Every container has a heap file and a path, or neither.
    pub proof fn lemma_containers(&self)
        requires
            self.wf(),
        ensures
            self.files().dom() == self.paths().dom(),
    {
        assert(self.files().dom() =~= self.paths().dom());
    }

    /// Which of the heap files is that of a container.
    fn place_of(&self, container_id: ContainerId) -> (res: usize)
        requires
            self.places().contains_key(container_id),
        ensures
            res == self.places()[container_id],
    {
        assert(self.cid_heapfile_map@.contains_key(container_id));
        *self.cid_heapfile_map.get(&container_id).unwrap()
    }

    /// The heap file of a container.
    fn container(&self, container_id: ContainerId) -> (res: &HeapFile)
        requires
            self.wf(),
            self.files().contains_key(container_id),
        ensures
            res@ == self.files()[container_id],
            res.container_id == container_id,
    {
        let place: usize = self.place_of(container_id);
        assert(self.store()[place as int] is Some);
        self.heap_files[place].as_ref().unwrap()
    }

    /// Takes a heap file out of those that are kept.
    fn take_file(&mut self, place: usize) -> (res: HeapFile)
        requires
            place < old(self).store().len(),
            old(self).store()[place as int] is Some,
        ensures
            Some(res@) == old(self).store()[place as int],
            final(self).same_but_store(old(self)),
            final(self).store() == old(self).store().update(place as int, None),
    {
        let mut taken: Option<HeapFile> = None;
        std::mem::swap(&mut taken, &mut self.heap_files[place]);
        assert(self.store() =~= old(self).store().update(place as int, None));
        taken.unwrap()
    }

    /// Puts a heap file back.
    fn put_file(&mut self, place: usize, file: HeapFile)
        requires
            place < old(self).store().len(),
        ensures
            final(self).same_but_store(old(self)),
            final(self).store() == old(self).store().update(place as int, Some(file@)),
    {
        self.heap_files.set(place, Some(file));
        assert(self.store() =~= old(self).store().update(place as int, Some(file@)));
    }

    /// Puts the heap file of a container back that was taken out of the storage manager `before`.
    fn put_container_file(
        &mut self,
        container_id: ContainerId,
        place: usize,
        file: HeapFile,
        Ghost(before): Ghost<Self>,
    )
        requires
            before.wf(),
            before.places().contains_key(container_id),
            place == before.places()[container_id],
            file.container_id == container_id,
            old(self).same_but_store(&before),
            old(self).store() == before.store().update(place as int, None),
        ensures
            final(self).wf(),
            final(self).file_changed(&before, container_id, file@),
    {
        self.put_file(place, file);
        proof {
            assert(self.store() =~= before.store().update(place as int, Some(file@)));
            self.lemma_file_changed(&before, container_id, file@);
        }
    }

    /// Changing the heap file of a container changes no other.
    proof fn lemma_file_changed(&self, before: &Self, container_id: ContainerId, file: FileView)
        requires
            before.wf(),
            before.places().contains_key(container_id),
            file.container_id == container_id,
            self.same_but_store(before),
            self.store() == before.store().update(before.places()[container_id], Some(file)),
        ensures
            self.wf(),
            self.file_changed(before, container_id, file),
    {
        assert forall|c: ContainerId| self.places().contains_key(c) && c
            != container_id implies self.places()[c] != self.places()[container_id] by {
            assert(before.store()[before.places()[c]]->0.container_id == c);
        }
        assert(self.files() =~= before.files().insert(container_id, file));
    }

    /// Reads a page of a container; `None` if it cannot be read.
    pub fn get_page(
        &mut self,
        container_id: ContainerId,
        page_id: PageId,
        _tid: TransactionId,
        _perm: Permissions,
        _pin: bool,
    ) -> (res: Option<Page>)
        requires
            old(self).wf(),
        ensures
            final(self).wf(),
            if old(self).files().contains_key(container_id) {
                final(self).file_changed(
                    old(self),
                    container_id,
                    old(self).files()[container_id].after_reads(1),
                )
            } else {
                *final(self) == *old(self)
            },
            res is Some <==> old(self).files().contains_key(container_id) && page_id < page_count(
                old(self).files()[container_id].data,
            ),
            res matches Some(page) ==> page.raw() == page_bytes(
                old(self).files()[container_id].data,
                page_id as int,
            ),
    {
        if !self.cid_heapfile_map.contains_key(&container_id) {
            return None;
        }
        let ghost before = *self;
        let place: usize = self.place_of(container_id);
        let mut container = self.take_file(place);
        let page = match container.read_page_from_file(page_id) {
            Ok(page) => Some(page),
            Err(_) => None,
        };
        self.put_container_file(container_id, place, container, Ghost(before));
        page
    }

    /// Writes a page to the heap file of a container.
    pub fn write_page(
        &mut self,
        container_id: ContainerId,
        page: &Page,
        _tid: TransactionId,
    ) -> (res: Result<(), CrustyError>)
        requires
            old(self).wf(),
            old(self).files().contains_key(container_id),
        ensures
            final(self).wf(),
            final(self).file_changed(
                old(self),
                container_id,
                old(self).files()[container_id].after_write(page.raw()),
            ),
            res is Ok,
    {
        let ghost before = *self;
        let place: usize = self.place_of(container_id);
        let mut container = self.take_file(place);
        let res = container.write_page_to_file(page);
        self.put_container_file(container_id, place, container, Ghost(before));
        res
    }

    /// How many pages a container has; see `page_total`.
    pub fn get_num_pages(&self, container_id: ContainerId) -> (res: PageId)
        requires
            self.wf(),
            self.files().contains_key(container_id),
        ensures
            res == page_total(self.files()[container_id].data),
    {
        self.container(container_id).num_pages()
    }

    /// How many pages of a container have been read and written; zeros if there is no such
    /// container.
    pub fn get_hf_read_write_count(&self, container_id: ContainerId) -> (res: (u16, u16))
        requires
            self.wf(),
        ensures
            res == if self.files().contains_key(container_id) {
                (self.files()[container_id].reads, self.files()[container_id].writes)
            } else {
                (0u16, 0u16)
            },
    {
        if self.cid_heapfile_map.contains_key(&container_id) {
            let container = self.container(container_id);
            (container.read_count, container.write_count)
        } else {
            (0, 0)
        }
    }

    /// A text that shows a page of a container to a reader; empty if the page cannot be read.
    pub fn get_page_debug(&mut self, container_id: ContainerId, page_id: PageId) -> (res: String)
        requires
            old(self).wf(),
        ensures
            final(self).wf(),
            if old(self).files().contains_key(container_id) {
                final(self).file_changed(
                    old(self),
                    container_id,
                    old(self).files()[container_id].after_reads(1),
                )
            } else {
                *final(self) == *old(self)
            },
            res@ == if old(self).files().contains_key(container_id) && page_id < page_count(
                old(self).files()[container_id].data,
            ) {
                page_text(page_at(old(self).files()[container_id].data, page_id as int))
            } else {
                Seq::empty()
            },
    {
        match self.get_page(
            container_id,
            page_id,
            TransactionId { id: 0 },
            Permissions::ReadOnly,
            false,
        ) {
            Some(page) => page.debug_text(),
            None => String::new(),
        }
    }

    /// The path of the heap file of a container.
    pub fn container_file_path(&self, container_id: ContainerId) -> (res: String)
        ensures
            res@ == container_path(self.dir(), container_id),
    {
        let mut name = String::new();
        append_decimal(&mut name, container_id as usize);
        assert(name@ =~= decimal(container_id as nat));
        name.append(".");
        name.append(HEAP_FILE_EXTENSION);
        path_within(&self.storage_dir, name.as_str())
    }

    /// A storage manager for a directory, with the containers that were there before.
    pub fn new(storage_dir: &str, containers: Vec<OpenContainer>) -> (res: Self)
        ensures
            res.wf(),
            res.dir() == storage_dir@,
            !res.temporary(),
            res.store() == Seq::new(
                containers@.len(),
                |i: int|
                    Some(FileView::opened(containers@[i].container_id, containers@[i].data@)),
            ),
            res.places() == opened_places(containers@),
            res.files() == opened_files(containers@),
            res.paths() == opened_paths(containers@),
    {
        let mut res = StorageManager {
            storage_dir: storage_dir.to_owned(),
            is_temp: false,
            cid_path_map: HashMap::new(),
            cid_heapfile_map: HashMap::new(),
            heap_files: Vec::new(),
        };
        let ghost all = containers@;
        let ghost opened = Seq::new(
            all.len(),
            |i: int| Some(FileView::opened(all[i].container_id, all[i].data@)),
        );
        assert(all.take(0) =~= Seq::empty());
        assert(res.store() =~= opened.take(0));
        assert(res.places() =~= opened_places(all.take(0)));
        assert(res.files() =~= opened_files(all.take(0)));
        assert(res.paths() =~= opened_paths(all.take(0)));
        assert(res.places().dom() =~= res.paths().dom());
        for container in it: containers
            invariant
                it.seq() == all,
                opened == Seq::new(
                    all.len(),
                    |i: int| Some(FileView::opened(all[i].container_id, all[i].data@)),
                ),
                res.wf(),
                res.dir() == storage_dir@,
                !res.temporary(),
                res.store() == opened.take(it.index()),
                res.places() == opened_places(all.take(it.index())),
                res.files() == opened_files(all.take(it.index())),
                res.paths() == opened_paths(all.take(it.index())),
        {
            let ghost before = res;
            let ghost entry = container;
            let ghost i = it.index();
            let ghost file = FileView::opened(entry.container_id, entry.data@);
            assert(entry == all[i]);
            assert(all.take(i + 1).drop_last() =~= all.take(i));
            let OpenContainer { container_id, path, data } = container;
            let place: usize = res.heap_files.len();
            res.cid_path_map.insert(container_id, path);
            res.cid_heapfile_map.insert(container_id, place);
            res.heap_files.push(Some(HeapFile::new(data, container_id)));
            assert(before.store().len() == place);
            assert(opened.take(i).len() == i);
            assert(res.store() =~= before.store().push(Some(file)));
            assert(opened.take(i + 1) =~= opened.take(i).push(Some(file)));
            assert(res.places() =~= before.places().insert(container_id, place as int));
            assert(res.files() =~= before.files().insert(container_id, file));
            assert(res.paths() =~= before.paths().insert(container_id, entry.path@));
            assert(res.places().dom() =~= res.paths().dom());
        }
        assert(all.take(all.len() as int) =~= all);
        assert(opened.take(all.len() as int) =~= opened);
        res
    }

    /// A storage manager without containers, whose directory is to be deleted in the end.
    pub fn new_test_sm(storage_dir: &str) -> (res: Self)
        ensures
            res.wf(),
            res.dir() == storage_dir@,
            res.temporary(),
            res.store() == Seq::<Option<FileView>>::empty(),
            res.files() == Map::<ContainerId, FileView>::empty(),
            res.paths() == Map::<ContainerId, Seq<char>>::empty(),
    {
        let res = StorageManager {
            storage_dir: storage_dir.to_owned(),
            is_temp: true,
            cid_path_map: HashMap::new(),
            cid_heapfile_map: HashMap::new(),
            heap_files: Vec::new(),
        };
        assert(res.store() =~= Seq::empty());
        assert(res.places() =~= Map::empty());
        assert(res.files() =~= Map::empty());
        assert(res.paths() =~= Map::empty());
        res
    }

    /// Whether the directory is to be deleted in the end.
    pub fn is_temporary(&self) -> (res: bool)
        ensures
            res == self.temporary(),
    {
        self.is_temp
    }

    /// Whether there is such a container.
    pub fn has_container(&self, container_id: ContainerId) -> (res: bool)
        ensures
            res == self.files().contains_key(container_id),
    {
        self.cid_heapfile_map.contains_key(&container_id)
    }

    /// Puts a value on a page of a heap file: on the first one that has room for it, or on a new
    /// one. Returns where the page stands in the file, the slot, and the page as it was written.
    fn place_value(container: &mut HeapFile, value: &Vec<u8>) -> (res: (PageId, u16, Page))
        requires
            value@.len() <= MAX_VALUE_SIZE,
        ensures
            final(container)@ == old(container)@.after_insert(value@),
            final(container).container_id == old(container).container_id,
            res.0 == page_with_room(old(container).data@, value@.len(), 0),
            res.1 == first_free(page_for(old(container).data@, value@.len()).slots),
            res.2.raw() == page_for(old(container).data@, value@.len()).with_value(
                value@,
            ).bytes(),
    {
        let ghost data = container.data@;
        let ghost len = value@.len();
        proof {
            lemma_page_for(data, len);
        }
        let num_pages: PageId = container.num_pages();
        for page_id in 0..num_pages
            invariant
                num_pages == page_total(data),
                len == value@.len(),
                container.data == old(container).data,
                container.data@ == data,
                container.container_id == old(container).container_id,
                container.write_count == old(container).write_count,
                container.read_count == counted(old(container).read_count, page_id as int),
                page_with_room(data, len, 0) == page_with_room(data, len, page_id as int),
        {
            let read = container.read_page_from_file(page_id);
            assert(read is Ok);
            if let Ok(mut page) = read {
                let ghost found = page@;
                if let Some(slot_id) = page.add_value(value.as_slice()) {
                    assert(page_with_room(data, len, page_id as int) == page_id);
                    assert(page_for(data, len) == found);
                    let _ = container.write_page_to_file(&page);
                    assert(container@ =~= old(container)@.after_insert(value@));
                    return (page_id, slot_id, page);
                }
                assert(page_with_room(data, len, page_id as int) == page_with_room(
                    data,
                    len,
                    page_id + 1,
                ));
            }
        }
        let mut new_page = Page::new(num_pages);
        let added = new_page.add_value(value.as_slice());
        assert(added is Some);
        let slot_id: u16 = added.unwrap();
        let _ = container.write_page_to_file(&new_page);
        assert(container@ =~= old(container)@.after_insert(value@));
        (num_pages, slot_id, new_page)
    }

    /// Inserts a value into a container, and returns where it lies and the page that was written
    /// for it.
    pub fn insert_value_page(
        &mut self,
        container_id: ContainerId,
        value: Vec<u8>,
        _tid: TransactionId,
    ) -> (res: (ValueId, Page))
        requires
            old(self).wf(),
            old(self).files().contains_key(container_id),
            value@.len() <= MAX_VALUE_SIZE,
        ensures
            final(self).wf(),
            final(self).file_changed(
                old(self),
                container_id,
                old(self).files()[container_id].after_insert(value@),
            ),
            res.0 == insert_id(container_id, old(self).files()[container_id].data, value@),
            res.1.raw() == page_for(old(self).files()[container_id].data, value@.len()).with_value(
                value@,
            ).bytes(),
    {
        let ghost before = *self;
        let place: usize = self.place_of(container_id);
        let mut container = self.take_file(place);
        let (page_id, slot_id, page) = Self::place_value(&mut container, &value);
        self.put_container_file(container_id, place, container, Ghost(before));
        (ValueId::new_slot(container_id, page_id, slot_id), page)
    }

    /// Inserts a value into a container, and returns where it lies: on the first page that has
    /// room for it, or on a new one.
    pub fn insert_value(
        &mut self,
        container_id: ContainerId,
        value: Vec<u8>,
        tid: TransactionId,
    ) -> (res: ValueId)
        requires
            old(self).wf(),
            old(self).files().contains_key(container_id),
            value@.len() <= MAX_VALUE_SIZE,
        ensures
            final(self).wf(),
            final(self).file_changed(
                old(self),
                container_id,
                old(self).files()[container_id].after_insert(value@),
            ),
            res == insert_id(container_id, old(self).files()[container_id].data, value@),
    {
        self.insert_value_page(container_id, value, tid).0
    }

    /// Inserts values into a container, one after the other, and returns where they lie.
    pub fn insert_values(
        &mut self,
        container_id: ContainerId,
        values: Vec<Vec<u8>>,
        tid: TransactionId,
    ) -> (res: Vec<ValueId>)
        requires
            old(self).wf(),
            old(self).files().contains_key(container_id),
            forall|i: int|
                0 <= i < values@.len() ==> (#[trigger] values@[i])@.len() <= MAX_VALUE_SIZE,
        ensures
            final(self).wf(),
            final(self).file_changed(
                old(self),
                container_id,
                old(self).files()[container_id].after_inserts(value_views(values@)),
            ),
            res@ == insert_ids(
                container_id,
                old(self).files()[container_id],
                value_views(values@),
            ),
    {
        let ghost views = value_views(values@);
        let ghost all = values@;
        let ghost start = self.files()[container_id];
        let ghost before = *self;
        let mut ids: Vec<ValueId> = Vec::new();
        assert(views.take(0) =~= Seq::empty());
        assert(self.files() =~= before.files().insert(container_id, start));
        assert(self.store() =~= before.store().update(
            before.places()[container_id],
            Some(start),
        ));
        for value in it: values
            invariant
                it.seq() == all,
                views == value_views(all),
                self.wf(),
                self.file_changed(
                    &before,
                    container_id,
                    start.after_inserts(views.take(it.index())),
                ),
                before.wf(),
                before.files().contains_key(container_id),
                start == before.files()[container_id],
                ids@ == insert_ids(container_id, start, views).take(it.index()),
                forall|i: int| 0 <= i < all.len() ==> (#[trigger] all[i])@.len() <= MAX_VALUE_SIZE,
        {
            let ghost i = it.index();
            let ghost done = views.take(i);
            assert(views.take(i + 1).drop_last() =~= done);
            assert(views[i] == all[i]@);
            assert(value == all[i]);
            let id = self.insert_value(container_id, value, tid);
            ids.push(id);
            let ghost file = start.after_inserts(views.take(i + 1));
            assert(self.files() =~= before.files().insert(container_id, file));
            assert(self.store() =~= before.store().update(
                before.places()[container_id],
                Some(file),
            ));
            assert(insert_ids(container_id, start, views).take(i + 1) =~= insert_ids(
                container_id,
                start,
                views,
            ).take(i).push(id));
        }
        assert(views.take(views.len() as int) =~= views);
        assert(ids@ =~= insert_ids(container_id, start, views));
        ids
    }

    /// Deletes a value, and returns the page that was written for it. If there is no such value,
    /// none is deleted.
    pub fn delete_value_page(&mut self, id: ValueId, _tid: TransactionId) -> (res: Option<Page>)
        requires
            old(self).wf(),
            old(self).files().contains_key(id.container_id),
            id.page_id is Some,
            id.slot_id is Some,
        ensures
            final(self).wf(),
            final(self).file_changed(
                old(self),
                id.container_id,
                old(self).files()[id.container_id].after_delete(
                    id.page_id->0 as int,
                    id.slot_id->0 as int,
                ),
            ),
            match res {
                Some(page) => {
                    &&& id.page_id->0 < page_count(old(self).files()[id.container_id].data)
                    &&& page.raw() == bytes_without(
                        page_bytes(
                            old(self).files()[id.container_id].data,
                            id.page_id->0 as int,
                        ),
                        id.slot_id->0 as int,
                    )
                },
                None => id.page_id->0 >= page_count(old(self).files()[id.container_id].data),
            },
    {
        let page_id: PageId = id.page_id.unwrap();
        let slot_id: u16 = id.slot_id.unwrap();
        let ghost before = *self;
        let place: usize = self.place_of(id.container_id);
        let mut container = self.take_file(place);
        let ghost file = container@;
        let res = match container.read_page_from_file(page_id) {
            Ok(mut page) => {
                let _ = page.delete_value(slot_id);
                let _ = container.write_page_to_file(&page);
                Some(page)
            },
            Err(_) => None,
        };
        assert(container@ =~= file.after_delete(page_id as int, slot_id as int));
        self.put_container_file(id.container_id, place, container, Ghost(before));
        res
    }

    /// Deletes a value. If there is no such value, none is deleted, and that is no error.
    pub fn delete_value(&mut self, id: ValueId, tid: TransactionId) -> (res: Result<
        (),
        CrustyError,
    >)
        requires
            old(self).wf(),
            old(self).files().contains_key(id.container_id),
            id.page_id is Some,
            id.slot_id is Some,
        ensures
            final(self).wf(),
            final(self).file_changed(
                old(self),
                id.container_id,
                old(self).files()[id.container_id].after_delete(
                    id.page_id->0 as int,
                    id.slot_id->0 as int,
                ),
            ),
            res is Ok,
    {
        let _ = self.delete_value_page(id, tid);
        Ok(())
    }

    /// Deletes a value and inserts another one in its place, which may come to lie elsewhere.
    pub fn update_value(&mut self, value: Vec<u8>, id: ValueId, tid: TransactionId) -> (res: Result<
        ValueId,
        CrustyError,
    >)
        requires
            old(self).wf(),
            old(self).files().contains_key(id.container_id),
            id.page_id is Some,
            id.slot_id is Some,
            value@.len() <= MAX_VALUE_SIZE,
        ensures
            final(self).wf(),
            final(self).file_changed(
                old(self),
                id.container_id,
                old(self).files()[id.container_id].after_delete(
                    id.page_id->0 as int,
                    id.slot_id->0 as int,
                ).after_insert(value@),
            ),
            res == Ok::<ValueId, CrustyError>(
                insert_id(
                    id.container_id,
                    delete(
                        old(self).files()[id.container_id].data,
                        id.page_id->0 as int,
                        id.slot_id->0 as int,
                    ),
                    value@,
                ),
            ),
    {
        let ghost before = *self;
        self.delete_value(id, tid)?;
        let new_value_id = self.insert_value(id.container_id, value, tid);
        let ghost file = self.files()[id.container_id];
        assert(self.files() =~= before.files().insert(id.container_id, file));
        assert(self.store() =~= before.store().update(
            before.places()[id.container_id],
            Some(file),
        ));
        Ok(new_value_id)
    }

    /// Whether a container has its heap file at the path that `container_file_path` gives.
    pub open spec fn at_own_path(&self, container_id: ContainerId) -> bool {
        self.paths().contains_key(container_id) && self.paths()[container_id] == container_path(
            self.dir(),
            container_id,
        )
    }

    /// Whether this is another storage manager after a container was created: its heap file takes
    /// the place of the one that the container had at the same path, or comes after all others.
    pub open spec fn created(
        &self,
        before: &StorageManager,
        container_id: ContainerId,
        data: Seq<u8>,
    ) -> bool {
        let file = FileView::opened(container_id, data);
        &&& self.dir() == before.dir()
        &&& self.temporary() == before.temporary()
        &&& self.paths() == before.paths().insert(
            container_id,
            container_path(before.dir(), container_id),
        )
        &&& self.files() == before.files().insert(container_id, file)
        &&& if before.at_own_path(container_id) {
            &&& self.places() == before.places()
            &&& self.store() == before.store().update(before.places()[container_id], Some(file))
        } else {
            &&& self.places() == before.places().insert(container_id, before.store().len() as int)
            &&& self.store() == before.store().push(Some(file))
        }
    }

    /// Creates a container. `data` is what its heap file holds, at the path that
    /// `container_file_path` gives. A container with the same id is replaced. An iterator over it
    /// goes on with its heap file, which is the same one if it lay at that path.
    pub fn create_container(
        &mut self,
        container_id: ContainerId,
        _name: Option<String>,
        _container_type: StateType,
        _dependencies: Option<Vec<ContainerId>>,
        data: Vec<u8>,
    ) -> (res: Result<(), CrustyError>)
        requires
            old(self).wf(),
        ensures
            final(self).wf(),
            final(self).created(old(self), container_id, data@),
            res is Ok,
    {
        let ghost before = *self;
        let file_path = self.container_file_path(container_id);
        let ghost path = file_path@;
        let ghost file = FileView::opened(container_id, data@);
        let heap_file = HeapFile::new(data, container_id);
        let same_path = match self.cid_path_map.get(&container_id) {
            Some(old_path) => *old_path == file_path,
            None => false,
        };
        assert(same_path == before.at_own_path(container_id));
        self.cid_path_map.insert(container_id, file_path);
        assert(self.paths() =~= before.paths().insert(container_id, path));
        if same_path {
            assert(before.places().contains_key(container_id));
            let place: usize = self.place_of(container_id);
            self.heap_files.set(place, Some(heap_file));
            assert(self.store() =~= before.store().update(place as int, Some(file)));
            assert(self.paths() =~= before.paths());
            proof {
                self.lemma_file_changed(&before, container_id, file);
            }
        } else {
            let place: usize = self.heap_files.len();
            self.cid_heapfile_map.insert(container_id, place);
            self.heap_files.push(Some(heap_file));
            assert(self.store() =~= before.store().push(Some(file)));
            assert(self.places() =~= before.places().insert(container_id, place as int));
            assert(self.files() =~= before.files().insert(container_id, file));
            assert(self.places().dom() =~= self.paths().dom());
        }
        Ok(())
    }

    /// Creates a container for a base table.
    pub fn create_table(&mut self, container_id: ContainerId, data: Vec<u8>) -> (res: Result<
        (),
        CrustyError,
    >)
        requires
            old(self).wf(),
        ensures
            final(self).wf(),
            final(self).created(old(self), container_id, data@),
            res is Ok,
    {
        self.create_container(container_id, None, StateType::BaseTable, None, data)
    }

    /// Removes a container, if there is such a container, and returns the path of the heap file
    /// that is to be deleted. What the file holds is kept for the iterators that go through it.
    pub fn remove_container(&mut self, container_id: ContainerId) -> (res: Result<
        String,
        CrustyError,
    >)
        requires
            old(self).wf(),
        ensures
            final(self).wf(),
            final(self).dir() == old(self).dir(),
            final(self).temporary() == old(self).temporary(),
            final(self).store() == old(self).store(),
            final(self).places() == old(self).places().remove(container_id),
            final(self).files() == old(self).files().remove(container_id),
            final(self).paths() == old(self).paths().remove(container_id),
            res matches Ok(path) && path@ == container_path(old(self).dir(), container_id),
    {
        let ghost before = *self;
        self.cid_heapfile_map.remove(&container_id);
        self.cid_path_map.remove(&container_id);
        assert(self.places() =~= before.places().remove(container_id));
        assert(self.files() =~= before.files().remove(container_id));
        assert(self.paths() =~= before.paths().remove(container_id));
        assert(self.places().dom() =~= self.paths().dom());
        Ok(self.container_file_path(container_id))
    }

    /// Whether a heap file is that of a container.
    pub open spec fn in_use(&self, place: int) -> bool {
        &&& self.store()[place] is Some
        &&& self.places().contains_key(self.store()[place]->0.container_id)
        &&& self.places()[self.store()[place]->0.container_id] == place
    }

    /// Forgets what the heap files of removed containers hold. An iterator that goes through one of
    /// them cannot go on.
    pub fn forget_removed_files(&mut self)
        requires
            old(self).wf(),
        ensures
            final(self).wf(),
            final(self).same_but_store(old(self)),
            final(self).files() == old(self).files(),
            final(self).store() == Seq::new(
                old(self).store().len(),
                |i: int|
                    if old(self).in_use(i) {
                        old(self).store()[i]
                    } else {
                        None
                    },
            ),
    {
        let ghost before = *self;
        let count: usize = self.heap_files.len();
        for i in 0..count
            invariant
                count == before.heap_files@.len(),
                before == *old(self),
                self.same_but_store(&before),
                self.store().len() == before.store().len(),
                self.heap_files@.len() == before.heap_files@.len(),
                forall|k: int| i <= k < self.store().len() ==> self.store()[k] == before.store()[k],
                forall|k: int|
                    0 <= k < i ==> self.store()[k] == if before.in_use(k) {
                        before.store()[k]
                    } else {
                        None
                    },
        {
            let ghost earlier = self.store();
            assert(self.store()[i as int] == before.store()[i as int]);
            let keep = match &self.heap_files[i] {
                Some(file) => match self.cid_heapfile_map.get(&file.container_id) {
                    Some(place) => *place == i,
                    None => false,
                },
                None => false,
            };
            assert(keep == before.in_use(i as int));
            if !keep {
                self.heap_files.set(i, None);
                assert(self.store() =~= earlier.update(i as int, None));
            }
        }
        assert(self.store() =~= Seq::new(
            before.store().len(),
            |i: int|
                if before.in_use(i) {
                    before.store()[i]
                } else {
                    None
                },
        ));
        assert forall|c: ContainerId| before.places().contains_key(c) implies self.store()[(
        #[trigger] before.places()[c])] == before.store()[before.places()[c]] by {
            assert(before.in_use(before.places()[c]));
        }
        assert(self.files() =~= before.files());
    }

    /// An iterator over all values of a container; see `next_value`.
    pub fn get_iterator(
        &self,
        container_id: ContainerId,
        tid: TransactionId,
        _perm: Permissions,
    ) -> (res: ValIterator)
        requires
            self.wf(),
            self.files().contains_key(container_id),
        ensures
            self.holds(&res),
            res.file() == self.places()[container_id],
            res.inner().wf(),
            res.inner().container() == container_id,
            res.inner().transaction() == tid,
            res.inner().page() == Some(0u16),
            res.inner().end() == page_total(self.files()[container_id].data),
            res.inner().resume() is None,
            res.inner().page_rest() is None,
    {
        let container = self.container(container_id);
        let file: usize = self.place_of(container_id);
        ValIterator { file, iter: HeapFileIterator::new(tid, container) }
    }

    /// An iterator over the values of a container from the given one on; see `next_value`.
    pub fn get_iterator_from(
        &self,
        container_id: ContainerId,
        tid: TransactionId,
        _perm: Permissions,
        start: ValueId,
    ) -> (res: ValIterator)
        requires
            self.wf(),
            self.files().contains_key(container_id),
        ensures
            self.holds(&res),
            res.file() == self.places()[container_id],
            res.inner().wf(),
            res.inner().container() == container_id,
            res.inner().transaction() == tid,
            res.inner().page() == start.page_id,
            res.inner().end() == page_total(self.files()[container_id].data),
            res.inner().resume() == start.slot_id,
            res.inner().page_rest() is None,
    {
        let container = self.container(container_id);
        let file: usize = self.place_of(container_id);
        ValIterator { file, iter: HeapFileIterator::new_from(tid, container, start) }
    }

    /// Whether the heap file that an iterator goes through is there.
    pub fn has_file_of(&self, iter: &ValIterator) -> (res: bool)
        ensures
            res == self.holds(iter),
    {
        if iter.file < self.heap_files.len() {
            match &self.heap_files[iter.file] {
                Some(file) => file.container_id == iter.iter.container_id(),
                None => false,
            }
        } else {
            false
        }
    }

    /// Advances an iterator; see `HeapFileIterator::next`. It goes through the heap file that its
    /// container had when it was made, whatever has become of the container.
    pub fn next_value(&mut self, iter: &mut ValIterator) -> (res: Option<(Vec<u8>, ValueId)>)
        requires
            old(self).wf(),
            old(iter).inner().wf(),
            old(self).holds(old(iter)),
        ensures
            final(self).wf(),
            final(self).same_but_store(old(self)),
            final(self).holds(final(iter)),
            final(iter).file() == old(iter).file(),
            final(iter).inner().wf(),
            final(iter).inner().container() == old(iter).inner().container(),
            final(iter).inner().transaction() == old(iter).inner().transaction(),
            final(iter).inner().end() == old(iter).inner().end(),
            ({
                let file = old(self).store()[old(iter).file()]->0;
                let start = old(iter).inner();
                let end = final(iter).inner();
                let reads = end.pages_done() - start.pages_done();
                match res {
                    Some((value, id)) => {
                        &&& start.remaining(file.data).len() > 0
                        &&& start.remaining(file.data)[0] == (value@, id)
                        &&& end.page() == id.page_id
                        &&& end.page_rest() is Some
                        &&& end.remaining(file.data) == start.remaining(file.data).drop_first()
                        &&& final(self).store() == old(self).store().update(
                            old(iter).file(),
                            Some(file.after_reads(reads)),
                        )
                    },
                    None => {
                        &&& start.remaining(file.data).len() == 0
                        &&& end.remaining(file.data).len() == 0
                        &&& end.page_rest() is None
                        &&& end.page() == match start.page() {
                            Some(_) => Some(start.page_after_end(file.data)),
                            None => None,
                        }
                        &&& final(self).store() == old(self).store().update(
                            old(iter).file(),
                            Some(
                                file.after_reads(
                                    if end.pages_left() {
                                        reads + 1
                                    } else {
                                        reads
                                    },
                                ),
                            ),
                        )
                    },
                }
            }),
    {
        let ghost before = *self;
        let place: usize = iter.file;
        let mut container = self.take_file(place);
        let ghost file = container@;
        let res = iter.iter.next(&mut container);
        let ghost after = container@;
        self.put_file(place, container);
        assert(self.store() =~= before.store().update(place as int, Some(after)));
        res
    }

    /// The value with the given id. It is an error if there is none.
    pub fn get_value(&mut self, id: ValueId, tid: TransactionId, perm: Permissions) -> (res: Result<
        Vec<u8>,
        CrustyError,
    >)
        requires
            old(self).wf(),
            old(self).files().contains_key(id.container_id),
            id.page_id is Some,
            id.slot_id is Some,
        ensures
            final(self).wf(),
            final(self).file_changed(
                old(self),
                id.container_id,
                old(self).files()[id.container_id].after_reads(1),
            ),
            match res {
                Ok(value) => value_in(old(self).files(), id) == Some(value@),
                Err(e) => value_in(old(self).files(), id) is None && e == CrustyError::ValueNotFound,
            },
    {
        let page = self.get_page(id.container_id, id.page_id.unwrap(), tid, perm, false);
        match page {
            Some(page) => match page.get_value(id.slot_id.unwrap()) {
                Some(value) => Ok(value),
                None => Err(CrustyError::ValueNotFound),
            },
            None => Err(CrustyError::ValueNotFound),
        }
    }

    /// The directory that the heap files lie in.
    pub fn get_storage_path(&self) -> (res: &str)
        ensures
            res@ == self.dir(),
    {
        self.storage_dir.as_str()
    }

    /// Removes all containers. What their heap files hold is kept for the iterators that go through
    /// them.
    pub fn reset(&mut self) -> (res: Result<(), CrustyError>)
        requires
            old(self).wf(),
        ensures
            final(self).wf(),
            final(self).dir() == old(self).dir(),
            final(self).temporary() == old(self).temporary(),
            final(self).store() == old(self).store(),
            final(self).files() == Map::<ContainerId, FileView>::empty(),
            final(self).paths() == Map::<ContainerId, Seq<char>>::empty(),
            res is Ok,
    {
        self.cid_heapfile_map.clear();
        self.cid_path_map.clear();
        assert(self.places() =~= Map::empty());
        assert(self.files() =~= Map::empty());
        assert(self.paths() =~= Map::empty());
        Ok(())
    }

    /// Does nothing: there is no cache to clear.
    pub fn clear_cache(&mut self)
        ensures
            *final(self) == *old(self),
    {
    }

    /// What has to be kept to have the storage manager again later: where its directory and the
    /// heap file of each container lie. The containers come in no particular order.
    pub fn shutdown(&self) -> (res: StorageConfig)
        requires
            self.wf(),
        ensures
            res.storage_dir@ == self.dir(),
            res.is_temp == self.temporary(),
            forall|i: int|
                0 <= i < res.cid_path_map@.len() ==> ({
                    let entry = #[trigger] res.cid_path_map@[i];
                    self.paths().contains_key(entry.container_id)
                        && self.paths()[entry.container_id] == entry.path@
                }),
            forall|i: int, j: int|
                0 <= i < j < res.cid_path_map@.len() ==> (
                #[trigger] res.cid_path_map@[i]).container_id != (
                #[trigger] res.cid_path_map@[j]).container_id,
            forall|c: ContainerId| #[trigger]
                self.paths().contains_key(c) ==> lists(res.cid_path_map@, c),
    {
        let mut entries: Vec<ContainerPath> = Vec::new();
        for container_id in it: self.cid_path_map.keys()
            invariant
                it.seq().unref().to_set() == self.cid_path_map@.dom(),
                it.seq().no_duplicates(),
                entries@.len() == it.index(),
                forall|i: int|
                    0 <= i < entries@.len() ==> (#[trigger] entries@[i]).container_id
                        == *it.seq()[i] && self.cid_path_map@.contains_key(
                        entries@[i].container_id,
                    ) && entries@[i].path == self.cid_path_map@[entries@[i].container_id],
                forall|c: ContainerId| #[trigger]
                    self.cid_path_map@.contains_key(c) ==> lists(entries@, c) || exists|j: int|
                        it.index() <= j < it.seq().len() && #[trigger] it.seq().unref()[j] == c,
        {
            let ghost key = it.seq().unref()[it.index()];
            let ghost before = entries@;
            assert(it.seq().unref().to_set().contains(key));
            let path = self.cid_path_map.get(container_id).unwrap().clone();
            entries.push(ContainerPath { container_id: *container_id, path });
            assert forall|c: ContainerId| lists(before, c) implies lists(entries@, c) by {
                let i = choose|i: int|
                    0 <= i < before.len() && (#[trigger] before[i]).container_id == c;
                assert(entries@[i].container_id == c);
            }
            assert(entries@[before.len() as int].container_id == key);
        }
        let storage_dir = self.storage_dir.clone();
        StorageConfig { storage_dir, is_temp: self.is_temp, cid_path_map: entries }
    }
}

/// The value with the given id, if there is one, where containers have the given heap files.
pub open spec fn value_in(files: Map<ContainerId, FileView>, id: ValueId) -> Option<Seq<u8>> {
    if files.contains_key(id.container_id) && id.page_id is Some && id.slot_id is Some {
        value_at(files[id.container_id].data, id.page_id->0 as int, id.slot_id->0 as int)
    } else {
        None
    }
}

/// Whether some entries have one for a container.
pub open spec fn lists(entries: Seq<ContainerPath>, container_id: ContainerId) -> bool {
    exists|i: int|
        0 <= i < entries.len() && (#[trigger] entries[i]).container_id == container_id
}

/// What each of some values holds.
pub open spec fn value_views(values: Seq<Vec<u8>>) -> Seq<Seq<u8>> {
    values.map_values(|value: Vec<u8>| value@)
}

/// Where values lie after they are inserted into a container, one after the other.
pub open spec fn insert_ids(
    container_id: ContainerId,
    file: FileView,
    values: Seq<Seq<u8>>,
) -> Seq<ValueId> {
    Seq::new(
        values.len(),
        |i: int| insert_id(container_id, file.after_inserts(values.take(i)).data, values[i]),
    )
}

} // verus!
