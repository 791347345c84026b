//! What holds of the storage manager: what a read gives back after writes, and what stays as it was.
//!
//! The laws speak of the heap files of the containers before and after a call, as the contract of the
//! call gives them.

use vstd::prelude::*;

use crate::heapfile::{
    delete, insert, insert_id, lemma_delete, lemma_insert, lemma_insert_well_formed,
    lemma_page_for, lemma_write_page, page_at, page_bytes, page_count, page_for, page_total, page_with_room,
    value_at, well_formed, write_page, FileView, PAGE_ID_LIMIT,
};
use crate::heapfileiter::{file_items, lemma_full_scan, precedes, sound_entry, HeapFileIterator};
use crate::ids::{ContainerId, ValueId};
use crate::page::{
    lemma_parsed_page_fits, lemma_read_back, lemma_with_value, parse_page, MAX_VALUE_SIZE, PAGE_SIZE,
};
use crate::storage_manager::{
    container_path, insert_ids, lists, opened_files, opened_paths, value_in, value_views,
    ContainerPath, OpenContainer, StorageManager, ValIterator, HEAP_FILE_EXTENSION,
};
use crate::text::{decimal, join_path, lemma_decimal, lemma_join_path, number_of};

verus! {

/// The heap file of each container.
pub type Files = Map<ContainerId, FileView>;

/// How many values an iterator over a file lists, if the file does not change meanwhile.
pub open spec fn listed(data: Seq<u8>) -> nat {
    file_items(data, 0, 0, 0, page_total(data)).len()
}

/// Where values lie in a file: the pages and slots.
spec fn live(data: Seq<u8>) -> Set<(int, int)> {
    Set::new(|at: (int, int)| value_at(data, at.0, at.1) is Some)
}

/// A file lists one value for each slot that holds one.
proof fn lemma_listed(data: Seq<u8>, container_id: ContainerId)
    requires
        page_count(data) < PAGE_ID_LIMIT,
    ensures
        live(data).finite(),
        file_items(data, container_id, 0, 0, page_total(data)).len() == live(data).len(),
{
    lemma_full_scan(data, container_id);
    let items = file_items(data, container_id, 0, 0, page_total(data));
    let places = items.map_values(
        |item: (Seq<u8>, ValueId)| (item.1.page_id->0 as int, item.1.slot_id->0 as int),
    );
    assert forall|i: int, j: int| 0 <= i < places.len() && 0 <= j < places.len() && i
        != j implies places[i] != places[j] by {
        if i < j {
            assert(precedes(items[i].1, items[j].1));
        } else {
            assert(precedes(items[j].1, items[i].1));
        }
    }
    assert forall|at: (int, int)| live(data).contains(at) <==> places.to_set().contains(at) by {
        if live(data).contains(at) {
            let entry = (
                value_at(data, at.0, at.1)->0,
                ValueId::slot(container_id, at.0 as u16, at.1 as u16),
            );
            assert(items.contains(entry));
            let k = items.index_of(entry);
            assert(items[k] == entry);
            lemma_slot_in_range(data, at.0, at.1);
            assert(places[k] == at);
        }
        if places.to_set().contains(at) {
            let k = places.index_of(at);
            assert(places[k] == at);
            assert(sound_entry(data, container_id, 0, 0, items[k]));
        }
    }
    assert(live(data) =~= places.to_set());
    places.unique_seq_to_set();
}

/// The page and the slot of a value can be written as an id.
proof fn lemma_slot_in_range(data: Seq<u8>, page: int, slot: int)
    requires
        page_count(data) < PAGE_ID_LIMIT,
        value_at(data, page, slot) is Some,
    ensures
        0 <= page < PAGE_ID_LIMIT,
        0 <= slot <= u16::MAX,
{
    lemma_parsed_page_fits(page_bytes(data, page));
}

/// Inserting a value adds one to what a file lists.
proof fn lemma_insert_listed(data: Seq<u8>, value: Seq<u8>)
    requires
        well_formed(data),
        value.len() <= MAX_VALUE_SIZE,
        page_count(insert(data, value)) < PAGE_ID_LIMIT,
    ensures
        listed(insert(data, value)) == listed(data) + 1,
{
    lemma_insert(data, 0, value);
    lemma_listed(data, 0);
    lemma_listed(insert(data, value), 0);
    let id = insert_id(0, data, value);
    let at = (id.page_id->0 as int, id.slot_id->0 as int);
    assert forall|other: (int, int)| other != at implies live(insert(data, value)).contains(other)
        == live(data).contains(other) by {
        assert(value_at(insert(data, value), other.0, other.1) == value_at(
            data,
            other.0,
            other.1,
        ));
    }
    assert(live(insert(data, value)) =~= live(data).insert(at));
}

/// Deleting a value takes one from what a file lists; deleting what is not there takes nothing.
proof fn lemma_delete_listed(data: Seq<u8>, page: int, slot: int)
    requires
        well_formed(data),
    ensures
        listed(delete(data, page, slot)) == if value_at(data, page, slot) is Some {
            listed(data) - 1
        } else {
            listed(data) as int
        },
{
    lemma_delete(data, page, slot);
    lemma_listed(data, 0);
    lemma_listed(delete(data, page, slot), 0);
    let after = delete(data, page, slot);
    assert forall|other: (int, int)| other != (page, slot) implies live(after).contains(other)
        == live(data).contains(other) by {
        assert(value_at(after, other.0, other.1) == value_at(data, other.0, other.1));
    }
    assert(live(after) =~= live(data).remove((page, slot)));
    if value_at(data, page, slot) is None {
        assert(live(after) =~= live(data));
    }
}

/// Reading pages changes no value.
pub proof fn lemma_reads_change_nothing(files: Files, container_id: ContainerId, pages: int)
    requires
        files.contains_key(container_id),
    ensures
        forall|id: ValueId| #[trigger]
            value_in(files.insert(container_id, files[container_id].after_reads(pages)), id)
                == value_in(files, id),
{
}

/// A container whose heap file is new holds no value, and those of other containers stay as they
/// were.
pub proof fn lemma_new_container(files: Files, container_id: ContainerId)
    ensures
        well_formed(Seq::<u8>::empty()),
        ({
            let after = files.insert(container_id, FileView::opened(container_id, Seq::empty()));
            forall|id: ValueId| #[trigger]
                value_in(after, id) == if id.container_id == container_id {
                    None
                } else {
                    value_in(files, id)
                }
        }),
{
}

/// A value that was inserted is read back under the id that was returned. Nothing had that id
/// before, and every other value, in this container or another, stays as it was. An iterator lists
/// one value more, as long as the pages can be counted.
pub proof fn lemma_insert_value(files: Files, container_id: ContainerId, value: Seq<u8>)
    requires
        files.contains_key(container_id),
        well_formed(files[container_id].data),
        value.len() <= MAX_VALUE_SIZE,
    ensures
        ({
            let after = files.insert(container_id, files[container_id].after_insert(value));
            let id = insert_id(container_id, files[container_id].data, value);
            &&& value_in(files, id) is None
            &&& value_in(after, id) == Some(value)
            &&& forall|other: ValueId|
                other != id ==> #[trigger] value_in(after, other) == value_in(files, other)
            &&& page_count(after[container_id].data) < PAGE_ID_LIMIT ==> listed(
                after[container_id].data,
            ) == listed(files[container_id].data) + 1
        }),
{
    let data = files[container_id].data;
    lemma_insert(data, container_id, value);
    if page_count(insert(data, value)) < PAGE_ID_LIMIT {
        lemma_insert_listed(data, value);
    }
}

/// A value that was deleted is there no more, and every other value, in this container or another,
/// stays as it was. An iterator lists one value less, or as many as before if there was none to
/// delete.
pub proof fn lemma_delete_value(files: Files, id: ValueId)
    requires
        files.contains_key(id.container_id),
        id.page_id is Some,
        id.slot_id is Some,
        well_formed(files[id.container_id].data),
    ensures
        ({
            let after = files.insert(
                id.container_id,
                files[id.container_id].after_delete(id.page_id->0 as int, id.slot_id->0 as int),
            );
            &&& value_in(after, id) is None
            &&& forall|other: ValueId|
                other != id ==> #[trigger] value_in(after, other) == value_in(files, other)
            &&& well_formed(after[id.container_id].data)
            &&& listed(after[id.container_id].data) == if value_in(files, id) is Some {
                listed(files[id.container_id].data) - 1
            } else {
                listed(files[id.container_id].data) as int
            }
        }),
{
    let data = files[id.container_id].data;
    lemma_delete(data, id.page_id->0 as int, id.slot_id->0 as int);
    lemma_delete_listed(data, id.page_id->0 as int, id.slot_id->0 as int);
}

/// A value that took the place of another is read back under the id that was returned. The other
/// value is there no more, unless the new one has its id. Every third value stays as it was. As long
/// as the pages can be counted, an iterator lists as many values as before, and one more if there
/// was no value to take the place of.
pub proof fn lemma_update_value(files: Files, id: ValueId, value: Seq<u8>)
    requires
        files.contains_key(id.container_id),
        id.page_id is Some,
        id.slot_id is Some,
        well_formed(files[id.container_id].data),
        value.len() <= MAX_VALUE_SIZE,
    ensures
        ({
            let page = id.page_id->0 as int;
            let slot = id.slot_id->0 as int;
            let after = files.insert(
                id.container_id,
                files[id.container_id].after_delete(page, slot).after_insert(value),
            );
            let new_id = insert_id(
                id.container_id,
                delete(files[id.container_id].data, page, slot),
                value,
            );
            &&& value_in(after, new_id) == Some(value)
            &&& new_id != id ==> value_in(after, id) is None && value_in(files, new_id) is None
            &&& forall|other: ValueId|
                other != id && other != new_id ==> #[trigger] value_in(after, other) == value_in(
                    files,
                    other,
                )
            &&& page_count(after[id.container_id].data) < PAGE_ID_LIMIT ==> listed(
                after[id.container_id].data,
            ) == listed(files[id.container_id].data) + if value_in(files, id) is Some {
                0int
            } else {
                1int
            }
        }),
{
    let data = files[id.container_id].data;
    let page = id.page_id->0 as int;
    let slot = id.slot_id->0 as int;
    lemma_delete(data, page, slot);
    let shrunk = delete(data, page, slot);
    lemma_insert(shrunk, id.container_id, value);
    lemma_delete_listed(data, page, slot);
    if page_count(insert(shrunk, value)) < PAGE_ID_LIMIT {
        lemma_insert_listed(shrunk, value);
    }
}

/// Writing a page to a well-formed file leaves a well-formed file, if the page is one of the file or
/// comes right after the last, and if the pages can still be counted.
pub proof fn lemma_write_well_formed(data: Seq<u8>, bytes: Seq<u8>)
    requires
        well_formed(data),
        bytes.len() == PAGE_SIZE,
        parse_page(bytes).id <= page_count(data),
        parse_page(bytes).id + 1 < PAGE_ID_LIMIT,
    ensures
        well_formed(write_page(data, bytes)),
{
    lemma_write_page(data, bytes);
    let after = write_page(data, bytes);
    assert forall|i: int| 0 <= i < page_count(after) implies (#[trigger] page_at(
        after,
        i,
    )).id == i by {
        if i != parse_page(bytes).id {
            assert(page_at(after, i) == page_at(data, i));
        }
    }
}

/// Inserting a value does not make a file shorter, and makes it longer if there is no room.
proof fn lemma_insert_grows(data: Seq<u8>, value: Seq<u8>)
    requires
        value.len() <= MAX_VALUE_SIZE,
    ensures
        page_count(insert(data, value)) >= page_count(data),
        page_with_room(data, value.len(), 0) == page_total(data) ==> page_count(
            insert(data, value),
        ) > page_total(data),
{
    lemma_page_for(data, value.len());
    let page = page_for(data, value.len());
    lemma_with_value(page, value);
    lemma_read_back(page.with_value(value));
    lemma_write_page(data, page.with_value(value).bytes());
}

/// As long as a file can count its pages after some values were inserted, it is well-formed.
pub proof fn lemma_inserts_well_formed(file: FileView, values: Seq<Seq<u8>>)
    requires
        well_formed(file.data),
        forall|i: int| 0 <= i < values.len() ==> (#[trigger] values[i]).len() <= MAX_VALUE_SIZE,
        page_count(file.after_inserts(values).data) < PAGE_ID_LIMIT,
    ensures
        well_formed(file.after_inserts(values).data),
    decreases values.len(),
{
    if values.len() > 0 {
        let earlier = values.drop_last();
        let before = file.after_inserts(earlier).data;
        let value = values.last();
        assert(value == values[values.len() - 1]);
        assert(forall|i: int| 0 <= i < earlier.len() ==> earlier[i] == values[i]);
        lemma_insert_grows(before, value);
        lemma_inserts_well_formed(file, earlier);
        lemma_page_for(before, value.len());
        lemma_insert_well_formed(before, value);
    }
}

/// Values that were inserted one after the other are all read back, each under the id that was
/// returned for it. The ids are distinct, nothing had them before, and every other value, in this
/// container or another, stays as it was. The pages must have been countable before the last of
/// the values was inserted; if they still are, an iterator lists as many values more as were
/// inserted.
pub proof fn lemma_insert_values(files: Files, container_id: ContainerId, values: Seq<Seq<u8>>)
    requires
        files.contains_key(container_id),
        well_formed(files[container_id].data),
        forall|i: int| 0 <= i < values.len() ==> (#[trigger] values[i]).len() <= MAX_VALUE_SIZE,
        values.len() > 0 ==> page_count(
            files[container_id].after_inserts(values.drop_last()).data,
        ) < PAGE_ID_LIMIT,
    ensures
        ({
            let after = files.insert(container_id, files[container_id].after_inserts(values));
            let ids = insert_ids(container_id, files[container_id], values);
            &&& ids.no_duplicates()
            &&& forall|i: int|
                0 <= i < values.len() ==> value_in(after, #[trigger] ids[i]) == Some(values[i])
                    && value_in(files, ids[i]) is None
            &&& forall|other: ValueId|
                !ids.contains(other) ==> #[trigger] value_in(after, other) == value_in(files, other)
            &&& page_count(after[container_id].data) < PAGE_ID_LIMIT ==> listed(
                after[container_id].data,
            ) == listed(files[container_id].data) + values.len()
        }),
    decreases values.len(),
{
    let file = files[container_id];
    let after = files.insert(container_id, file.after_inserts(values));
    let ids = insert_ids(container_id, file, values);
    if values.len() > 0 {
        let earlier = values.drop_last();
        let n = earlier.len() as int;
        let value = values.last();
        assert(value == values[n]);
        assert(forall|i: int| 0 <= i < n ==> earlier[i] == values[i]);
        if n > 0 {
            lemma_insert_grows(file.after_inserts(earlier.drop_last()).data, earlier.last());
            assert(earlier.last() == values[n - 1]);
        }
        lemma_inserts_well_formed(file, earlier);
        lemma_insert_values(files, container_id, earlier);
        let middle = files.insert(container_id, file.after_inserts(earlier));
        lemma_insert_value(middle, container_id, value);
        assert(middle.insert(container_id, middle[container_id].after_insert(value)) =~= after);
        let earlier_ids = insert_ids(container_id, file, earlier);
        let id = ids[n];
        assert(values.take(n) =~= earlier);
        assert forall|i: int| 0 <= i < n implies earlier_ids[i] == ids[i] by {
            assert(earlier.take(i) =~= values.take(i));
        }
        assert(ids =~= earlier_ids.push(id));
        assert(value_in(middle, id) is None);
        assert forall|i: int| 0 <= i < n implies #[trigger] ids[i] != id by {
            assert(value_in(middle, earlier_ids[i]) == Some(earlier[i]));
        }
        assert(!earlier_ids.contains(id));
        assert forall|i: int| 0 <= i < values.len() implies value_in(after, #[trigger] ids[i])
            == Some(values[i]) && value_in(files, ids[i]) is None by {
            if i < n {
                assert(value_in(middle, earlier_ids[i]) == Some(earlier[i]));
            }
        }
        assert forall|other: ValueId| !ids.contains(other) implies #[trigger] value_in(after, other)
            == value_in(files, other) by {
            assert(ids[n] == id);
            if earlier_ids.contains(other) {
                let k = earlier_ids.index_of(other);
                assert(ids[k] == other);
            }
            assert(value_in(middle, other) == value_in(files, other));
        }
    } else {
        assert(after =~= files);
    }
}

/// What an iterator over a container hands out, if the container does not change meanwhile: every
/// value of it once, with its id, in the order of pages and slots, and nothing else.
pub proof fn lemma_iterator_lists_values(
    files: Files,
    container_id: ContainerId,
    iter: HeapFileIterator,
)
    requires
        files.contains_key(container_id),
        page_count(files[container_id].data) < PAGE_ID_LIMIT,
        iter.container() == container_id,
        iter.page() == Some(0u16),
        iter.end() == page_total(files[container_id].data),
        iter.resume() is None,
        iter.page_rest() is None,
    ensures
        ({
            let items = iter.remaining(files[container_id].data);
            &&& items.len() == listed(files[container_id].data)
            &&& forall|i: int|
                0 <= i < items.len() ==> (#[trigger] items[i]).1.container_id == container_id
                    && value_in(files, items[i].1) == Some(items[i].0)
            &&& forall|i: int, j: int|
                0 <= i < j < items.len() ==> precedes(
                    (#[trigger] items[i]).1,
                    (#[trigger] items[j]).1,
                )
            &&& forall|id: ValueId|
                id.container_id == container_id && (#[trigger] value_in(files, id)) is Some
                    ==> items.contains((value_in(files, id)->0, id))
        }),
{
    let data = files[container_id].data;
    lemma_full_scan(data, container_id);
    lemma_listed(data, 0);
    lemma_listed(data, container_id);
    let items = file_items(data, container_id, 0, 0, page_total(data));
    assert(iter.remaining(data) == items);
    assert forall|i: int| 0 <= i < items.len() implies (#[trigger] items[i]).1.container_id
        == container_id && value_in(files, items[i].1) == Some(items[i].0) by {
        assert(sound_entry(data, container_id, 0, 0, items[i]));
    }
    assert forall|id: ValueId|
        id.container_id == container_id && (#[trigger] value_in(
            files,
            id,
        )) is Some implies items.contains((value_in(files, id)->0, id)) by {
        let page = id.page_id->0 as int;
        let slot = id.slot_id->0 as int;
        assert(value_at(data, page, slot) == value_in(files, id));
        assert(ValueId::slot(container_id, page as u16, slot as u16) == id);
    }
}

/// What is found in a table that distinct entries were put into.
pub proof fn lemma_opened(containers: Seq<OpenContainer>)
    requires
        forall|i: int, j: int|
            0 <= i < j < containers.len() ==> (#[trigger] containers[i]).container_id != (
            #[trigger] containers[j]).container_id,
    ensures
        opened_files(containers).dom() == opened_paths(containers).dom(),
        forall|i: int|
            0 <= i < containers.len() ==> ({
                let entry = #[trigger] containers[i];
                &&& opened_paths(containers).contains_key(entry.container_id)
                &&& opened_paths(containers)[entry.container_id] == entry.path@
                &&& opened_files(containers)[entry.container_id] == FileView::opened(
                    entry.container_id,
                    entry.data@,
                )
            }),
        forall|c: ContainerId| #[trigger]
            opened_paths(containers).contains_key(c) ==> exists|i: int|
                0 <= i < containers.len() && (#[trigger] containers[i]).container_id == c,
    decreases containers.len(),
{
    if containers.len() > 0 {
        let earlier = containers.drop_last();
        let last = containers.last();
        assert(last == containers[containers.len() - 1]);
        assert(forall|i: int| 0 <= i < earlier.len() ==> earlier[i] == containers[i]);
        lemma_opened(earlier);
        assert(opened_files(containers).dom() =~= opened_paths(containers).dom());
        assert forall|c: ContainerId| #[trigger]
            opened_paths(containers).contains_key(c) implies exists|i: int|
            0 <= i < containers.len() && (#[trigger] containers[i]).container_id == c by {
            if c != last.container_id {
                assert(opened_paths(earlier).contains_key(c));
                let i = choose|i: int|
                    0 <= i < earlier.len() && (#[trigger] earlier[i]).container_id == c;
                assert(containers[i].container_id == c);
            }
        }
    } else {
        assert(opened_files(containers).dom() =~= opened_paths(containers).dom());
    }
}

/// A storage manager that is made anew from what was kept of an earlier one, with the heap files as
/// they were, has the same containers, at the same paths, with the same values.
pub proof fn lemma_reload(
    files: Files,
    paths: Map<ContainerId, Seq<char>>,
    kept: Seq<ContainerPath>,
    containers: Seq<OpenContainer>,
)
    requires
        files.dom() == paths.dom(),
        forall|i: int|
            0 <= i < kept.len() ==> ({
                let entry = #[trigger] kept[i];
                paths.contains_key(entry.container_id) && paths[entry.container_id] == entry.path@
            }),
        forall|i: int, j: int|
            0 <= i < j < kept.len() ==> (#[trigger] kept[i]).container_id != (
            #[trigger] kept[j]).container_id,
        forall|c: ContainerId| #[trigger] paths.contains_key(c) ==> lists(kept, c),
        containers.len() == kept.len(),
        forall|i: int|
            0 <= i < containers.len() ==> ({
                let entry = #[trigger] containers[i];
                &&& entry.container_id == kept[i].container_id
                &&& entry.path@ == kept[i].path@
                &&& entry.data@ == files[kept[i].container_id].data
            }),
    ensures
        opened_paths(containers) == paths,
        opened_files(containers).dom() == files.dom(),
        forall|id: ValueId| #[trigger]
            value_in(opened_files(containers), id) == value_in(files, id),
{
    assert forall|i: int, j: int| 0 <= i < j < containers.len() implies (
    #[trigger] containers[i]).container_id != (#[trigger] containers[j]).container_id by {
        assert(kept[i].container_id != kept[j].container_id);
    }
    lemma_opened(containers);
    let new_paths = opened_paths(containers);
    let new_files = opened_files(containers);
    assert forall|c: ContainerId| paths.contains_key(c) implies new_paths.contains_key(c)
        && new_paths[c] == paths[c] && new_files[c].data == files[c].data by {
        assert(lists(kept, c));
        let i = choose|i: int| 0 <= i < kept.len() && (#[trigger] kept[i]).container_id == c;
        assert(containers[i].container_id == c);
    }
    assert forall|c: ContainerId| new_paths.contains_key(c) implies paths.contains_key(c) by {
        let i = choose|i: int|
            0 <= i < containers.len() && (#[trigger] containers[i]).container_id == c;
        assert(kept[i].container_id == c);
    }
    assert(new_paths =~= paths);
    assert forall|id: ValueId| #[trigger] value_in(new_files, id) == value_in(files, id) by {
        let c = id.container_id;
        assert(new_files.contains_key(c) <==> new_paths.contains_key(c));
        assert(files.contains_key(c) <==> paths.contains_key(c));
    }
}

/// Where the heap file of a container lies: in the directory, under the number of the container with
/// the ending `.hf`.
pub proof fn lemma_container_path(dir: Seq<char>, container_id: ContainerId)
    ensures
        ({
            let name = decimal(container_id as nat) + seq!['.', 'h', 'f'];
            &&& container_path(dir, container_id) == join_path(dir, name)
            &&& number_of(name.take(name.len() - 3)) == container_id
        }),
{
    reveal_strlit(".");
    reveal_strlit("hf");
    let name = decimal(container_id as nat) + seq!['.', 'h', 'f'];
    assert(HEAP_FILE_EXTENSION@ =~= seq!['h', 'f']);
    assert(decimal(container_id as nat) + "."@ + HEAP_FILE_EXTENSION@ =~= name);
    lemma_decimal(container_id as nat);
    assert(name.take(name.len() - 3) =~= decimal(container_id as nat));
}

/// Different containers have their heap files at different paths.
pub proof fn lemma_paths_differ(dir: Seq<char>, a: ContainerId, b: ContainerId)
    requires
        a != b,
    ensures
        container_path(dir, a) != container_path(dir, b),
{
    lemma_container_path(dir, a);
    lemma_container_path(dir, b);
    let x = decimal(a as nat) + seq!['.', 'h', 'f'];
    let y = decimal(b as nat) + seq!['.', 'h', 'f'];
    if container_path(dir, a) == container_path(dir, b) {
        lemma_join_path(dir, x);
        lemma_join_path(dir, y);
        let path = container_path(dir, a);
        assert(x.len() == y.len());
        assert(x =~= path.subrange(path.len() - x.len(), path.len() as int));
        assert(y =~= path.subrange(path.len() - y.len(), path.len() as int));
    }
}

/// The value with an id is the one in the slot, on the page and in the heap file that it names.
pub proof fn lemma_value_in(files: Files, id: ValueId)
    ensures
        value_in(files, id) == if files.contains_key(id.container_id) && id.page_id is Some
            && id.slot_id is Some {
            value_at(files[id.container_id].data, id.page_id->0 as int, id.slot_id->0 as int)
        } else {
            None
        },
{
}

/// The ids under which values are inserted one after the other: each is the one under which its value
/// is inserted once those before it are.
pub proof fn lemma_insert_ids(
    container_id: ContainerId,
    file: FileView,
    values: Seq<Seq<u8>>,
    i: int,
)
    requires
        0 <= i < values.len(),
    ensures
        insert_ids(container_id, file, values).len() == values.len(),
        insert_ids(container_id, file, values)[i] == insert_id(
            container_id,
            file.after_inserts(values.take(i)).data,
            values[i],
        ),
{
}

/// Where the heap file of one container changes, nothing else does: neither another container nor a
/// file that is kept for iterators.
pub proof fn lemma_one_file_changed(
    before: StorageManager,
    after: StorageManager,
    container_id: ContainerId,
    file: FileView,
)
    requires
        before.wf(),
        before.files().contains_key(container_id),
        after.file_changed(&before, container_id, file),
    ensures
        after.dir() == before.dir(),
        after.temporary() == before.temporary(),
        after.paths() == before.paths(),
        after.places() == before.places(),
        after.files() == before.files().insert(container_id, file),
        after.store().len() == before.store().len(),
        forall|i: int|
            0 <= i < before.store().len() && i != before.places()[container_id]
                ==> #[trigger] after.store()[i] == before.store()[i],
        after.store()[before.places()[container_id]] == Some(file),
{
}

/// A container that is created has the given heap file at its own path; no other container changes,
/// and neither does a file that is kept for iterators.
pub proof fn lemma_created(
    before: StorageManager,
    after: StorageManager,
    container_id: ContainerId,
    data: Seq<u8>,
)
    requires
        before.wf(),
        after.created(&before, container_id, data),
    ensures
        after.dir() == before.dir(),
        after.temporary() == before.temporary(),
        after.paths() == before.paths().insert(
            container_id,
            container_path(before.dir(), container_id),
        ),
        after.files().dom() == before.files().dom().insert(container_id),
        after.files()[container_id].data == data,
        after.files()[container_id].container_id == container_id,
        after.files()[container_id].reads == 0,
        after.files()[container_id].writes == 0,
        forall|c: ContainerId|
            c != container_id && before.files().contains_key(c) ==> #[trigger] after.files()[c]
                == before.files()[c],
        forall|i: int|
            0 <= i < before.store().len() && !(before.places().contains_key(container_id)
                && before.places()[container_id] == i) ==> #[trigger] after.store()[i]
                == before.store()[i],
        before.paths().contains_key(container_id) && before.paths()[container_id] != container_path(
            before.dir(),
            container_id,
        ) ==> after.store()[before.places()[container_id]]
            == before.store()[before.places()[container_id]],
{
    assert(after.files().dom() =~= before.files().dom().insert(container_id));
    if before.paths().contains_key(container_id) {
        assert(before.places().contains_key(container_id));
    }
}

/// A heap file is in use if and only if a container has it.
pub proof fn lemma_in_use(manager: StorageManager, place: int)
    requires
        manager.wf(),
        0 <= place < manager.store().len(),
    ensures
        manager.in_use(place) <==> exists|c: ContainerId|
            #[trigger] manager.places().contains_key(c) && manager.places()[c] == place,
{
    if manager.in_use(place) {
        let c = manager.store()[place]->0.container_id;
        assert(manager.places().contains_key(c));
    }
}

/// The heap file of a container is the one at its place.
pub proof fn lemma_files(manager: StorageManager, container_id: ContainerId)
    requires
        manager.wf(),
    ensures
        manager.files().contains_key(container_id) <==> manager.places().contains_key(container_id),
        manager.files().contains_key(container_id) <==> manager.paths().contains_key(container_id),
        manager.files().contains_key(container_id) ==> Some(manager.files()[container_id])
            == manager.store()[manager.places()[container_id]],
{
    assert(manager.places().dom() == manager.paths().dom());
    assert(manager.places().contains_key(container_id) <==> manager.places().dom().contains(
        container_id,
    ));
    assert(manager.paths().contains_key(container_id) <==> manager.paths().dom().contains(
        container_id,
    ));
}

/// An iterator can go on as long as the heap file that it goes through is there, and is that of its
/// container.
pub proof fn lemma_holds(manager: StorageManager, iter: ValIterator)
    ensures
        manager.holds(&iter) <==> 0 <= iter.file() < manager.store().len()
            && manager.store()[iter.file()] is Some && manager.store()[iter.file()]->0.container_id
            == iter.inner().container(),
{
}

/// What values hold, one by one and in their order.
pub proof fn lemma_value_views(values: Seq<Vec<u8>>)
    ensures
        value_views(values).len() == values.len(),
        forall|i: int| 0 <= i < values.len() ==> #[trigger] value_views(values)[i] == values[i]@,
{
}

} // verus!
