use crustydb::error::CrustyError;
use crustydb::heapfile::{page_offset, HeapFile};
use crustydb::heapfileiter::HeapFileIterator;
use crustydb::ids::{ContainerId, Permissions, StateType, TransactionId, ValueId};
use crustydb::page::{HeapPageIntoIter, Page, MAX_VALUE_SIZE, PAGE_SIZE};
use crustydb::storage_manager::{OpenContainer, StorageManager, ValIterator};

/// A source of bytes that look random and are the same in every run.
struct Bytes {
    state: u64,
}

impl Bytes {
    fn new(seed: u64) -> Self {
        Bytes { state: seed }
    }

    fn next(&mut self) -> u64 {
        self.state = self
            .state
            .wrapping_mul(6364136223846793005)
            .wrapping_add(1442695040888963407);
        self.state >> 33
    }

    fn vec(&mut self, len: usize) -> Vec<u8> {
        (0..len).map(|_| self.next() as u8).collect()
    }
}

const TID: TransactionId = TransactionId { id: 1 };

fn test_sm() -> StorageManager {
    StorageManager::new_test_sm("/tmp/sm")
}

fn scan(sm: &mut StorageManager, mut iter: ValIterator) -> Vec<(Vec<u8>, ValueId)> {
    let mut found = Vec::new();
    while let Some(entry) = sm.next_value(&mut iter) {
        found.push(entry);
    }
    found
}

fn scan_all(sm: &mut StorageManager, cid: ContainerId) -> Vec<(Vec<u8>, ValueId)> {
    let iter = sm.get_iterator(cid, TID, Permissions::ReadOnly);
    scan(sm, iter)
}

#[test]
fn hs_hf_insert() {
    let mut random = Bytes::new(1);
    let mut hf = HeapFile::new(Vec::new(), 0);

    let mut p0 = Page::new(0);
    let bytes = random.vec(100);
    p0.add_value(&bytes);
    let bytes = random.vec(100);
    p0.add_value(&bytes);
    let bytes = random.vec(100);
    p0.add_value(&bytes);
    let p0_bytes = p0.to_bytes();

    hf.write_page_to_file(&p0).unwrap();
    assert_eq!(1, hf.num_pages());
    let checkp0 = hf.read_page_from_file(0).unwrap();
    assert_eq!(p0_bytes, checkp0.to_bytes());

    let mut p1 = Page::new(1);
    let bytes = random.vec(100);
    p1.add_value(&bytes);
    let bytes = random.vec(100);
    p1.add_value(&bytes);
    let bytes = random.vec(100);
    p1.add_value(&bytes);
    let p1_bytes = p1.to_bytes();

    hf.write_page_to_file(&p1).unwrap();

    assert_eq!(2, hf.num_pages());
    let checkp0 = hf.read_page_from_file(0).unwrap();
    assert_eq!(p0_bytes, checkp0.to_bytes());

    let checkp1 = hf.read_page_from_file(1).unwrap();
    assert_eq!(p1_bytes, checkp1.to_bytes());

    assert_eq!(hf.read_count, 3);
    assert_eq!(hf.write_count, 2);
    assert_eq!(hf.get_file_size(), 2 * PAGE_SIZE);
}

#[test]
fn hs_sm_a_insert() {
    let mut sm = test_sm();
    let cid = 1;
    sm.create_table(cid, Vec::new()).unwrap();

    let bytes = Bytes::new(2).vec(40);
    let tid = TID;

    let val1 = sm.insert_value(cid, bytes.clone(), tid);
    assert_eq!(1, sm.get_num_pages(cid));
    assert_eq!(0, val1.page_id.unwrap());
    assert_eq!(0, val1.slot_id.unwrap());

    let p1 = sm
        .get_page(cid, 0, tid, Permissions::ReadOnly, false)
        .unwrap();

    let val2 = sm.insert_value(cid, bytes, tid);
    assert_eq!(1, sm.get_num_pages(cid));
    assert_eq!(0, val2.page_id.unwrap());
    assert_eq!(1, val2.slot_id.unwrap());

    let p2 = sm
        .get_page(cid, 0, tid, Permissions::ReadOnly, false)
        .unwrap();
    assert_ne!(p1.to_bytes()[..], p2.to_bytes()[..]);
}

#[test]
fn hs_sm_b_iter_small() {
    let mut random = Bytes::new(3);
    let mut sm = test_sm();
    let cid = 1;
    sm.create_table(cid, Vec::new()).unwrap();
    let tid = TID;

    let mut byte_vec: Vec<Vec<u8>> = vec![random.vec(400), random.vec(400), random.vec(400)];
    for val in &byte_vec {
        sm.insert_value(cid, val.clone(), tid);
    }
    let found = scan_all(&mut sm, cid);
    assert_eq!(found.len(), byte_vec.len());
    for (i, x) in found.iter().enumerate() {
        assert_eq!(byte_vec[i], x.0);
    }

    let mut byte_vec2: Vec<Vec<u8>> = vec![
        random.vec(400),
        random.vec(400),
        random.vec(400),
        random.vec(400),
    ];

    for val in &byte_vec2 {
        sm.insert_value(cid, val.clone(), tid);
    }
    byte_vec.append(&mut byte_vec2);

    let found = scan_all(&mut sm, cid);
    assert_eq!(found.len(), byte_vec.len());
    for (i, x) in found.iter().enumerate() {
        assert_eq!(byte_vec[i], x.0);
    }

    let mut byte_vec2: Vec<Vec<u8>> = vec![random.vec(300), random.vec(500), random.vec(400)];

    for val in &byte_vec2 {
        sm.insert_value(cid, val.clone(), tid);
    }
    byte_vec.append(&mut byte_vec2);

    let found = scan_all(&mut sm, cid);
    assert_eq!(found.len(), byte_vec.len());
    for (i, x) in found.iter().enumerate() {
        assert_eq!(byte_vec[i], x.0);
    }
}

#[test]
fn hs_sm_b_iter_large() {
    let mut random = Bytes::new(4);
    let mut sm = test_sm();
    let cid = 1;

    sm.create_table(cid, Vec::new()).unwrap();
    let tid = TID;

    let mut vals: Vec<Vec<u8>> = Vec::new();
    for _ in 0..1000 {
        let len = 40 + (random.next() % 360) as usize;
        vals.push(random.vec(len));
    }
    let ids = sm.insert_values(cid, vals.clone(), tid);
    let found = scan_all(&mut sm, cid);
    assert_eq!(1000, found.len());
    for (id, val) in ids.iter().zip(vals.iter()) {
        assert!(found.contains(&(val.clone(), *id)));
    }
}

#[test]
fn a_page_is_laid_out_as_documented() {
    let mut page = Page::new(0x0102);
    assert_eq!(page.add_value(&[7, 8, 9]), Some(0));
    assert_eq!(page.add_value(&[]), Some(1));
    assert_eq!(page.add_value(&[5]), Some(2));
    assert_eq!(page.delete_value(1), Some(()));
    let bytes = page.to_bytes();
    assert_eq!(bytes.len(), PAGE_SIZE);
    assert_eq!(
        bytes[..14],
        [0x02, 0x01, 3, 0, 3, 0, 0xFF, 0xFF, 1, 0, 7, 8, 9, 5]
    );
    assert!(bytes[14..].iter().all(|b| *b == 0));
    let copy = Page::from_bytes(*bytes);
    assert_eq!(copy.get_page_id(), 0x0102);
    assert_eq!(copy.get_value(0), Some(vec![7, 8, 9]));
    assert_eq!(copy.get_value(1), None);
    assert_eq!(copy.get_value(2), Some(vec![5]));
    assert_eq!(copy.get_value(3), None);
    assert_eq!(copy.to_bytes(), bytes);
    assert_eq!(copy.debug_text(), "page 258: 3 free 1");
}

#[test]
fn bytes_that_stand_for_no_page_give_no_values() {
    let mut bytes = [0u8; PAGE_SIZE];
    bytes[0] = 9;
    bytes[2] = 0xFF;
    bytes[3] = 0xFF;
    let page = Page::from_bytes(bytes);
    assert_eq!(*page.to_bytes(), bytes);
    assert_eq!(page.get_page_id(), 9);
    assert_eq!(page.get_value(0), None);
    bytes[2] = 1;
    bytes[3] = 0;
    bytes[4] = 0xFF;
    bytes[5] = 0x0F;
    assert_eq!(Page::from_bytes(bytes).get_value(0), None);
    bytes[4] = 0xFA;
    assert_eq!(
        Page::from_bytes(bytes).get_value(0),
        Some(vec![0; MAX_VALUE_SIZE])
    );
}

#[test]
fn a_page_takes_what_it_has_room_for() {
    let mut page = Page::new(0);
    assert_eq!(page.add_value(&vec![1; MAX_VALUE_SIZE + 1]), None);
    assert_eq!(page.add_value(&vec![1; MAX_VALUE_SIZE]), Some(0));
    assert_eq!(page.add_value(&[]), None);
    assert_eq!(page.delete_value(0), Some(()));
    assert_eq!(page.delete_value(0), None);
    assert_eq!(page.delete_value(1), None);
    assert_eq!(page.add_value(&[2]), Some(0));
    assert_eq!(page.get_value(0), Some(vec![2]));
}

#[test]
fn deleted_slots_are_used_again_first() {
    let mut page = Page::new(0);
    for n in 0..4 {
        assert_eq!(page.add_value(&[n]), Some(n as u16));
    }
    page.delete_value(2);
    page.delete_value(1);
    assert_eq!(page.add_value(&[9]), Some(1));
    assert_eq!(page.add_value(&[8]), Some(2));
    assert_eq!(page.add_value(&[7]), Some(4));
}

#[test]
fn a_page_is_gone_through_slot_by_slot() {
    let mut page = Page::new(0);
    for n in 0..4 {
        page.add_value(&[n]);
    }
    page.delete_value(1);
    let bytes = *page.to_bytes();
    let mut iter = page.into_iter();
    assert_eq!(iter.next(), Some((vec![0], 0)));
    assert_eq!(iter.next(), Some((vec![2], 2)));
    assert_eq!(iter.next(), Some((vec![3], 3)));
    assert_eq!(iter.next(), None);
    assert_eq!(iter.next(), None);
    let mut iter = HeapPageIntoIter::new_at_slot(Page::from_bytes(bytes), 3);
    assert_eq!(iter.next(), Some((vec![3], 3)));
    assert_eq!(iter.next(), None);
    let mut iter = HeapPageIntoIter::new_at_slot(Page::from_bytes(bytes), u16::MAX);
    assert_eq!(iter.next(), None);
}

#[test]
fn pages_behind_the_end_cannot_be_read() {
    let mut hf = HeapFile::new(vec![0; PAGE_SIZE + 1], 3);
    assert_eq!(hf.num_pages(), 1);
    assert!(hf.read_page_from_file(0).is_ok());
    assert_eq!(
        hf.read_page_from_file(1).err(),
        Some(CrustyError::PageRead(1))
    );
    assert_eq!(hf.read_count, 2);
}

#[test]
fn a_write_behind_the_end_fills_the_gap_with_zeros() {
    let mut hf = HeapFile::new(Vec::new(), 3);
    let mut page = Page::new(2);
    page.add_value(&[1, 2, 3]);
    hf.write_page_to_file(&page).unwrap();
    assert_eq!(hf.num_pages(), 3);
    assert!(hf.data[..2 * PAGE_SIZE].iter().all(|b| *b == 0));
    assert_eq!(
        hf.read_page_from_file(2).unwrap().get_value(0),
        Some(vec![1, 2, 3])
    );
}

#[test]
fn the_page_count_starts_again_after_the_last_page_id() {
    let mut hf = HeapFile::new(Vec::new(), 3);
    hf.write_page_to_file(&Page::new(u16::MAX)).unwrap();
    assert_eq!(hf.get_file_size(), 65536 * PAGE_SIZE);
    assert_eq!(hf.num_pages(), 0);
}

#[test]
fn values_are_read_back_deleted_and_updated() {
    let mut sm = test_sm();
    sm.create_table(1, Vec::new()).unwrap();
    sm.create_table(2, Vec::new()).unwrap();
    let ids = sm.insert_values(1, vec![vec![1], vec![2, 2], vec![3, 3, 3]], TID);
    let other = sm.insert_value(2, vec![4], TID);
    let read = |sm: &mut StorageManager, id: ValueId| sm.get_value(id, TID, Permissions::ReadOnly);
    assert_eq!(read(&mut sm, ids[0]), Ok(vec![1]));
    assert_eq!(read(&mut sm, ids[1]), Ok(vec![2, 2]));
    assert_eq!(read(&mut sm, ids[2]), Ok(vec![3, 3, 3]));
    assert_eq!(read(&mut sm, other), Ok(vec![4]));

    assert_eq!(sm.delete_value(ids[1], TID), Ok(()));
    assert_eq!(read(&mut sm, ids[1]), Err(CrustyError::ValueNotFound));
    assert_eq!(read(&mut sm, ids[0]), Ok(vec![1]));
    assert_eq!(read(&mut sm, other), Ok(vec![4]));

    let moved = sm.update_value(vec![5; 10], ids[0], TID).unwrap();
    assert_eq!(moved, ids[0]);
    assert_eq!(read(&mut sm, moved), Ok(vec![5; 10]));
    let moved = sm.update_value(vec![6; MAX_VALUE_SIZE], ids[2], TID).unwrap();
    assert_eq!(moved, ValueId::new_slot(1, 1, 0));
    assert_eq!(read(&mut sm, moved), Ok(vec![6; MAX_VALUE_SIZE]));
    assert_eq!(read(&mut sm, ids[2]), Err(CrustyError::ValueNotFound));
}

#[test]
fn deleting_what_is_not_there_is_no_error() {
    let mut sm = test_sm();
    sm.create_table(1, Vec::new()).unwrap();
    let id = sm.insert_value(1, vec![1], TID);
    assert_eq!(sm.delete_value(ValueId::new_slot(1, 0, 5), TID), Ok(()));
    assert_eq!(sm.delete_value(ValueId::new_slot(1, 9, 0), TID), Ok(()));
    assert_eq!(scan_all(&mut sm, 1), vec![(vec![1], id)]);
    assert_eq!(
        sm.get_value(ValueId::new_slot(1, 9, 0), TID, Permissions::ReadOnly),
        Err(CrustyError::ValueNotFound)
    );
}

#[test]
fn a_value_goes_to_the_first_page_with_room() {
    let mut sm = test_sm();
    sm.create_table(1, Vec::new()).unwrap();
    assert_eq!(sm.insert_value(1, vec![0; 3000], TID), ValueId::new_slot(1, 0, 0));
    assert_eq!(sm.insert_value(1, vec![0; 3000], TID), ValueId::new_slot(1, 1, 0));
    assert_eq!(sm.insert_value(1, vec![0; 500], TID), ValueId::new_slot(1, 0, 1));
    assert_eq!(sm.insert_value(1, vec![0; 1000], TID), ValueId::new_slot(1, 1, 1));
    assert_eq!(sm.insert_value(1, vec![0; 584], TID), ValueId::new_slot(1, 0, 2));
    assert_eq!(sm.insert_value(1, vec![0; 0], TID), ValueId::new_slot(1, 0, 3));
    assert_eq!(sm.get_num_pages(1), 2);
}

#[test]
fn a_scan_can_start_anywhere() {
    let mut sm = test_sm();
    sm.create_table(1, Vec::new()).unwrap();
    let ids = sm.insert_values(
        1,
        vec![vec![1; 2000], vec![2; 2000], vec![3; 2000], vec![4; 2000]],
        TID,
    );
    assert_eq!(ids[2], ValueId::new_slot(1, 1, 0));
    let iter = sm.get_iterator_from(1, TID, Permissions::ReadOnly, ids[1]);
    let found: Vec<ValueId> = scan(&mut sm, iter).into_iter().map(|x| x.1).collect();
    assert_eq!(found, vec![ids[1], ids[2], ids[3]]);
    let whole_page = ValueId { container_id: 1, page_id: Some(1), slot_id: None };
    let iter = sm.get_iterator_from(1, TID, Permissions::ReadOnly, whole_page);
    assert_eq!(scan(&mut sm, iter).len(), 2);
    let nowhere = ValueId { container_id: 1, page_id: None, slot_id: Some(0) };
    let iter = sm.get_iterator_from(1, TID, Permissions::ReadOnly, nowhere);
    assert_eq!(scan(&mut sm, iter), vec![]);
    let behind = ValueId::new_slot(1, 5, 0);
    let iter = sm.get_iterator_from(1, TID, Permissions::ReadOnly, behind);
    assert_eq!(scan(&mut sm, iter), vec![]);
}

#[test]
fn a_scan_sees_pages_as_they_are_when_it_gets_there() {
    let mut sm = test_sm();
    sm.create_table(1, Vec::new()).unwrap();
    let ids = sm.insert_values(
        1,
        vec![vec![1; 2000], vec![2; 2000], vec![3; 2000], vec![4; 2000]],
        TID,
    );
    let mut iter = sm.get_iterator(1, TID, Permissions::ReadOnly);
    assert_eq!(sm.next_value(&mut iter).unwrap().1, ids[0]);
    sm.delete_value(ids[1], TID).unwrap();
    sm.delete_value(ids[2], TID).unwrap();
    sm.insert_value(1, vec![5; 4000], TID);
    assert_eq!(sm.next_value(&mut iter).unwrap().1, ids[1]);
    assert_eq!(sm.next_value(&mut iter).unwrap().1, ids[3]);
    assert_eq!(sm.next_value(&mut iter), None);
    assert_eq!(sm.next_value(&mut iter), None);
}

#[test]
fn a_scan_goes_on_with_the_file_of_a_removed_container() {
    let mut sm = test_sm();
    sm.create_table(1, Vec::new()).unwrap();
    let old = sm.insert_values(1, vec![vec![1], vec![2]], TID);
    let mut iter = sm.get_iterator(1, TID, Permissions::ReadOnly);
    let mut second = sm.get_iterator(1, TID, Permissions::ReadOnly);
    assert_eq!(sm.next_value(&mut iter), Some((vec![1], old[0])));
    sm.remove_container(1).unwrap();
    sm.create_table(1, Vec::new()).unwrap();
    let new = sm.insert_value(1, vec![3], TID);
    assert_eq!(sm.next_value(&mut iter), Some((vec![2], old[1])));
    assert_eq!(sm.next_value(&mut iter), None);
    assert_eq!(sm.next_value(&mut second), Some((vec![1], old[0])));
    assert_eq!(scan_all(&mut sm, 1), vec![(vec![3], new)]);
    sm.reset().unwrap();
    assert_eq!(sm.next_value(&mut second), Some((vec![2], old[1])));
    assert!(sm.has_file_of(&second));
    sm.forget_removed_files();
    assert!(!sm.has_file_of(&second));
}

#[test]
fn a_scan_sees_the_file_of_a_container_that_is_created_again() {
    let mut sm = test_sm();
    sm.create_table(1, Vec::new()).unwrap();
    let ids = sm.insert_values(1, vec![vec![1; 3000], vec![2; 3000]], TID);
    let mut iter = sm.get_iterator(1, TID, Permissions::ReadOnly);
    assert_eq!(sm.next_value(&mut iter).unwrap().1, ids[0]);
    let mut data = Vec::new();
    for page_id in 0..2 {
        let page = sm.get_page(1, page_id, TID, Permissions::ReadOnly, false).unwrap();
        data.extend_from_slice(page.to_bytes());
    }
    sm.create_table(1, data).unwrap();
    sm.delete_value(ids[1], TID).unwrap();
    assert_eq!(sm.next_value(&mut iter), None);
    sm.forget_removed_files();
    assert_eq!(scan_all(&mut sm, 1).len(), 1);
}

#[test]
fn an_iterator_can_be_run_on_a_heap_file_of_its_own() {
    let mut hf = HeapFile::new(Vec::new(), 5);
    let mut page = Page::new(0);
    page.add_value(&[1]);
    page.add_value(&[2]);
    hf.write_page_to_file(&page).unwrap();
    let mut iter = HeapFileIterator::new_from(TID, &hf, ValueId::new_slot(5, 0, 1));
    assert_eq!(iter.next(&mut hf), Some((vec![2], ValueId::new_slot(5, 0, 1))));
    assert_eq!(iter.next(&mut hf), None);
}

#[test]
fn a_page_with_any_bytes_is_read_as_it_stands() {
    let mut data: Vec<u8> = (0..2 * PAGE_SIZE + 7).map(|i| (i * 7 % 251) as u8).collect();
    data[page_offset(1)] = 1;
    data[page_offset(1) + 1] = 0;
    let mut hf = HeapFile::new(data.clone(), 5);
    let page = hf.read_page_from_file(1).unwrap();
    assert_eq!(page.to_bytes()[..], data[PAGE_SIZE..2 * PAGE_SIZE]);
    hf.write_page_to_file(&page).unwrap();
    assert_eq!(hf.data, data);
}

#[test]
fn values_are_kept_in_a_file_with_bytes_behind_the_last_page() {
    let mut page = Page::new(0);
    page.add_value(&[9; 3000]);
    let mut data = page.to_bytes().to_vec();
    data.extend_from_slice(&[1, 2, 3]);
    let mut sm = test_sm();
    sm.create_table(1, data).unwrap();
    let id = sm.insert_value(1, vec![8; 3000], TID);
    assert_eq!(id, ValueId::new_slot(1, 1, 0));
    let found: Vec<Vec<u8>> = scan_all(&mut sm, 1).into_iter().map(|x| x.0).collect();
    assert_eq!(found, vec![vec![9; 3000], vec![8; 3000]]);
}

#[test]
fn reads_and_writes_are_counted() {
    let mut sm = test_sm();
    assert_eq!(sm.get_hf_read_write_count(1), (0, 0));
    sm.create_table(1, Vec::new()).unwrap();
    let id = sm.insert_value(1, vec![0; 4000], TID);
    assert_eq!(sm.get_hf_read_write_count(1), (0, 1));
    sm.insert_value(1, vec![0; 4000], TID);
    assert_eq!(sm.get_hf_read_write_count(1), (1, 2));
    sm.insert_value(1, vec![0; 4000], TID);
    assert_eq!(sm.get_hf_read_write_count(1), (3, 3));
    sm.delete_value(id, TID).unwrap();
    assert_eq!(sm.get_hf_read_write_count(1), (4, 4));
    sm.delete_value(ValueId::new_slot(1, 7, 0), TID).unwrap();
    assert_eq!(sm.get_hf_read_write_count(1), (5, 4));
    assert_eq!(scan_all(&mut sm, 1).len(), 2);
    assert_eq!(sm.get_hf_read_write_count(1), (8, 4));
    assert!(sm.get_page(1, 9, TID, Permissions::ReadOnly, false).is_none());
    assert_eq!(sm.get_hf_read_write_count(1), (9, 4));
}

#[test]
fn pages_can_be_written_and_shown() {
    let mut sm = test_sm();
    assert_eq!(sm.get_page_debug(1, 0), "");
    sm.create_container(1, None, StateType::MatView, None, Vec::new()).unwrap();
    assert_eq!(sm.get_page_debug(1, 0), "");
    let mut page = Page::new(0);
    page.add_value(&[1, 2]);
    sm.write_page(1, &page, TID).unwrap();
    assert_eq!(sm.get_page_debug(1, 0), "page 0: 2");
    assert!(sm.get_page(2, 0, TID, Permissions::ReadOnly, false).is_none());
}

#[test]
fn containers_are_created_removed_and_reset() {
    let mut sm = test_sm();
    assert!(sm.is_temporary());
    assert_eq!(sm.get_storage_path(), "/tmp/sm");
    assert_eq!(sm.container_file_path(1024), "/tmp/sm/1024.hf");
    sm.create_table(1, Vec::new()).unwrap();
    sm.create_table(2, Vec::new()).unwrap();
    assert!(sm.has_container(1));
    assert_eq!(sm.remove_container(1), Ok("/tmp/sm/1.hf".to_string()));
    assert!(!sm.has_container(1));
    assert!(sm.has_container(2));
    assert_eq!(sm.remove_container(7), Ok("/tmp/sm/7.hf".to_string()));
    sm.clear_cache();
    assert!(sm.has_container(2));
    sm.reset().unwrap();
    assert!(!sm.has_container(2));
    assert!(sm.shutdown().cid_path_map.is_empty());
}

#[test]
fn paths_are_joined_by_one_slash() {
    assert_eq!(StorageManager::new("a/", vec![]).container_file_path(0), "a/0.hf");
    assert_eq!(StorageManager::new("", vec![]).container_file_path(65535), "65535.hf");
}

#[test]
fn what_was_kept_can_be_opened_again() {
    let mut sm = StorageManager::new("db", vec![]);
    assert!(!sm.is_temporary());
    sm.create_table(1, Vec::new()).unwrap();
    sm.create_table(20, Vec::new()).unwrap();
    let id1 = sm.insert_value(1, vec![1, 2, 3], TID);
    let id20 = sm.insert_value(20, vec![4; 500], TID);
    let mut files: Vec<(ContainerId, Vec<u8>)> = Vec::new();
    for cid in [1, 20] {
        let page = sm.get_page(cid, 0, TID, Permissions::ReadOnly, false).unwrap();
        files.push((cid, page.to_bytes().to_vec()));
    }
    let config = sm.shutdown();
    assert_eq!(config.storage_dir, "db");
    assert!(!config.is_temp);
    assert_eq!(config.cid_path_map.len(), 2);
    let mut opened: Vec<OpenContainer> = Vec::new();
    for entry in config.cid_path_map {
        assert_eq!(entry.path, format!("db/{}.hf", entry.container_id));
        let data = files.iter().find(|f| f.0 == entry.container_id).unwrap().1.clone();
        opened.push(OpenContainer { container_id: entry.container_id, path: entry.path, data });
    }
    let mut sm = StorageManager::new(&config.storage_dir, opened);
    assert_eq!(sm.get_value(id1, TID, Permissions::ReadOnly), Ok(vec![1, 2, 3]));
    assert_eq!(sm.get_value(id20, TID, Permissions::ReadOnly), Ok(vec![4; 500]));
    assert_eq!(sm.get_hf_read_write_count(1), (1, 0));
}
