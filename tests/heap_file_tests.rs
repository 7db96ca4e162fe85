use heapstore::container_map::ContainerMap;
use heapstore::heap_file::{insert_value, scan_records, HeapFileIterator, ValueId};
use heapstore::page::{Page, PAGE_SIZE};
use rand::Rng;

fn get_random_byte_vec(n: usize) -> Vec<u8> {
    let mut rng = rand::thread_rng();
    (0..n).map(|_| rng.gen::<u8>()).collect()
}

fn get_random_vec_of_byte_vec(n: usize, min: usize, max: usize) -> Vec<Vec<u8>> {
    let mut rng = rand::thread_rng();
    (0..n).map(|_| get_random_byte_vec(rng.gen_range(min..=max))).collect()
}

/// Walks the pages with a `HeapFileIterator`, as a file-backed scan does.
fn scan_from(pages: &[Page], mut it: HeapFileIterator) -> Vec<(Vec<u8>, ValueId)> {
    let mut out = Vec::new();
    while it.current_page() < pages.len() {
        if let Some(x) = it.advance(&pages[it.current_page()]) {
            out.push(x);
        }
    }
    out
}

#[test]
fn hs_sm_a_insert() {
    let cid = 1;
    let mut pages: Vec<Page> = Vec::new();
    let bytes = get_random_byte_vec(40);
    let val1 = insert_value(&mut pages, cid, &bytes);

    assert_eq!(1, pages.len());
    assert_eq!(0, val1.page_id.unwrap());
    assert_eq!(0, val1.slot_id.unwrap());

    let page_b = pages[0].to_bytes();

    let val2 = insert_value(&mut pages, cid, &bytes);

    assert_eq!(1, pages.len());
    assert_eq!(0, val2.page_id.unwrap());
    assert_eq!(1, val2.slot_id.unwrap());

    let page_c = pages[0].to_bytes();

    assert_ne!(page_b[..], page_c[..]);
}

#[test]
fn hs_sm_b_iter_small() {
    let cid = 1;
    let mut pages: Vec<Page> = Vec::new();

    // One page
    let mut byte_vec: Vec<Vec<u8>> = vec![get_random_byte_vec(400), get_random_byte_vec(400), get_random_byte_vec(400)];
    for val in &byte_vec {
        insert_value(&mut pages, cid, val);
    }
    for (i, x) in scan_records(&pages, cid).into_iter().enumerate() {
        assert_eq!(byte_vec[i], x.0);
    }

    // Two pages
    let mut byte_vec2: Vec<Vec<u8>> = vec![
        get_random_byte_vec(400),
        get_random_byte_vec(400),
        get_random_byte_vec(400),
        get_random_byte_vec(400),
    ];
    for val in &byte_vec2 {
        insert_value(&mut pages, cid, val);
    }
    byte_vec.append(&mut byte_vec2);
    for (i, x) in scan_records(&pages, cid).into_iter().enumerate() {
        assert_eq!(byte_vec[i], x.0);
    }

    // Three pages
    let mut byte_vec2: Vec<Vec<u8>> = vec![get_random_byte_vec(300), get_random_byte_vec(500), get_random_byte_vec(400)];
    for val in &byte_vec2 {
        insert_value(&mut pages, cid, val);
    }
    byte_vec.append(&mut byte_vec2);
    for (i, x) in scan_records(&pages, cid).into_iter().enumerate() {
        assert_eq!(byte_vec[i], x.0);
    }
}

#[test]
fn hs_sm_b_iterator_from_large() {
    let cid = 1;
    let mut pages: Vec<Page> = Vec::new();
    let vals = get_random_vec_of_byte_vec(1000, 40, 400);
    for v in &vals {
        insert_value(&mut pages, cid, v);
    }
    let start = ValueId { container_id: cid, segment_id: None, page_id: Some(0), slot_id: Some(5) };
    let count = scan_from(&pages, HeapFileIterator::new_from(cid, start)).len();
    assert_eq!(995, count);
}

#[test]
fn scan_yields_each_live_record_once_in_page_slot_order() {
    let cid = 4;
    let mut pages: Vec<Page> = Vec::new();
    let mut ids = Vec::new();
    for i in 0..30u8 {
        ids.push(insert_value(&mut pages, cid, &vec![i; 300]));
    }
    assert!(pages.len() >= 3);
    // delete a few records
    for k in [0usize, 7, 13, 29] {
        let id = ids[k];
        pages[id.page_id.unwrap() as usize].delete_value(id.slot_id.unwrap()).unwrap();
    }
    let got = scan_records(&pages, cid);
    assert_eq!(got.len(), 26);
    let mut last: Option<(u16, u16)> = None;
    for (bytes, id) in &got {
        assert_eq!(id.container_id, cid);
        let pos = (id.page_id.unwrap(), id.slot_id.unwrap());
        if let Some(prev) = last {
            assert!(prev < pos);
        }
        last = Some(pos);
        assert_eq!(pages[pos.0 as usize].get_value(pos.1).unwrap(), *bytes);
    }
    let through_iterator = scan_from(&pages, HeapFileIterator::new(cid));
    assert_eq!(through_iterator.len(), got.len());
}

#[test]
fn insert_goes_to_first_page_with_room() {
    let cid = 2;
    let mut pages: Vec<Page> = Vec::new();
    let a = insert_value(&mut pages, cid, &vec![1u8; 3000]);
    let b = insert_value(&mut pages, cid, &vec![2u8; 3000]);
    assert_eq!((a.page_id, b.page_id), (Some(0), Some(1)));
    // fits in the space left on page 0
    let c = insert_value(&mut pages, cid, &vec![3u8; 500]);
    assert_eq!((c.page_id, c.slot_id), (Some(0), Some(1)));
    assert_eq!(pages[1].get_page_id(), 1);
}

#[test]
fn insert_too_large_for_a_page_appends_empty_page() {
    let mut pages: Vec<Page> = Vec::new();
    let id = insert_value(&mut pages, 1, &vec![0u8; PAGE_SIZE]);
    assert_eq!(id.page_id, Some(0));
    assert_eq!(id.slot_id, None);
    assert_eq!(pages.len(), 1);
    let id = insert_value(&mut pages, 1, &vec![0u8; PAGE_SIZE - 14]);
    assert_eq!((id.page_id, id.slot_id), (Some(0), Some(0)));
}

#[test]
fn container_map_saves_and_restores() {
    let mut m = ContainerMap::new();
    m.register(1, "dir/heapfile1".to_string());
    m.register(12, "dir/heapfile12".to_string());
    m.register(3, "a \"quoted\" path".to_string());
    let text = m.to_json().unwrap();
    assert_eq!(text, "{\"1\":\"dir/heapfile1\",\"3\":\"a \\\"quoted\\\" path\",\"12\":\"dir/heapfile12\"}");
    let back = ContainerMap::from_json(&text).unwrap();
    assert_eq!(back.path_of(1), Some("dir/heapfile1".to_string()));
    assert_eq!(back.path_of(3), Some("a \"quoted\" path".to_string()));
    assert_eq!(back.path_of(12), Some("dir/heapfile12".to_string()));
    assert_eq!(back.path_of(2), None);
}

#[test]
fn container_map_register_and_unregister() {
    let mut m = ContainerMap::new();
    m.register(5, "path5".to_string());
    assert_eq!(m.unregister(5), Some("path5".to_string()));
    assert_eq!(m.unregister(5), None);
    m.register(6, "path6".to_string());
    m.clear();
    assert_eq!(m.path_of(6), None);
    assert!(ContainerMap::from_json("not json").is_err());
}

#[test]
fn container_map_reads_keys_in_any_order() {
    let m = ContainerMap::from_json("{\"12\":\"b\",\"1\":\"a\"}").unwrap();
    assert_eq!(m.path_of(1), Some("a".to_string()));
    assert_eq!(m.path_of(12), Some("b".to_string()));
    assert!(ContainerMap::from_json("{\"x\":\"a\"}").is_err());
}
