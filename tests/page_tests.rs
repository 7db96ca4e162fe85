use heapstore::page::{Page, PAGE_SIZE};
use rand::Rng;

const FIXED_HEADER_SIZE: usize = 8;
const HEADER_PER_VAL_SIZE: usize = 6;

fn get_random_byte_vec(n: usize) -> Vec<u8> {
    let mut rng = rand::thread_rng();
    (0..n).map(|_| rng.gen::<u8>()).collect()
}

/// `n` byte vectors whose sizes lie in `[min, max]`, the i-th filled with byte `i`.
fn get_ascending_vec_of_byte_vec_02x(n: usize, min: usize, max: usize) -> Vec<Vec<u8>> {
    let mut rng = rand::thread_rng();
    (0..n)
        .map(|i| {
            let size = if min == max { min } else { rng.gen_range(min..=max) };
            vec![(i % 256) as u8; size]
        })
        .collect()
}

/// A stand-in for a serialized tuple of integers.
fn int_vec_to_bytes(v: Vec<i64>) -> Vec<u8> {
    let mut out = Vec::new();
    for x in v {
        out.extend_from_slice(&x.to_le_bytes());
    }
    out
}

fn collect_values(p: Page) -> Vec<(Vec<u8>, u16)> {
    let mut it = p.into_iter();
    let mut out = Vec::new();
    while let Some(x) = it.next() {
        out.push(x);
    }
    out
}

fn compare_unordered_byte_vecs(a: &[Vec<u8>], mut b: Vec<Vec<u8>>) -> bool {
    let mut a = a.to_vec();
    a.sort();
    b.sort();
    a == b
}

#[test]
fn hs_page_sizes_header_free_space() {
    let p = Page::new(0);
    assert_eq!(0, p.get_page_id());
    assert_eq!(PAGE_SIZE - p.get_header_size(), p.get_free_space());
}

#[test]
fn hs_page_debug_insert() {
    let mut p = Page::new(0);
    let n = 20;
    let size = 20;
    let vals = get_ascending_vec_of_byte_vec_02x(n, size, size);
    for x in &vals {
        p.add_value(x);
    }
    assert_eq!(p.get_free_space(), PAGE_SIZE - p.get_header_size() - n * size);
}

#[test]
fn hs_page_simple_insert() {
    let mut p = Page::new(5);
    let tuple_bytes = int_vec_to_bytes(vec![0, 1, 2]);
    let byte_len = tuple_bytes.len();
    assert_eq!(Some(0), p.add_value(&tuple_bytes));
    assert_eq!(PAGE_SIZE - byte_len - p.get_header_size(), p.get_free_space());
    let tuple_bytes2 = int_vec_to_bytes(vec![0, 1, 2]);
    assert_eq!(Some(1), p.add_value(&tuple_bytes2));
    assert_eq!(PAGE_SIZE - p.get_header_size() - byte_len - byte_len, p.get_free_space());
}

#[test]
fn hs_page_space() {
    let mut p = Page::new(0);
    let size = 10;
    let bytes = get_random_byte_vec(size);
    assert_eq!(10, bytes.len());
    assert_eq!(Some(0), p.add_value(&bytes));
    assert_eq!(PAGE_SIZE - p.get_header_size() - size, p.get_free_space());
    assert_eq!(Some(1), p.add_value(&bytes));
    assert_eq!(PAGE_SIZE - p.get_header_size() - size * 2, p.get_free_space());
    assert_eq!(Some(2), p.add_value(&bytes));
    assert_eq!(PAGE_SIZE - p.get_header_size() - size * 3, p.get_free_space());
}

#[test]
fn hs_page_get_value() {
    let mut p = Page::new(0);
    let tuple_bytes = int_vec_to_bytes(vec![0, 1, 2]);
    assert_eq!(Some(0), p.add_value(&tuple_bytes));
    let check_bytes = p.get_value(0).unwrap();
    assert_eq!(tuple_bytes, check_bytes);

    let tuple_bytes2 = int_vec_to_bytes(vec![3, 3, 3]);
    assert_eq!(Some(1), p.add_value(&tuple_bytes2));
    let check_bytes2 = p.get_value(1).unwrap();
    assert_eq!(tuple_bytes2, check_bytes2);

    // Recheck
    let check_bytes2 = p.get_value(1).unwrap();
    assert_eq!(tuple_bytes2, check_bytes2);
    let check_bytes = p.get_value(0).unwrap();
    assert_eq!(tuple_bytes, check_bytes);

    // An invalid slot gets None
    assert_eq!(None, p.get_value(2));
}

#[test]
fn hs_page_header_size_small() {
    let mut p = Page::new(0);
    assert!(p.get_header_size() <= FIXED_HEADER_SIZE);
    let bytes = get_random_byte_vec(10);
    assert_eq!(Some(0), p.add_value(&bytes));
    assert!(p.get_header_size() <= FIXED_HEADER_SIZE + HEADER_PER_VAL_SIZE);
    assert_eq!(Some(1), p.add_value(&bytes));
    assert_eq!(Some(2), p.add_value(&bytes));
    assert_eq!(Some(3), p.add_value(&bytes));
    assert!(p.get_header_size() <= FIXED_HEADER_SIZE + HEADER_PER_VAL_SIZE * 4);
}

#[test]
fn hs_page_header_size_full() {
    let mut p = Page::new(0);
    assert!(p.get_header_size() <= FIXED_HEADER_SIZE);
    let byte_size = 10;
    let bytes = get_random_byte_vec(byte_size);
    let num_vals: usize =
        (((PAGE_SIZE - FIXED_HEADER_SIZE) as f64 / (byte_size + HEADER_PER_VAL_SIZE) as f64).floor()) as usize;
    if PAGE_SIZE == 4096 && FIXED_HEADER_SIZE == 8 && HEADER_PER_VAL_SIZE == 6 {
        assert_eq!(255, num_vals);
    }
    for _ in 0..num_vals {
        p.add_value(&bytes);
    }
    assert!(p.get_header_size() <= FIXED_HEADER_SIZE + (num_vals * HEADER_PER_VAL_SIZE));
    assert!(
        p.get_free_space()
            >= PAGE_SIZE - (byte_size * num_vals) - FIXED_HEADER_SIZE - (num_vals * HEADER_PER_VAL_SIZE)
    );
}

#[test]
fn hs_page_no_space() {
    let mut p = Page::new(0);
    let size = PAGE_SIZE / 4;
    let bytes = get_random_byte_vec(size);
    assert_eq!(Some(0), p.add_value(&bytes));
    assert_eq!(PAGE_SIZE - p.get_header_size() - size, p.get_free_space());
    assert_eq!(Some(1), p.add_value(&bytes));
    assert_eq!(PAGE_SIZE - p.get_header_size() - size * 2, p.get_free_space());
    assert_eq!(Some(2), p.add_value(&bytes));
    assert_eq!(PAGE_SIZE - p.get_header_size() - size * 3, p.get_free_space());
    // Should reject here
    assert_eq!(None, p.add_value(&bytes));
    assert_eq!(PAGE_SIZE - p.get_header_size() - size * 3, p.get_free_space());
    // Take a small amount of data
    let small_bytes = get_random_byte_vec(size / 4);
    assert_eq!(Some(3), p.add_value(&small_bytes));
    assert_eq!(PAGE_SIZE - p.get_header_size() - size * 3 - small_bytes.len(), p.get_free_space());
}

#[test]
fn hs_page_simple_delete() {
    let mut p = Page::new(0);
    let tuple_bytes = int_vec_to_bytes(vec![0, 1, 2]);
    assert_eq!(Some(0), p.add_value(&tuple_bytes));
    let check_bytes = p.get_value(0).unwrap();
    assert_eq!(tuple_bytes, check_bytes);

    let tuple_bytes2 = int_vec_to_bytes(vec![3, 3, 3]);
    assert_eq!(Some(1), p.add_value(&tuple_bytes2));
    let check_bytes2 = p.get_value(1).unwrap();
    assert_eq!(tuple_bytes2, check_bytes2);

    // Delete slot 0
    assert_eq!(Some(()), p.delete_value(0));

    // Recheck slot 1
    let check_bytes2 = p.get_value(1).unwrap();
    assert_eq!(tuple_bytes2, check_bytes2);

    // Slot 0 is gone
    assert_eq!(None, p.get_value(0));

    // An invalid slot gets None
    assert_eq!(None, p.get_value(2));

    // Delete slot 1
    assert_eq!(Some(()), p.delete_value(1));

    // Slot 1 is gone
    assert_eq!(None, p.get_value(1));
}

#[test]
fn hs_page_delete_insert() {
    let mut p = Page::new(0);
    let tuple_bytes = get_random_byte_vec(20);
    let tuple_bytes2 = get_random_byte_vec(20);
    let tuple_bytes3 = get_random_byte_vec(20);
    let tuple_bytes4 = get_random_byte_vec(20);
    let tuple_bytes_big = get_random_byte_vec(40);
    let tuple_bytes_small1 = get_random_byte_vec(5);
    let tuple_bytes_small2 = get_random_byte_vec(5);

    // Add 3 values
    assert_eq!(Some(0), p.add_value(&tuple_bytes));
    let check_bytes = p.get_value(0).unwrap();
    assert_eq!(tuple_bytes, check_bytes);
    assert_eq!(Some(1), p.add_value(&tuple_bytes2));

    let check_bytes = p.get_value(1).unwrap();
    assert_eq!(tuple_bytes2, check_bytes);
    assert_eq!(Some(2), p.add_value(&tuple_bytes3));

    let check_bytes = p.get_value(2).unwrap();
    assert_eq!(tuple_bytes3, check_bytes);

    // Delete slot 1
    assert_eq!(Some(()), p.delete_value(1));
    // Slot 1 is gone
    assert_eq!(None, p.get_value(1));

    let check_bytes = p.get_value(0).unwrap();
    assert_eq!(tuple_bytes, check_bytes);
    let check_bytes = p.get_value(2).unwrap();
    assert_eq!(tuple_bytes3, check_bytes);

    // Insert same bytes, should go to slot 1
    assert_eq!(Some(1), p.add_value(&tuple_bytes4));

    let check_bytes = p.get_value(1).unwrap();
    assert_eq!(tuple_bytes4, check_bytes);

    // Delete 0
    assert_eq!(Some(()), p.delete_value(0));

    // Insert big, should go to slot 0 with space later in free block
    assert_eq!(Some(0), p.add_value(&tuple_bytes_big));

    // Insert small, should go to 3
    assert_eq!(Some(3), p.add_value(&tuple_bytes_small1));

    // Insert small, should go to new
    assert_eq!(Some(4), p.add_value(&tuple_bytes_small2));
}

#[test]
fn hs_page_size() {
    let mut p = Page::new(2);
    let tuple_bytes = int_vec_to_bytes(vec![0, 1, 2]);
    assert_eq!(Some(0), p.add_value(&tuple_bytes));

    let page_bytes = p.to_bytes();
    assert_eq!(PAGE_SIZE, page_bytes.len());
}

#[test]
fn hs_page_simple_byte_serialize() {
    let mut p = Page::new(0);
    let tuple_bytes = int_vec_to_bytes(vec![0, 1, 2]);
    assert_eq!(Some(0), p.add_value(&tuple_bytes));
    let tuple_bytes2 = int_vec_to_bytes(vec![3, 3, 3]);
    assert_eq!(Some(1), p.add_value(&tuple_bytes2));

    // Get bytes and create from bytes
    let mut page_c = Page::from_bytes(&p.to_bytes()).unwrap();
    assert_eq!(0, page_c.get_page_id());

    // Check reads
    let check_bytes2 = page_c.get_value(1).unwrap();
    assert_eq!(tuple_bytes2, check_bytes2);
    let check_bytes = page_c.get_value(0).unwrap();
    assert_eq!(tuple_bytes, check_bytes);

    // Add a new tuple to the new page
    let tuple_bytes3 = int_vec_to_bytes(vec![4, 3, 2]);
    assert_eq!(Some(2), page_c.add_value(&tuple_bytes3));
    assert_eq!(tuple_bytes3, page_c.get_value(2).unwrap());
    assert_eq!(tuple_bytes2, page_c.get_value(1).unwrap());
    assert_eq!(tuple_bytes, page_c.get_value(0).unwrap());
}

#[test]
fn hs_page_serialization_is_deterministic() {
    // Create a page and serialize it
    let mut page_a = Page::new(0);
    let bytes = get_random_byte_vec(100);
    page_a.add_value(&bytes);
    let bytes = get_random_byte_vec(100);
    page_a.add_value(&bytes);
    let bytes = get_random_byte_vec(100);
    page_a.add_value(&bytes);
    let first_bytes = page_a.to_bytes();

    // Reconstruct the page
    let page_b = Page::from_bytes(&first_bytes).unwrap();
    let second_bytes = page_b.to_bytes();

    // The two pages serialize identically
    assert_eq!(first_bytes, second_bytes);
}

#[test]
fn hs_page_iter() {
    let mut p = Page::new(0);
    let tuple_bytes = int_vec_to_bytes(vec![0, 0, 1]);
    assert_eq!(Some(0), p.add_value(&tuple_bytes));

    let tuple_bytes2 = int_vec_to_bytes(vec![0, 0, 2]);
    assert_eq!(Some(1), p.add_value(&tuple_bytes2));

    let tuple_bytes3 = int_vec_to_bytes(vec![0, 0, 3]);
    assert_eq!(Some(2), p.add_value(&tuple_bytes3));

    let tuple_bytes4 = int_vec_to_bytes(vec![0, 0, 4]);
    assert_eq!(Some(3), p.add_value(&tuple_bytes4));

    let tup_vec = vec![tuple_bytes.clone(), tuple_bytes2.clone(), tuple_bytes3.clone(), tuple_bytes4.clone()];
    let page_bytes = p.to_bytes();

    // Iteration 1
    let mut iter = p.into_iter();
    assert_eq!(Some((tuple_bytes.clone(), 0)), iter.next());
    assert_eq!(Some((tuple_bytes2.clone(), 1)), iter.next());
    assert_eq!(Some((tuple_bytes3.clone(), 2)), iter.next());
    assert_eq!(Some((tuple_bytes4.clone(), 3)), iter.next());
    assert_eq!(None, iter.next());

    // Check another way
    let p = Page::from_bytes(&page_bytes).unwrap();
    assert_eq!(Some(tuple_bytes.clone()), p.get_value(0));

    for (i, x) in collect_values(p).into_iter().enumerate() {
        assert_eq!(tup_vec[i], x.0);
    }

    let p = Page::from_bytes(&page_bytes).unwrap();
    let count = collect_values(p).len();
    assert_eq!(count, 4);

    // Add a value and check
    let mut p = Page::from_bytes(&page_bytes).unwrap();
    assert_eq!(Some(4), p.add_value(&tuple_bytes));
    // Get the updated bytes
    let page_bytes = p.to_bytes();
    let count = collect_values(p).len();
    assert_eq!(count, 5);

    // Delete
    let mut p = Page::from_bytes(&page_bytes).unwrap();
    p.delete_value(2);
    let mut iter = p.into_iter();
    assert_eq!(Some((tuple_bytes.clone(), 0)), iter.next());
    assert_eq!(Some((tuple_bytes2.clone(), 1)), iter.next());
    assert_eq!(Some((tuple_bytes4.clone(), 3)), iter.next());
    assert_eq!(Some((tuple_bytes.clone(), 4)), iter.next());
    assert_eq!(None, iter.next());
}

#[test]
fn hs_page_test_delete_reclaim_same_size() {
    let size = 800;
    let values = get_ascending_vec_of_byte_vec_02x(6, size, size);
    let mut p = Page::new(0);
    assert_eq!(Some(0), p.add_value(&values[0]));
    assert_eq!(Some(1), p.add_value(&values[1]));
    assert_eq!(Some(2), p.add_value(&values[2]));
    assert_eq!(Some(3), p.add_value(&values[3]));
    assert_eq!(Some(4), p.add_value(&values[4]));
    assert_eq!(values[0], p.get_value(0).unwrap());
    assert_eq!(None, p.add_value(&values[0]));
    assert_eq!(Some(()), p.delete_value(1));
    assert_eq!(None, p.get_value(1));
    assert_eq!(Some(1), p.add_value(&values[5]));
    assert_eq!(values[5], p.get_value(1).unwrap());
}

#[test]
fn hs_page_test_delete_reclaim_larger_size() {
    let size = 500;
    let values = get_ascending_vec_of_byte_vec_02x(8, size, size);
    let larger_val = get_random_byte_vec(size * 2 - 20);
    let mut p = Page::new(0);
    assert_eq!(Some(0), p.add_value(&values[0]));
    assert_eq!(Some(1), p.add_value(&values[1]));
    assert_eq!(Some(2), p.add_value(&values[2]));
    assert_eq!(Some(3), p.add_value(&values[3]));
    assert_eq!(Some(4), p.add_value(&values[4]));
    assert_eq!(Some(5), p.add_value(&values[5]));
    assert_eq!(Some(6), p.add_value(&values[6]));
    assert_eq!(Some(7), p.add_value(&values[7]));
    assert_eq!(values[5], p.get_value(5).unwrap());
    assert_eq!(None, p.add_value(&values[0]));
    assert_eq!(Some(()), p.delete_value(1));
    assert_eq!(None, p.get_value(1));
    assert_eq!(Some(()), p.delete_value(6));
    assert_eq!(None, p.get_value(6));
    assert_eq!(Some(1), p.add_value(&larger_val));
    assert_eq!(larger_val, p.get_value(1).unwrap());
}

#[test]
fn hs_page_test_delete_reclaim_smaller_size() {
    let size = 800;
    let values = vec![
        get_random_byte_vec(size),
        get_random_byte_vec(size),
        get_random_byte_vec(size),
        get_random_byte_vec(size),
        get_random_byte_vec(size),
        get_random_byte_vec(size / 4),
    ];
    let mut p = Page::new(0);
    assert_eq!(Some(0), p.add_value(&values[0]));
    assert_eq!(Some(1), p.add_value(&values[1]));
    assert_eq!(Some(2), p.add_value(&values[2]));
    assert_eq!(Some(3), p.add_value(&values[3]));
    assert_eq!(Some(4), p.add_value(&values[4]));
    assert_eq!(values[0], p.get_value(0).unwrap());
    assert_eq!(None, p.add_value(&values[0]));
    assert_eq!(Some(()), p.delete_value(1));
    assert_eq!(None, p.get_value(1));
    assert_eq!(Some(1), p.add_value(&values[5]));
    assert_eq!(values[5], p.get_value(1).unwrap());
}

#[test]
fn hs_page_test_multi_ser() {
    let size = 500;
    let values = vec![
        get_random_byte_vec(size),
        get_random_byte_vec(size),
        get_random_byte_vec(size),
        get_random_byte_vec(size),
        get_random_byte_vec(size),
        get_random_byte_vec(size),
        get_random_byte_vec(size),
        get_random_byte_vec(size),
    ];
    let mut p = Page::new(0);
    assert_eq!(Some(0), p.add_value(&values[0]));
    assert_eq!(Some(1), p.add_value(&values[1]));
    assert_eq!(Some(2), p.add_value(&values[2]));
    let mut page_c = Page::from_bytes(&p.to_bytes()).unwrap();
    assert_eq!(values[0], page_c.get_value(0).unwrap());
    assert_eq!(values[1], page_c.get_value(1).unwrap());
    assert_eq!(values[2], page_c.get_value(2).unwrap());
    assert_eq!(Some(3), page_c.add_value(&values[3]));
    assert_eq!(Some(4), page_c.add_value(&values[4]));

    let mut page_d = Page::from_bytes(&page_c.to_bytes()).unwrap();
    assert_eq!(values[0], page_d.get_value(0).unwrap());
    assert_eq!(values[1], page_d.get_value(1).unwrap());
    assert_eq!(values[2], page_d.get_value(2).unwrap());
    assert_eq!(values[3], page_d.get_value(3).unwrap());
    assert_eq!(values[4], page_d.get_value(4).unwrap());
    assert_eq!(Some(5), page_d.add_value(&values[5]));
    assert_eq!(Some(6), page_d.add_value(&values[6]));
    assert_eq!(Some(7), page_d.add_value(&values[7]));
    assert_eq!(None, page_d.add_value(&values[0]));

    let page_e = Page::from_bytes(&page_d.to_bytes()).unwrap();
    assert_eq!(values[0], page_e.get_value(0).unwrap());
    assert_eq!(values[1], page_e.get_value(1).unwrap());
    assert_eq!(values[2], page_e.get_value(2).unwrap());
    assert_eq!(values[7], page_e.get_value(7).unwrap());
}

#[test]
fn hs_page_stress_test() {
    let mut p = Page::new(23);
    let mut original_vals: std::collections::VecDeque<Vec<u8>> =
        get_ascending_vec_of_byte_vec_02x(300, 20, 100).into_iter().collect();
    let mut stored_vals: Vec<Vec<u8>> = Vec::new();
    let mut stored_slots: Vec<u16> = Vec::new();
    let mut has_space = true;
    let mut rng = rand::thread_rng();

    // Load up the page until full
    while has_space {
        let bytes = original_vals.pop_front().expect("ran out of data -- shouldn't happen");
        match p.add_value(&bytes) {
            Some(slot_id) => {
                stored_vals.push(bytes);
                stored_slots.push(slot_id);
            }
            None => {
                original_vals.push_front(bytes);
                has_space = false;
            }
        };
    }

    let check_vals: Vec<Vec<u8>> = collect_values(p.clone()).into_iter().map(|(a, _)| a).collect();
    assert!(compare_unordered_byte_vecs(&stored_vals, check_vals));
    // Delete and add the remaining values until all have gone through the page.
    while !original_vals.is_empty() {
        let bytes = original_vals.pop_front().unwrap();
        let mut added = false;
        while !added {
            match p.add_value(&bytes) {
                Some(new_slot) => {
                    stored_slots.push(new_slot);
                    stored_vals.push(bytes.clone());
                    let check_vals: Vec<Vec<u8>> = collect_values(p.clone()).into_iter().map(|(a, _)| a).collect();
                    assert!(compare_unordered_byte_vecs(&stored_vals, check_vals));
                    added = true;
                }
                None => {
                    // Delete a random value and try again
                    let random_idx = rng.gen_range(0..stored_slots.len());
                    let value_id_to_del = stored_slots.remove(random_idx);
                    stored_vals.remove(random_idx);
                    p.delete_value(value_id_to_del).expect("Error deleting slot_id");
                }
            }
        }
    }
}

#[test]
fn free_space_tracks_first_offset_and_directory() {
    let mut p = Page::new(1);
    for size in [10usize, 0, 33, 7] {
        p.add_value(&vec![9u8; size]);
        assert_eq!(p.get_free_space(), p.get_first_offset() as usize - (8 + 6 * p.get_total_slot_headers() as usize));
    }
    p.delete_value(1);
    p.delete_value(0);
    assert_eq!(p.get_free_space(), p.get_first_offset() as usize - (8 + 6 * 4));
    assert_eq!(p.get_first_offset() as usize, PAGE_SIZE - 40);
    assert_eq!(p.get_num_slots(), 2);
}

#[test]
fn deleted_slot_reused_only_when_smallest() {
    let mut p = Page::new(0);
    for _ in 0..4 {
        p.add_value(&[1, 2, 3]);
    }
    assert_eq!(Some(()), p.delete_value(2));
    assert_eq!(Some(()), p.delete_value(1));
    // 1 is the smallest missing id, so deleting 2 then adding does not give 2
    assert_eq!(Some(1), p.add_value(&[4]));
    assert_eq!(Some(2), p.add_value(&[5]));
    assert_eq!(Some(4), p.add_value(&[6]));
}

#[test]
fn delete_missing_slot_is_none() {
    let mut p = Page::new(0);
    assert_eq!(None, p.delete_value(0));
    p.add_value(&[1]);
    assert_eq!(None, p.delete_value(7));
    assert_eq!(Some(()), p.delete_value(0));
    assert_eq!(None, p.delete_value(0));
}

#[test]
fn empty_page_image_layout() {
    let p = Page::new(0x0102);
    let b = p.to_bytes();
    assert_eq!(b.len(), PAGE_SIZE);
    // page id, live slots, first free offset (0 stands for the page end), entries
    assert_eq!(&b[0..8], &[0x02, 0x01, 0, 0, 0, 0, 0, 0]);
    assert!(b[8..].iter().all(|x| *x == 0));
}

#[test]
fn page_image_layout_after_insert_and_delete() {
    let mut p = Page::new(3);
    p.add_value(&[0xaa, 0xbb]);
    p.add_value(&[0xcc]);
    let b = p.to_bytes();
    assert_eq!(&b[0..8], &[3, 0, 2, 0, 0xfd, 0x0f, 2, 0]);
    // entry 0: slot 0, size 2, offset 4096; entry 1: slot 1, size 1, offset 4094
    assert_eq!(&b[8..20], &[0, 0, 2, 0, 0x00, 0x10, 1, 0, 1, 0, 0xfe, 0x0f]);
    assert_eq!(&b[4093..4096], &[0xcc, 0xaa, 0xbb]);
    p.delete_value(0);
    let b = p.to_bytes();
    assert_eq!(&b[0..8], &[3, 0, 1, 0, 0xff, 0x0f, 2, 0]);
    assert_eq!(&b[8..20], &[0, 0, 0, 0, 0, 0, 1, 0, 1, 0, 0x00, 0x10]);
    assert_eq!(&b[4093..4096], &[0, 0, 0xcc]);
}

#[test]
fn from_bytes_rejects_malformed_images() {
    let mut p = Page::new(0);
    p.add_value(&[1, 2, 3]);
    let good = p.to_bytes();
    assert!(Page::from_bytes(&good[..100]).is_none());
    let mut bad = good.clone();
    bad[12] = 0x01; // entry offset no longer matches the packed layout
    assert!(Page::from_bytes(&bad).is_none());
    let mut bad = good.clone();
    bad[2] = 5; // live slot count wrong
    assert!(Page::from_bytes(&bad).is_none());
}
