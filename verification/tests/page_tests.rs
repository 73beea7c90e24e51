use heapstore::page::Page;
use heapstore::PAGE_SIZE;

/// Limits on how many bytes the page may use for its header.
const FIXED_HEADER_SIZE: usize = 8;
const HEADER_PER_VAL_SIZE: usize = 6;

/// Deterministic pseudo-random bytes of length `n`, a different run for each `seed`.
fn byte_vec(n: usize, seed: u64) -> Vec<u8> {
    let mut state = seed.wrapping_mul(6364136223846793005).wrapping_add(1442695040888963407);
    let mut out = Vec::with_capacity(n);
    for _ in 0..n {
        state = state.wrapping_mul(6364136223846793005).wrapping_add(1442695040888963407);
        out.push((state >> 33) as u8);
    }
    out
}

/// Encodes a tuple of integers: a count, then each integer in little-endian order.
fn int_vec_to_bytes(vals: Vec<i32>) -> Vec<u8> {
    let mut out = vec![vals.len() as u8];
    for v in vals {
        out.extend_from_slice(&v.to_le_bytes());
    }
    out
}

/// Decodes what `int_vec_to_bytes` encoded.
fn bytes_to_int_vec(bytes: &[u8]) -> Vec<i32> {
    let n = bytes[0] as usize;
    (0..n)
        .map(|i| i32::from_le_bytes(bytes[1 + 4 * i..5 + 4 * i].try_into().unwrap()))
        .collect()
}

#[test]
fn hs_page_create() {
    let p = Page::new(0);
    assert_eq!(0, p.get_page_id());
    assert_eq!(PAGE_SIZE - p.get_header_size(), p.get_largest_free_contiguous_space());
}

#[test]
fn hs_page_simple_insert() {
    let mut p = Page::new(0);
    let tuple_bytes = int_vec_to_bytes(vec![0, 1, 2]);
    let byte_len = tuple_bytes.len();
    assert_eq!(Some(0), p.add_value(&tuple_bytes));
    assert_eq!(
        PAGE_SIZE - byte_len - p.get_header_size(),
        p.get_largest_free_contiguous_space()
    );
    let tuple_bytes2 = int_vec_to_bytes(vec![0, 1, 2]);
    assert_eq!(Some(1), p.add_value(&tuple_bytes2));
    assert_eq!(
        PAGE_SIZE - p.get_header_size() - byte_len - byte_len,
        p.get_largest_free_contiguous_space()
    );
}

#[test]
fn hs_page_space() {
    let mut p = Page::new(0);
    let size = 10;
    let bytes = byte_vec(size, 1);
    assert_eq!(10, bytes.len());
    assert_eq!(Some(0), p.add_value(&bytes));
    assert_eq!(PAGE_SIZE - p.get_header_size() - size, p.get_largest_free_contiguous_space());
    assert_eq!(Some(1), p.add_value(&bytes));
    assert_eq!(PAGE_SIZE - p.get_header_size() - size * 2, p.get_largest_free_contiguous_space());
    assert_eq!(Some(2), p.add_value(&bytes));
    assert_eq!(PAGE_SIZE - p.get_header_size() - size * 3, p.get_largest_free_contiguous_space());
}

#[test]
fn hs_page_get_value() {
    let mut p = Page::new(0);
    let tuple = vec![0, 1, 2];
    let tuple_bytes = int_vec_to_bytes(tuple.clone());
    assert_eq!(Some(0), p.add_value(&tuple_bytes));
    let check_bytes = p.get_value(0).unwrap();
    let check_tuple = bytes_to_int_vec(&check_bytes);
    assert_eq!(tuple_bytes, check_bytes);
    assert_eq!(tuple, check_tuple);

    let tuple2 = vec![3, 3, 3];
    let tuple_bytes2 = int_vec_to_bytes(tuple2.clone());
    assert_eq!(Some(1), p.add_value(&tuple_bytes2));
    let check_bytes2 = p.get_value(1).unwrap();
    let check_tuple2 = bytes_to_int_vec(&check_bytes2);
    assert_eq!(tuple_bytes2, check_bytes2);
    assert_eq!(tuple2, check_tuple2);

    // Recheck
    let check_bytes2 = p.get_value(1).unwrap();
    let check_tuple2 = bytes_to_int_vec(&check_bytes2);
    assert_eq!(tuple_bytes2, check_bytes2);
    assert_eq!(tuple2, check_tuple2);
    let check_bytes = p.get_value(0).unwrap();
    let check_tuple = bytes_to_int_vec(&check_bytes);
    assert_eq!(tuple_bytes, check_bytes);
    assert_eq!(tuple, check_tuple);

    // Check that invalid slot gets None
    assert_eq!(None, p.get_value(2));
}

#[test]
fn hs_page_header_size_small() {
    // The header is no more than 8 bytes, and 6 bytes per value inserted
    let mut p = Page::new(0);
    assert!(p.get_header_size() <= FIXED_HEADER_SIZE);
    let bytes = byte_vec(10, 2);
    assert_eq!(Some(0), p.add_value(&bytes));
    assert!(p.get_header_size() <= FIXED_HEADER_SIZE + HEADER_PER_VAL_SIZE);
    assert_eq!(Some(1), p.add_value(&bytes));
    assert_eq!(Some(2), p.add_value(&bytes));
    assert_eq!(Some(3), p.add_value(&bytes));
    assert!(p.get_header_size() <= FIXED_HEADER_SIZE + HEADER_PER_VAL_SIZE * 4);
}

#[test]
fn hs_page_header_size_full() {
    // The header is no more than 8 bytes, and 6 bytes per value inserted
    let mut p = Page::new(0);
    assert!(p.get_header_size() <= FIXED_HEADER_SIZE);
    let byte_size = 10;
    let bytes = byte_vec(byte_size, 3);
    // how many vals can we hold with 8 bytes
    let num_vals: usize = (((PAGE_SIZE - FIXED_HEADER_SIZE) as f64
        / (byte_size + HEADER_PER_VAL_SIZE) as f64)
        .floor()) as usize;
    if PAGE_SIZE == 4096 && FIXED_HEADER_SIZE == 8 && HEADER_PER_VAL_SIZE == 6 {
        assert_eq!(255, num_vals);
    }
    for _ in 0..num_vals {
        p.add_value(&bytes);
    }
    assert!(p.get_header_size() <= FIXED_HEADER_SIZE + (num_vals * HEADER_PER_VAL_SIZE));
    assert!(
        p.get_largest_free_contiguous_space()
            >= PAGE_SIZE
                - (byte_size * num_vals)
                - FIXED_HEADER_SIZE
                - (num_vals * HEADER_PER_VAL_SIZE)
    );
}

#[test]
fn hs_page_no_space() {
    let mut p = Page::new(0);
    let size = PAGE_SIZE / 4;
    let bytes = byte_vec(size, 4);
    assert_eq!(Some(0), p.add_value(&bytes));
    assert_eq!(PAGE_SIZE - p.get_header_size() - size, p.get_largest_free_contiguous_space());
    assert_eq!(Some(1), p.add_value(&bytes));
    assert_eq!(PAGE_SIZE - p.get_header_size() - size * 2, p.get_largest_free_contiguous_space());
    assert_eq!(Some(2), p.add_value(&bytes));
    assert_eq!(PAGE_SIZE - p.get_header_size() - size * 3, p.get_largest_free_contiguous_space());
    // Should reject here
    assert_eq!(None, p.add_value(&bytes));
    assert_eq!(PAGE_SIZE - p.get_header_size() - size * 3, p.get_largest_free_contiguous_space());
    // Take small amount of data
    let small_bytes = byte_vec(size / 4, 5);
    assert_eq!(Some(3), p.add_value(&small_bytes));
    assert_eq!(
        PAGE_SIZE - p.get_header_size() - size * 3 - small_bytes.len(),
        p.get_largest_free_contiguous_space()
    );
}

#[test]
fn hs_page_simple_delete() {
    let mut p = Page::new(0);
    let tuple = vec![0, 1, 2];
    let tuple_bytes = int_vec_to_bytes(tuple.clone());
    assert_eq!(Some(0), p.add_value(&tuple_bytes));
    let check_bytes = p.get_value(0).unwrap();
    let check_tuple = bytes_to_int_vec(&check_bytes);
    assert_eq!(tuple_bytes, check_bytes);
    assert_eq!(tuple, check_tuple);

    let tuple2 = vec![3, 3, 3];
    let tuple_bytes2 = int_vec_to_bytes(tuple2.clone());
    assert_eq!(Some(1), p.add_value(&tuple_bytes2));
    let check_bytes2 = p.get_value(1).unwrap();
    let check_tuple2 = bytes_to_int_vec(&check_bytes2);
    assert_eq!(tuple_bytes2, check_bytes2);
    assert_eq!(tuple2, check_tuple2);

    // Delete slot 0
    assert_eq!(Some(()), p.delete_value(0));

    // Recheck slot 1
    let check_bytes2 = p.get_value(1).unwrap();
    let check_tuple2 = bytes_to_int_vec(&check_bytes2);
    assert_eq!(tuple_bytes2, check_bytes2);
    assert_eq!(tuple2, check_tuple2);

    // Verify slot 0 is gone
    assert_eq!(None, p.get_value(0));
    // Check that invalid slot gets None
    assert_eq!(None, p.get_value(2));

    // Delete slot 1
    assert_eq!(Some(()), p.delete_value(1));

    // Verify slot 1 is gone
    assert_eq!(None, p.get_value(1));
}

#[test]
fn hs_page_get_first_free_space() {
    let _p = Page::new(0);
    let _b1 = byte_vec(100, 6);
    let _b2 = byte_vec(50, 7);
}

#[test]
fn hs_page_delete_insert() {
    let mut p = Page::new(0);
    let tuple_bytes = byte_vec(20, 8);
    let tuple_bytes2 = byte_vec(20, 9);
    let tuple_bytes3 = byte_vec(20, 10);
    let tuple_bytes4 = byte_vec(20, 11);
    let tuple_bytes_big = byte_vec(40, 12);
    let tuple_bytes_small1 = byte_vec(5, 13);
    let tuple_bytes_small2 = byte_vec(5, 14);

    // Add 3 values
    assert_eq!(Some(0), p.add_value(&tuple_bytes));
    let check_bytes = p.get_value(0).unwrap();
    assert_eq!(tuple_bytes, check_bytes);
    assert_eq!(Some(1), p.add_value(&tuple_bytes2));

    let check_bytes = p.get_value(1).unwrap();
    assert_eq!(tuple_bytes2, check_bytes);
    assert_eq!(Some(2), p.add_value(&tuple_bytes3));

    let check_bytes = p.get_value(2).unwrap();
    assert_eq!(tuple_bytes3, check_bytes);

    // Delete slot 1
    assert_eq!(Some(()), p.delete_value(1));

    // Verify slot 1 is gone
    assert_eq!(None, p.get_value(1));

    let check_bytes = p.get_value(0).unwrap();
    assert_eq!(tuple_bytes, check_bytes);
    let check_bytes = p.get_value(2).unwrap();
    assert_eq!(tuple_bytes3, check_bytes);

    // Insert same bytes, should go to slot 1
    assert_eq!(Some(1), p.add_value(&tuple_bytes4));

    let check_bytes = p.get_value(1).unwrap();
    assert_eq!(tuple_bytes4, check_bytes);

    // Delete 0
    assert_eq!(Some(()), p.delete_value(0));

    // Insert big, should go to slot 0 with space later in free block
    assert_eq!(Some(0), p.add_value(&tuple_bytes_big));

    // Insert small, should go to 3
    assert_eq!(Some(3), p.add_value(&tuple_bytes_small1));
    // Insert small, should go to new
    assert_eq!(Some(4), p.add_value(&tuple_bytes_small2));
}

#[test]
fn hs_page_size() {
    let mut p = Page::new(2);
    let tuple_bytes = int_vec_to_bytes(vec![0, 1, 2]);
    assert_eq!(Some(0), p.add_value(&tuple_bytes));

    let page_bytes = p.get_bytes();
    assert_eq!(PAGE_SIZE, page_bytes.len());
}

#[test]
fn hs_page_simple_byte_serialize() {
    let mut p = Page::new(0);
    let tuple = vec![0, 1, 2];
    let tuple_bytes = int_vec_to_bytes(tuple.clone());
    assert_eq!(Some(0), p.add_value(&tuple_bytes));
    let tuple2 = vec![3, 3, 3];
    let tuple_bytes2 = int_vec_to_bytes(tuple2.clone());
    assert_eq!(Some(1), p.add_value(&tuple_bytes2));
    // Get bytes and create from bytes
    let bytes = p.get_bytes();
    let mut p2 = Page::from_bytes(&bytes);
    assert_eq!(0, p2.get_page_id());

    // Check reads
    let check_bytes2 = p2.get_value(1).unwrap();
    let check_tuple2 = bytes_to_int_vec(&check_bytes2);
    assert_eq!(tuple_bytes2, check_bytes2);
    assert_eq!(tuple2, check_tuple2);
    let check_bytes = p2.get_value(0).unwrap();
    let check_tuple = bytes_to_int_vec(&check_bytes);
    assert_eq!(tuple_bytes, check_bytes);
    assert_eq!(tuple, check_tuple);

    // Add a new tuple to the new page
    let tuple_bytes3 = int_vec_to_bytes(vec![4, 3, 2]);
    assert_eq!(Some(2), p2.add_value(&tuple_bytes3));
    assert_eq!(tuple_bytes3, p2.get_value(2).unwrap());
    assert_eq!(tuple_bytes2, p2.get_value(1).unwrap());
    assert_eq!(tuple_bytes, p2.get_value(0).unwrap());
}

#[test]
fn hs_page_iter() {
    let mut p = Page::new(0);
    let tuple_bytes = int_vec_to_bytes(vec![0, 0, 1]);
    assert_eq!(Some(0), p.add_value(&tuple_bytes));

    let tuple_bytes2 = int_vec_to_bytes(vec![0, 0, 2]);
    assert_eq!(Some(1), p.add_value(&tuple_bytes2));

    let tuple_bytes3 = int_vec_to_bytes(vec![0, 0, 3]);
    assert_eq!(Some(2), p.add_value(&tuple_bytes3));

    let tuple_bytes4 = int_vec_to_bytes(vec![0, 0, 4]);
    assert_eq!(Some(3), p.add_value(&tuple_bytes4));

    let tup_vec = vec![
        tuple_bytes.clone(),
        tuple_bytes2.clone(),
        tuple_bytes3.clone(),
        tuple_bytes4.clone(),
    ];
    let page_bytes = p.get_bytes();

    // Test iteration 1
    let mut iter = p.into_iter();
    assert_eq!(Some(tuple_bytes.clone()), iter.next());
    assert_eq!(Some(tuple_bytes2.clone()), iter.next());
    assert_eq!(Some(tuple_bytes3.clone()), iter.next());
    assert_eq!(Some(tuple_bytes4.clone()), iter.next());
    assert_eq!(None, iter.next());

    // Check another way
    let p = Page::from_bytes(&page_bytes);
    assert_eq!(Some(tuple_bytes.clone()), p.get_value(0));

    let mut iter = p.into_iter();
    let mut i = 0;
    while let Some(x) = iter.next() {
        assert_eq!(tup_vec[i], x);
        i += 1;
    }

    let p = Page::from_bytes(&page_bytes);
    let mut count = 0;
    let mut iter = p.into_iter();
    while iter.next().is_some() {
        count += 1;
    }
    assert_eq!(count, 4);

    // Add a value and check
    let mut p = Page::from_bytes(&page_bytes);
    assert_eq!(Some(4), p.add_value(&tuple_bytes));
    // get the updated bytes
    let page_bytes = p.get_bytes();
    count = 0;
    let mut iter = p.into_iter();
    while iter.next().is_some() {
        count += 1;
    }
    assert_eq!(count, 5);

    // Delete
    let mut p = Page::from_bytes(&page_bytes);
    p.delete_value(2);
    let mut iter = p.into_iter();
    assert_eq!(Some(tuple_bytes.clone()), iter.next());
    assert_eq!(Some(tuple_bytes2.clone()), iter.next());
    assert_eq!(Some(tuple_bytes4.clone()), iter.next());
    assert_eq!(Some(tuple_bytes.clone()), iter.next());
    assert_eq!(None, iter.next());
}
