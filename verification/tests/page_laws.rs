use heapstore::page::Page;
use heapstore::PAGE_SIZE;

fn filled(n: usize, b: u8) -> Vec<u8> {
    vec![b; n]
}

fn live_values(p: Page) -> Vec<Vec<u8>> {
    let mut out = Vec::new();
    let mut iter = p.into_iter();
    while let Some(v) = iter.next() {
        out.push(v);
    }
    out
}

#[test]
fn add_then_get_leaves_other_slots() {
    let mut p = Page::new(3);
    let a = filled(7, 1);
    let b = filled(9, 2);
    let c = filled(3, 3);
    assert_eq!(Some(0), p.add_value(&a));
    assert_eq!(Some(1), p.add_value(&b));
    assert_eq!(Some(2), p.add_value(&c));
    assert_eq!(Some(a), p.get_value(0));
    assert_eq!(Some(b), p.get_value(1));
    assert_eq!(Some(c), p.get_value(2));
    assert_eq!(None, p.get_value(3));
    assert_eq!(None, p.get_value(u16::MAX));
}

#[test]
fn new_slot_costs_value_and_four_header_bytes() {
    let mut p = Page::new(0);
    assert_eq!(8, p.get_header_size());
    assert_eq!(PAGE_SIZE - 8, p.get_largest_free_contiguous_space());
    let before = p.get_largest_free_contiguous_space();
    assert_eq!(Some(0), p.add_value(&filled(100, 9)));
    assert_eq!(12, p.get_header_size());
    assert_eq!(before - 100 - 4, p.get_largest_free_contiguous_space());
}

#[test]
fn empty_value_is_stored() {
    let mut p = Page::new(0);
    assert_eq!(Some(0), p.add_value(&[]));
    assert_eq!(Some(1), p.add_value(&[5]));
    assert_eq!(Some(vec![]), p.get_value(0));
    assert_eq!(Some(vec![5]), p.get_value(1));
}

#[test]
fn rejected_add_changes_nothing() {
    let mut p = Page::new(0);
    // 8 bytes of fixed header and 6 reserved for the slot leave PAGE_SIZE - 14.
    assert_eq!(None, p.add_value(&filled(PAGE_SIZE - 13, 1)));
    assert_eq!(8, p.get_header_size());
    let before = p.get_bytes();
    assert_eq!(None, p.add_value(&filled(PAGE_SIZE, 1)));
    assert_eq!(before, p.get_bytes());
    assert_eq!(Some(0), p.add_value(&filled(PAGE_SIZE - 14, 1)));
    assert_eq!(None, p.add_value(&[]));
    assert_eq!(Some(filled(PAGE_SIZE - 14, 1)), p.get_value(0));
}

#[test]
fn delete_only_live_slots() {
    let mut p = Page::new(0);
    assert_eq!(None, p.delete_value(0));
    assert_eq!(Some(0), p.add_value(&filled(4, 4)));
    assert!(!p.check_delete(0));
    assert_eq!(Some(()), p.delete_value(0));
    assert!(p.check_delete(0));
    assert_eq!(None, p.delete_value(0));
    assert_eq!(None, p.delete_value(1));
    assert_eq!(None, p.get_value(0));
    assert_eq!(14, p.get_header_size());
}

#[test]
fn deleted_slot_takes_next_value_in_place() {
    let mut p = Page::new(0);
    assert_eq!(Some(0), p.add_value(&filled(30, 1)));
    assert_eq!(Some(1), p.add_value(&filled(30, 2)));
    assert_eq!(Some(()), p.delete_value(0));
    let free = p.get_largest_free_contiguous_space();
    assert_eq!(Some(0), p.add_value(&filled(10, 3)));
    // The value went into the hole; only the deleted entry left the header.
    assert_eq!(free + 2, p.get_largest_free_contiguous_space());
    assert_eq!(Some(filled(10, 3)), p.get_value(0));
    assert_eq!(Some(filled(30, 2)), p.get_value(1));
}

#[test]
fn earliest_fitting_hole_is_chosen() {
    let mut p = Page::new(0);
    assert_eq!(Some(0), p.add_value(&filled(10, 1)));
    assert_eq!(Some(1), p.add_value(&filled(30, 2)));
    assert_eq!(Some(2), p.add_value(&filled(5, 3)));
    assert_eq!(Some(()), p.delete_value(0));
    assert_eq!(Some(()), p.delete_value(1));
    // Slot 0's hole is too small for 20 bytes; slot 1's holds them.
    assert_eq!(Some(1), p.add_value(&filled(20, 4)));
    assert_eq!(Some(0), p.add_value(&filled(8, 5)));
    assert_eq!(Some(3), p.add_value(&filled(1, 6)));
    assert_eq!(Some(filled(8, 5)), p.get_value(0));
    assert_eq!(Some(filled(20, 4)), p.get_value(1));
    assert_eq!(Some(filled(5, 3)), p.get_value(2));
    assert_eq!(Some(filled(1, 6)), p.get_value(3));
}

#[test]
fn deleted_slot_value_goes_to_free_space() {
    let mut p = Page::new(0);
    assert_eq!(Some(0), p.add_value(&filled(10, 1)));
    assert_eq!(Some(1), p.add_value(&filled(10, 2)));
    assert_eq!(Some(()), p.delete_value(0));
    let free = p.get_largest_free_contiguous_space();
    assert_eq!(Some(0), p.add_value(&filled(50, 3)));
    assert_eq!(free + 2 - 50, p.get_largest_free_contiguous_space());
    assert_eq!(Some(filled(50, 3)), p.get_value(0));
    assert_eq!(Some(filled(10, 2)), p.get_value(1));
}

#[test]
fn deleted_slot_without_room_is_refused() {
    let mut p = Page::new(0);
    assert_eq!(Some(0), p.add_value(&filled(10, 1)));
    assert_eq!(Some(1), p.add_value(&filled(PAGE_SIZE - 100, 2)));
    assert_eq!(Some(()), p.delete_value(0));
    assert_eq!(None, p.add_value(&filled(200, 3)));
    assert_eq!(None, p.get_value(0));
    assert!(p.check_delete(0));
}

#[test]
fn header_stays_within_budget() {
    let mut p = Page::new(0);
    for i in 0..50u8 {
        assert_eq!(Some(i as u16), p.add_value(&filled(i as usize, i)));
    }
    for s in (0..50u16).step_by(3) {
        assert_eq!(Some(()), p.delete_value(s));
    }
    assert!(p.get_header_size() <= 8 + 6 * 50);
    assert_eq!(8 + 4 * 50 + 2 * 17, p.get_header_size());
}

#[test]
fn bytes_roundtrip_with_deleted_slots() {
    let mut p = Page::new(42);
    assert_eq!(Some(0), p.add_value(&filled(10, 1)));
    assert_eq!(Some(1), p.add_value(&filled(20, 2)));
    assert_eq!(Some(2), p.add_value(&filled(30, 3)));
    assert_eq!(Some(()), p.delete_value(1));
    let bytes = p.get_bytes();
    assert_eq!(PAGE_SIZE, bytes.len());
    assert!(Page::is_page_bytes(&bytes));
    let mut q = Page::from_bytes(&bytes);
    assert_eq!(42, q.get_page_id());
    assert_eq!(bytes, q.get_bytes());
    assert_eq!(p.get_header_size(), q.get_header_size());
    assert_eq!(
        p.get_largest_free_contiguous_space(),
        q.get_largest_free_contiguous_space()
    );
    assert_eq!(Some(filled(10, 1)), q.get_value(0));
    assert_eq!(None, q.get_value(1));
    assert!(q.check_delete(1));
    assert_eq!(Some(filled(30, 3)), q.get_value(2));
    assert_eq!(Some(1), q.add_value(&filled(15, 4)));
    assert_eq!(Some(filled(15, 4)), q.get_value(1));
}

#[test]
fn header_layout_is_little_endian() {
    let mut p = Page::new(0x0102);
    assert_eq!(Some(0), p.add_value(&[7, 8, 9]));
    let bytes = p.get_bytes();
    assert_eq!(&bytes[0..8], &[0x02, 0x01, 0xfc, 0x0f, 1, 0, 0, 0]);
    // Slot 0: size 3, offset 4092 (the record holds bytes 4093..4096).
    assert_eq!(&bytes[8..12], &[3, 0, 0xfc, 0x0f]);
    assert_eq!(&bytes[PAGE_SIZE - 3..], &[7, 8, 9]);
}

#[test]
fn malformed_bytes_are_refused() {
    let mut p = Page::new(1);
    assert_eq!(Some(0), p.add_value(&filled(10, 1)));
    assert_eq!(Some(1), p.add_value(&filled(10, 2)));
    let good = p.get_bytes();
    assert!(Page::is_page_bytes(&good));

    assert!(!Page::is_page_bytes(&good[..PAGE_SIZE - 1]));
    assert!(!Page::is_page_bytes(&[]));

    // Too many slots for the offset.
    let mut bad = good.clone();
    bad[4] = 0xff;
    bad[5] = 0xff;
    assert!(!Page::is_page_bytes(&bad));

    // A deleted slot id that does not exist.
    let mut p2 = Page::new(1);
    assert_eq!(Some(0), p2.add_value(&filled(10, 1)));
    assert_eq!(Some(1), p2.add_value(&filled(10, 2)));
    assert_eq!(Some(()), p2.delete_value(0));
    let good2 = p2.get_bytes();
    assert!(Page::is_page_bytes(&good2));
    let mut bad = good2.clone();
    bad[8] = 5;
    assert!(!Page::is_page_bytes(&bad));

    // Two slots whose records overlap: slot 1 moved onto slot 0.
    let mut bad = good.clone();
    bad[14] = bad[10];
    bad[15] = bad[11];
    assert!(!Page::is_page_bytes(&bad));

    // A record running past the end of the page.
    let mut bad = good.clone();
    bad[8] = 200;
    assert!(!Page::is_page_bytes(&bad));
}

#[test]
fn duplicate_deleted_ids_are_refused() {
    let mut p = Page::new(1);
    assert_eq!(Some(0), p.add_value(&filled(10, 1)));
    assert_eq!(Some(1), p.add_value(&filled(10, 2)));
    assert_eq!(Some(2), p.add_value(&filled(10, 3)));
    assert_eq!(Some(()), p.delete_value(0));
    assert_eq!(Some(()), p.delete_value(2));
    let good = p.get_bytes();
    assert!(Page::is_page_bytes(&good));
    let mut bad = good.clone();
    bad[10] = bad[8];
    bad[11] = bad[9];
    assert!(!Page::is_page_bytes(&bad));
}

#[test]
fn iteration_skips_deleted_slots() {
    let mut p = Page::new(0);
    for i in 0..5u8 {
        assert_eq!(Some(i as u16), p.add_value(&filled(3, i)));
    }
    assert_eq!(Some(()), p.delete_value(0));
    assert_eq!(Some(()), p.delete_value(3));
    assert_eq!(
        vec![filled(3, 1), filled(3, 2), filled(3, 4)],
        live_values(p)
    );
}

#[test]
fn iteration_of_emptied_page_yields_nothing() {
    let mut p = Page::new(0);
    assert_eq!(Some(0), p.add_value(&filled(3, 1)));
    assert_eq!(Some(()), p.delete_value(0));
    let mut iter = p.into_iter();
    assert_eq!(None, iter.next());
    assert_eq!(None, iter.next());
    assert!(live_values(Page::new(0)).is_empty());
}

#[test]
fn new_value_comes_last_in_iteration() {
    let mut p = Page::new(0);
    assert_eq!(Some(0), p.add_value(&filled(2, 1)));
    assert_eq!(Some(1), p.add_value(&filled(2, 2)));
    assert_eq!(Some(2), p.add_value(&filled(2, 3)));
    assert_eq!(vec![filled(2, 1), filled(2, 2), filled(2, 3)], live_values(p));
}

#[test]
fn refused_delete_changes_nothing() {
    let mut p = Page::new(9);
    assert_eq!(Some(0), p.add_value(&filled(12, 1)));
    assert_eq!(Some(()), p.delete_value(0));
    let before = p.get_bytes();
    assert_eq!(None, p.delete_value(0));
    assert_eq!(None, p.delete_value(7));
    assert_eq!(before, p.get_bytes());
}

#[test]
fn free_space_after_adds_only() {
    let mut p = Page::new(0);
    let mut total = 0;
    for i in 0..20usize {
        let v = filled(i * 7 % 23, i as u8);
        assert_eq!(Some(i as u16), p.add_value(&v));
        total += v.len();
        assert_eq!(
            PAGE_SIZE - p.get_header_size() - total,
            p.get_largest_free_contiguous_space()
        );
    }
}

#[test]
fn page_id_survives_calls_and_bytes() {
    let mut p = Page::new(513);
    assert_eq!(Some(0), p.add_value(&filled(5, 1)));
    assert_eq!(Some(1), p.add_value(&filled(5, 2)));
    assert_eq!(Some(()), p.delete_value(0));
    assert_eq!(Some(0), p.add_value(&filled(3, 3)));
    assert_eq!(513, p.get_page_id());
    let q = Page::from_bytes(&p.get_bytes());
    assert_eq!(513, q.get_page_id());
}

#[test]
fn header_and_live_values_fit_in_page() {
    let mut p = Page::new(0);
    let mut stored: Vec<Option<usize>> = Vec::new();
    for round in 0..200usize {
        if round % 3 == 2 && !stored.is_empty() {
            let s = (round * 5) % stored.len();
            if p.delete_value(s as u16).is_some() {
                stored[s] = None;
            }
        } else if let Some(s) = p.add_value(&filled((round * 13) % 97, 1)) {
            let s = s as usize;
            if s == stored.len() {
                stored.push(Some((round * 13) % 97));
            } else {
                stored[s] = Some((round * 13) % 97);
            }
        }
        let live: usize = stored.iter().flatten().sum();
        assert!(p.get_header_size() + live <= PAGE_SIZE);
    }
}
