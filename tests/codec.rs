use sqlite::pager::Pager;
use sqlite::row::{Definition, ErrorKind, Row, EMAIL_SIZE, PAGE_SIZE, ROW_SIZE, USERNAME_SIZE};

fn slot(id: &[u8], username: &[u8], email: &[u8]) -> Vec<u8> {
    let mut data = vec![0u8; ROW_SIZE];
    data[..id.len()].copy_from_slice(id);
    data[10..10 + username.len()].copy_from_slice(username);
    data[42..42 + email.len()].copy_from_slice(email);
    data
}

#[test]
fn schema_sizes() {
    let def = Definition::new();
    assert_eq!(def.row_size, 297);
    assert_eq!(def.row_per_page, 13);
    assert_eq!(def.row_size(), ROW_SIZE);
    assert_eq!(def.row_per_page(), 4096 / 297);
}

#[test]
fn encoding_layout() {
    let def = Definition::new();
    let row = Row::ser(1, "foo".to_string(), "a@b.c".to_string(), &def).unwrap();
    assert_eq!(row.data, slot(b"1", b"foo", b"a@b.c"));
    assert_eq!(row.as_bytes().len(), 297);
    let row = Row::ser(u32::MAX, String::new(), String::new(), &def).unwrap();
    assert_eq!(&row.data[..10], b"4294967295");
    assert!(row.data[10..].iter().all(|b| *b == 0));
    let row = Row::ser(0, "é".to_string(), "x".to_string(), &def).unwrap();
    assert_eq!(row.data, slot(b"0", "é".as_bytes(), b"x"));
}

#[test]
fn round_trip_at_the_widths() {
    let def = Definition::new();
    let username = "u".repeat(USERNAME_SIZE);
    let email = "é".repeat(EMAIL_SIZE / 2) + "e";
    assert_eq!(email.len(), EMAIL_SIZE);
    let row = Row::ser(4242, username.clone(), email.clone(), &def).unwrap();
    let back = Row::de(&row.data, &def).unwrap();
    assert_eq!(back.id(), 4242);
    assert_eq!(back.username(), &username);
    assert_eq!(back.email(), &email);
    assert_eq!(back, row);
}

#[test]
fn round_trip_of_empty_fields() {
    let def = Definition::new();
    let row = Row::ser(0, String::new(), String::new(), &def).unwrap();
    let back = Row::de(&row.data, &def).unwrap();
    assert_eq!(back.id(), 0);
    assert_eq!(back.username(), "");
    assert_eq!(back.email(), "");
}

#[test]
fn too_wide_fields_are_rejected() {
    let def = Definition::new();
    let e = Row::ser(1, "u".repeat(USERNAME_SIZE + 1), "e".to_string(), &def).unwrap_err();
    assert_eq!(e.kind, ErrorKind::EncodingOverflow);
    let e = Row::ser(1, "u".to_string(), "e".repeat(EMAIL_SIZE + 1), &def).unwrap_err();
    assert_eq!(e.kind, ErrorKind::EncodingOverflow);
    let e = Row::ser(1, "é".repeat(17), "e".to_string(), &def).unwrap_err();
    assert_eq!(e.kind, ErrorKind::EncodingOverflow);
}

#[test]
fn decoding_errors() {
    let def = Definition::new();
    let e = Row::de(&vec![0u8; ROW_SIZE], &def).unwrap_err();
    assert_eq!(e.kind, ErrorKind::EmptyRow);
    let e = Row::de(&slot(b"\0", b"foo", b"x"), &def).unwrap_err();
    assert_eq!(e.kind, ErrorKind::EmptyRow);
    let e = Row::de(&slot(b"12a", b"foo", b"x"), &def).unwrap_err();
    assert_eq!(e.kind, ErrorKind::MalformedInteger);
    let e = Row::de(&slot(b"4294967296", b"foo", b"x"), &def).unwrap_err();
    assert_eq!(e.kind, ErrorKind::MalformedInteger);
    let e = Row::de(&slot(b"+5", b"foo", b"x"), &def).unwrap_err();
    assert_eq!(e.kind, ErrorKind::MalformedInteger);
    let e = Row::de(&slot(b"5", &[0xff, 0x41], b"x"), &def).unwrap_err();
    assert_eq!(e.kind, ErrorKind::MalformedText);
    let e = Row::de(&slot(b"5", b"foo", &[0xc3]), &def).unwrap_err();
    assert_eq!(e.kind, ErrorKind::MalformedText);
}

#[test]
fn decoding_strips_only_trailing_zeros() {
    let def = Definition::new();
    let row = Row::de(&slot(b"0007", b"a\0b", b"m"), &def).unwrap();
    assert_eq!(row.id(), 7);
    assert_eq!(row.username(), "a\0b");
    assert_eq!(row.email(), "m");
}

#[test]
fn equality_is_on_values() {
    let def = Definition::new();
    let a = Row::de(&slot(b"007", b"foo", b"x"), &def).unwrap();
    let b = Row::ser(7, "foo".to_string(), "x".to_string(), &def).unwrap();
    assert_ne!(a.data, b.data);
    assert_eq!(a, b);
    let c = Row::ser(7, "fop".to_string(), "x".to_string(), &def).unwrap();
    assert_ne!(a, c);
}

#[test]
fn truncate_tail_cases() {
    assert_eq!(Row::truncate_tail(vec![1, 0, 2, 0, 0]), vec![1, 0, 2]);
    assert_eq!(Row::truncate_tail(vec![0, 0, 0]), Vec::<u8>::new());
    assert_eq!(Row::truncate_tail(vec![]), Vec::<u8>::new());
    assert_eq!(Row::truncate_tail(vec![3, 4]), vec![3, 4]);
}

#[test]
fn short_read_and_page_writes() {
    let mut pager = Pager::open(vec![7u8; 100]);
    assert_eq!(pager.get_page(0).unwrap_err().kind, ErrorKind::ShortRead);
    let page = vec![9u8; PAGE_SIZE];
    pager.flush_page(1, page.clone()).unwrap();
    let image = pager.image();
    assert_eq!(image.len(), 2 * PAGE_SIZE);
    assert!(image[..100].iter().all(|b| *b == 7));
    assert!(image[100..PAGE_SIZE].iter().all(|b| *b == 0));
    assert_eq!(pager.get_page(1).unwrap(), page);
    assert_eq!(pager.get_page(0).unwrap()[..100], [7u8; 100][..]);
    let mut other = vec![1u8; PAGE_SIZE];
    other[0] = 2;
    pager.flush_page(0, other.clone()).unwrap();
    assert_eq!(pager.get_page(0).unwrap(), other);
    assert_eq!(pager.get_page(1).unwrap(), page);
}

#[test]
fn page_beyond_address_space_is_refused() {
    let mut pager = Pager::open(Vec::new());
    let e = pager.flush_page(usize::MAX / PAGE_SIZE, vec![0u8; PAGE_SIZE]).unwrap_err();
    assert_eq!(e.kind, ErrorKind::OutOfSpace);
    assert!(pager.image().is_empty());
}

#[test]
fn trailing_nul_reads_back_as_padding() {
    let def = Definition::new();
    let row = Row::ser(3, "a\0".to_string(), "m\0\0".to_string(), &def).unwrap();
    let back = Row::de(&row.data, &def).unwrap();
    assert_eq!(back.username(), "a");
    assert_eq!(back.email(), "m");
}
