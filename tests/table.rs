use sqlite::pager::Pager;
use sqlite::row::{Definition, ErrorKind, Row, PAGE_SIZE, ROW_SIZE};
use sqlite::table::Table;

fn sample(i: u32, def: &Definition) -> Row {
    Row::ser(
        i,
        format!("sample-user-name-{}", i),
        format!("sample-user-name-{}@user.com", i),
        def,
    )
    .unwrap()
}

#[test]
fn test_ser() {
    let def = Definition::new();
    let bytes_of_row = Row::ser(
        1u32,
        "sample-user-name".to_owned(),
        "sample-email@user.com".to_owned(),
        &def,
    )
    .unwrap();
    println!("{:?}", Row::de(&bytes_of_row.data, &def).unwrap());
    assert_eq!(bytes_of_row, Row::de(&bytes_of_row.data, &def).unwrap());
    assert_eq!(bytes_of_row.data.len(), def.row_size);
}

#[test]
fn test_insert() {
    let def = Definition::new();
    let mut table = Table::open_db(Pager::open(Vec::new()), &def);
    for i in 0..20 {
        table.insert(sample(i, &def)).unwrap();
    }
    assert_eq!(table.row_count(), 20);
}

#[test]
fn test_select() {
    let def = Definition::new();
    let mut table = Table::open_db(Pager::open(Vec::new()), &def);
    let mut expects = vec![];
    for i in 0..20 {
        table.insert(sample(i, &def)).unwrap();
        expects.push(sample(i, table.def));
    }
    assert_eq!(table.select(), expects);
}

#[test]
fn fresh_file_selects_nothing() {
    let def = Definition::new();
    let table = Table::open_db(Pager::open(Vec::new()), &def);
    assert_eq!(table.row_count(), 0);
    assert!(table.select().is_empty());
}

#[test]
fn insert_one_then_select() {
    let def = Definition::new();
    let mut table = Table::open_db(Pager::open(Vec::new()), &def);
    let row = Row::ser(1, "foo".to_string(), "a@b.c".to_string(), &def).unwrap();
    assert_eq!(table.insert(row), Ok(0));
    let rows = table.select();
    assert_eq!(rows.len(), 1);
    assert_eq!(rows[0].id(), 1);
    assert_eq!(rows[0].username(), "foo");
    assert_eq!(rows[0].email(), "a@b.c");
    assert_eq!(table.row_count(), 1);
    assert_eq!(table.pager().image().len(), PAGE_SIZE);
}

#[test]
fn page_boundary_at_fourteenth_row() {
    let def = Definition::new();
    let mut table = Table::open_db(Pager::open(Vec::new()), &def);
    for i in 0..13 {
        assert_eq!(table.insert(sample(i, &def)), Ok(0));
    }
    let page0 = table.pager().get_page(0).unwrap();
    assert_eq!(table.pager().get_page(1).unwrap_err().kind, ErrorKind::ShortRead);
    let fourteenth = sample(13, &def);
    let bytes = fourteenth.data.clone();
    assert_eq!(table.insert(fourteenth), Ok(1));
    assert_eq!(table.pager().get_page(0).unwrap(), page0);
    let page1 = table.pager().get_page(1).unwrap();
    assert_eq!(&page1[..ROW_SIZE], &bytes[..]);
    assert!(page1[ROW_SIZE..].iter().all(|b| *b == 0));
    assert_eq!(table.pager().image().len(), 2 * PAGE_SIZE);
    assert_eq!(table.select().len(), 14);
}

#[test]
fn reopen_keeps_rows_in_order() {
    let def = Definition::new();
    for count in [1u32, 12, 13, 14, 26, 27] {
        let mut table = Table::open_db(Pager::open(Vec::new()), &def);
        for i in 0..count {
            table.insert(sample(i, &def)).unwrap();
        }
        let image = table.pager().image().clone();
        let before = table.select();
        drop(table);
        let reopened = Table::open_db(Pager::open(image), &def);
        assert_eq!(reopened.row_count(), count as u64);
        let after = reopened.select();
        assert_eq!(after, before);
        for (i, row) in after.iter().enumerate() {
            assert_eq!(row.id(), i as u32);
        }
    }
}

#[test]
fn reopened_table_appends_after_its_rows() {
    let def = Definition::new();
    let mut table = Table::open_db(Pager::open(Vec::new()), &def);
    for i in 0..3 {
        table.insert(sample(i, &def)).unwrap();
    }
    let image = table.pager().image().clone();
    let mut reopened = Table::open_db(Pager::open(image), &def);
    reopened.insert(sample(3, &def)).unwrap();
    let ids: Vec<u32> = reopened.select().iter().map(|r| r.id()).collect();
    assert_eq!(ids, vec![0, 1, 2, 3]);
}

#[test]
fn empty_slot_is_skipped() {
    let def = Definition::new();
    let mut table = Table::open_db(Pager::open(Vec::new()), &def);
    let mut blank = sample(7, &def);
    blank.data[0] = 0;
    table.insert(blank).unwrap();
    table.insert(sample(8, &def)).unwrap();
    assert_eq!(table.row_count(), 2);
    let rows = table.select();
    assert_eq!(rows.len(), 1);
    assert_eq!(rows[0].id(), 8);
}

#[test]
fn malformed_slot_is_skipped() {
    let def = Definition::new();
    let mut table = Table::open_db(Pager::open(Vec::new()), &def);
    let mut bad = sample(7, &def);
    bad.data[1] = b'x';
    table.insert(bad).unwrap();
    table.insert(sample(9, &def)).unwrap();
    let rows = table.select();
    assert_eq!(rows.len(), 1);
    assert_eq!(rows[0].id(), 9);
}

#[test]
fn scan_stops_at_first_empty_slot() {
    let def = Definition::new();
    let mut image = vec![0u8; PAGE_SIZE];
    for (slot, id) in [(0usize, 5u32), (1, 6), (3, 8)] {
        let row = sample(id, &def);
        image[slot * ROW_SIZE..(slot + 1) * ROW_SIZE].copy_from_slice(&row.data);
    }
    let pager = Pager::open(image);
    assert_eq!(pager.rows(&def), 2);
    let table = Table::open_db(pager, &def);
    assert_eq!(table.row_count(), 2);
    let ids: Vec<u32> = table.select().iter().map(|r| r.id()).collect();
    assert_eq!(ids, vec![5, 6]);
}

#[test]
fn scan_ignores_partial_page() {
    let def = Definition::new();
    let row = sample(5, &def);
    let mut image = row.data.clone();
    image.resize(PAGE_SIZE - 1, 0);
    assert_eq!(Pager::open(image).rows(&def), 0);
}
