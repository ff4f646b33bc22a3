use sqliter::db::{Row, StorageError, Table, ROWS_PER_PAGE, ROW_SIZE, TABLE_MAX_ROWS};
use sqliter::pager::PAGE_SIZE;

fn row(id: u32, username: &str, email: &str) -> Row {
    Row { id, username: username.to_string(), email: email.to_string() }
}

#[test]
fn layout_constants() {
    assert_eq!(ROW_SIZE, 292);
    assert_eq!(PAGE_SIZE, 4096);
    assert_eq!(ROWS_PER_PAGE, 14);
    assert_eq!(TABLE_MAX_ROWS, 1400);
}

#[test]
fn encode_layout_exact() {
    let r = row(0x01020304, "alice", "alice@x.com");
    let buf = r.serialize();
    assert_eq!(buf.len(), 292);
    // id, big-endian, at offset 0
    assert_eq!(&buf[0..4], &[1, 2, 3, 4]);
    // username at offset 4, zero-padded to 32 bytes
    assert_eq!(&buf[4..9], b"alice");
    assert!(buf[9..36].iter().all(|b| *b == 0));
    // email at offset 36, zero-padded to 256 bytes
    assert_eq!(&buf[36..47], b"alice@x.com");
    assert!(buf[47..292].iter().all(|b| *b == 0));
}

#[test]
fn round_trip_row() {
    let r = row(7, "alice", "alice@x.com");
    let buf = r.serialize();
    let back = Row::deserialize(&buf).unwrap();
    assert_eq!(back.id, 7);
    assert_eq!(back.username, "alice");
    assert_eq!(back.email, "alice@x.com");
}

#[test]
fn round_trip_unicode_and_bounds() {
    // a username of exactly 32 bytes and an email of exactly 256 bytes
    let name = "ab".repeat(16);
    let mail = "e".repeat(256);
    let r = row(u32::MAX, &name, &mail);
    let buf = r.serialize();
    let back = Row::deserialize(&buf).unwrap();
    assert_eq!(back.id, u32::MAX);
    assert_eq!(back.username, name);
    assert_eq!(back.email, mail);
    // multi-byte UTF-8 content survives too
    let r = row(1, "ça-va", "é@ü.eu");
    let back = Row::deserialize(&r.serialize()).unwrap();
    assert_eq!(back.username, "ça-va");
    assert_eq!(back.email, "é@ü.eu");
}

#[test]
fn decode_rejects_invalid_utf8() {
    let r = row(3, "alice", "a@b.c");
    let mut buf = r.serialize();
    buf[4] = 0xff;
    assert!(matches!(Row::deserialize(&buf), Err(StorageError::InvalidEncoding)));
}

#[test]
fn open_rejects_partial_page() {
    assert!(matches!(Table::new(100), Err(StorageError::CorruptFile)));
    assert!(matches!(Table::new(4097), Err(StorageError::CorruptFile)));
    // more pages than the table can address
    assert!(matches!(Table::new(101 * 4096), Err(StorageError::CorruptFile)));
    assert!(Table::new(0).is_ok());
    assert!(Table::new(4096).is_ok());
}

#[test]
fn insert_validates_field_lengths() {
    let mut t = Table::new(0).unwrap();
    let long_name = "x".repeat(33);
    let r = row(1, &long_name, "a@b.c");
    assert_eq!(t.insert_row(r), Err(StorageError::FieldTooLong));
    assert_eq!(t.num_rows, 0);
    let long_mail = "m".repeat(257);
    let r = row(1, "alice", &long_mail);
    assert_eq!(t.insert_row(r), Err(StorageError::FieldTooLong));
    assert_eq!(t.num_rows, 0);
}

#[test]
fn capacity_fills_then_rejects() {
    let mut t = Table::new(0).unwrap();
    for i in 0..TABLE_MAX_ROWS {
        let r = row(i as u32, "user", "user@x.com");
        assert_eq!(t.insert_row(r), Ok(()), "insert {} should succeed", i);
    }
    assert_eq!(t.num_rows, TABLE_MAX_ROWS);
    let r = row(9999, "late", "late@x.com");
    assert_eq!(t.insert_row(r), Err(StorageError::TableFull));
    assert_eq!(t.num_rows, TABLE_MAX_ROWS);
    // the table stays usable for reads
    let first = t.read_row(0).unwrap();
    assert_eq!(first.id, 0);
}

#[test]
fn insert_then_read_back() {
    let mut t = Table::new(0).unwrap();
    t.insert_row(row(1, "alice", "alice@x.com")).unwrap();
    t.insert_row(row(2, "bob", "bob@x.com")).unwrap();
    assert_eq!(t.num_rows, 2);
    let a = t.read_row(0).unwrap();
    let b = t.read_row(1).unwrap();
    assert_eq!((a.id, a.username.as_str(), a.email.as_str()), (1, "alice", "alice@x.com"));
    assert_eq!((b.id, b.username.as_str(), b.email.as_str()), (2, "bob", "bob@x.com"));
}

#[test]
fn page_isolation_on_insert() {
    // writing row k leaves every other row's bytes untouched
    let mut t = Table::new(0).unwrap();
    for i in 0..20 {
        t.insert_row(row(i, "u", "e@x")).unwrap();
    }
    let before: Vec<(u32, String)> = (0..20)
        .map(|n| {
            let r = t.read_row(n).unwrap();
            (r.id, r.username)
        })
        .collect();
    t.insert_row(row(777, "seven", "7@x")).unwrap();
    for n in 0..20 {
        let r = t.read_row(n).unwrap();
        assert_eq!((r.id, r.username), before[n]);
    }
    let new = t.read_row(20).unwrap();
    assert_eq!(new.id, 777);
}

/// Flushes a close plan onto an in-memory file image, as the shell would
/// write it to disk: entry `i` at offset `i * PAGE_SIZE`, ascending.
fn apply_plan(file: &mut Vec<u8>, plan: Vec<Option<Vec<u8>>>) {
    for (i, entry) in plan.into_iter().enumerate() {
        if let Some(bytes) = entry {
            let end = (i + 1) * PAGE_SIZE;
            if file.len() < end {
                file.resize(end, 0);
            }
            file[i * PAGE_SIZE..end].copy_from_slice(&bytes);
        }
    }
}

/// Serves a page load from the in-memory file image, zero-padding a short
/// read as the pager expects.
fn load_page(file: &[u8], page_index: usize) -> Vec<u8> {
    let mut buf = vec![0u8; PAGE_SIZE];
    let start = page_index * PAGE_SIZE;
    if start < file.len() {
        let end = (start + PAGE_SIZE).min(file.len());
        buf[..end - start].copy_from_slice(&file[start..end]);
    }
    buf
}

#[test]
fn persistence_close_reopen_scan() {
    // a full page of rows: the reopened row count is inferred from whole
    // pages, so it is exact when the last page was completely full
    let n = ROWS_PER_PAGE;
    let mut t = Table::new(0).unwrap();
    for i in 0..n {
        t.insert_row(row(i as u32, "user", "user@x.com")).unwrap();
    }
    let plan = t.close();
    assert!(!t.is_open());
    let mut file: Vec<u8> = Vec::new();
    apply_plan(&mut file, plan);
    assert_eq!(file.len(), PAGE_SIZE);

    let mut t2 = Table::new(file.len() as u64).unwrap();
    assert_eq!(t2.num_rows, n);
    for k in 0..n {
        let p = Table::page_index_of_row(k);
        if t2.row_needs_load(k) {
            t2.install_page(p, load_page(&file, p));
        }
        let r = t2.read_row(k).unwrap();
        assert_eq!(r.id, k as u32);
        assert_eq!(r.username, "user");
        assert_eq!(r.email, "user@x.com");
    }
}

#[test]
fn persistence_two_pages() {
    let n = 2 * ROWS_PER_PAGE;
    let mut t = Table::new(0).unwrap();
    for i in 0..n {
        t.insert_row(row(i as u32, "u", "e@x")).unwrap();
    }
    let plan = t.close();
    let mut file: Vec<u8> = Vec::new();
    apply_plan(&mut file, plan);
    assert_eq!(file.len(), 2 * PAGE_SIZE);

    let mut t2 = Table::new(file.len() as u64).unwrap();
    assert_eq!(t2.num_rows, n);
    for k in (0..n).rev() {
        let p = Table::page_index_of_row(k);
        if t2.row_needs_load(k) {
            t2.install_page(p, load_page(&file, p));
        }
        assert_eq!(t2.read_row(k).unwrap().id, k as u32);
    }
}

#[test]
fn nul_in_field_truncates_on_decode() {
    // a NUL marks end-of-string on decode, so content after it is lost:
    // the round-trip law excludes such rows on purpose
    let r = row(5, "ab\0cd", "e@x");
    let back = Row::deserialize(&r.serialize()).unwrap();
    assert_eq!(back.username, "ab");
}
