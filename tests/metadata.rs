use chunkdrive::metadata::{decimal_string, Metadata, Size};

#[test]
fn size_human_forms() {
    assert_eq!(Size::Entries(3).human(), "3 entries");
    assert_eq!(Size::Empty.human(), "Empty");
    assert_eq!(Size::Bytes(0).human(), "0 B");
    assert_eq!(Size::Bytes(1024).human(), "1024 B");
    assert_eq!(Size::Bytes(1025).human(), "1 KB");
    assert_eq!(Size::Bytes(5 * 1024 * 1024).human(), "5 MB");
    assert_eq!(Size::Bytes(usize::MAX).human(), "15 EB");
}

#[test]
fn decimal_digits() {
    assert_eq!(decimal_string(0), "0");
    assert_eq!(decimal_string(907), "907");
    assert_eq!(decimal_string(usize::MAX), usize::MAX.to_string());
}

#[test]
fn metadata_new_touch_modified() {
    let mut m = Metadata::new();
    assert_eq!(m.created, m.modified);
    assert_eq!(m.size, Size::Empty);
    let created = m.created;
    m.touch();
    assert_eq!(m.created, created);
    assert!(m.modified >= created);
    m.modified(Size::Entries(2));
    assert_eq!(m.size, Size::Entries(2));
    assert_eq!(m.created, created);
}

#[test]
fn human_times() {
    let m = Metadata { created: 0, modified: 86400 + 3661, size: Size::Empty };
    assert_eq!(m.human_created(), "1970-01-01 00:00:00");
    assert_eq!(m.human_modified(), "1970-01-02 01:01:01");
}

#[test]
fn size_order() {
    assert!(Size::Empty < Size::Entries(0));
    assert!(Size::Entries(1_000_000) < Size::Bytes(0));
    assert!(Size::Bytes(3) < Size::Bytes(4));
    assert!(Size::Entries(5) > Size::Entries(4));
    assert_eq!(Size::Empty.partial_cmp(&Size::Empty), Some(std::cmp::Ordering::Equal));
    assert!(Size::Bytes(0) > Size::Empty);
}

#[test]
fn metadata_at_given_times() {
    let mut m = Metadata::new_at(5);
    assert_eq!((m.created, m.modified, m.size), (5, 5, Size::Empty));
    m.touch_at(9);
    assert_eq!((m.created, m.modified), (5, 9));
    m.modified_at(Size::Bytes(3), 12);
    assert_eq!((m.created, m.modified, m.size), (5, 12, Size::Bytes(3)));
}
