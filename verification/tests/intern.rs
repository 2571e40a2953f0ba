use ilk::intern::InternTable;

#[test]
fn equal_items_share_an_id() {
    let mut table: InternTable<u8> = InternTable::new();
    assert_eq!(table.intern(b"abc"), 0);
    assert_eq!(table.intern(b"de"), 1);
    assert_eq!(table.intern(b"abc"), 0);
    assert_eq!(table.intern(b""), 2);
    assert_eq!(table.intern(b""), 2);
    assert_eq!(table.len(), 3);
}

#[test]
fn get_finds_only_interned_items() {
    let mut table: InternTable<u8> = InternTable::new();
    table.intern(b"one");
    table.intern(b"two");
    assert_eq!(table.get(b"two"), Some(1));
    assert_eq!(table.get(b"one"), Some(0));
    assert_eq!(table.get(b"three"), None);
    assert_eq!(table.get(b"on"), None);
}

#[test]
fn resolve_gives_back_what_was_interned() {
    let mut table: InternTable<u8> = InternTable::new();
    let a = table.intern(b"alpha");
    let b = table.intern(b"beta");
    let e = table.intern(b"");
    assert_eq!(table.resolve(a), b"alpha");
    assert_eq!(table.resolve(b), b"beta");
    assert_eq!(table.resolve(e), b"");
}

#[test]
fn many_items_keep_distinct_ids() {
    let mut table: InternTable<u8> = InternTable::new();
    for i in 0..300u32 {
        let item = i.to_string();
        assert_eq!(table.intern(item.as_bytes()), i as usize);
    }
    for i in 0..300u32 {
        let item = i.to_string();
        assert_eq!(table.get(item.as_bytes()), Some(i as usize));
        assert_eq!(table.resolve(i as usize), item.as_bytes());
    }
}
