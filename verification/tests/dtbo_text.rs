use tuxkitchen::dtbo::{be32, dtb_file_name, dtb_inputs, pack_table, parse_table, DtEntry, DtboError};
use tuxkitchen::text::{join_texts, sort_texts};

#[test]
fn packed_tables_parse_back() {
    let blobs = vec![b"first-blob".to_vec(), b"x".to_vec(), Vec::new()];
    let table = pack_table(&blobs, Some(64)).unwrap();
    assert_eq!(be32(&table[0..4]), 0xd7b7ab1e);
    assert_eq!(be32(&table[4..8]) as usize, table.len());
    let (page, entries) = parse_table(&table).unwrap();
    assert_eq!(page, 64);
    assert_eq!(entries.len(), 3);
    assert_eq!(entries[0], DtEntry { dt_size: 10, dt_offset: 128, id: 0 });
    for (e, b) in entries.iter().zip(blobs.iter()) {
        let at = e.dt_offset as usize;
        assert_eq!(&table[at..at + e.dt_size as usize], &b[..]);
    }
}

#[test]
fn page_sizes_default_and_floor() {
    let blobs = vec![b"abc".to_vec()];
    let t = pack_table(&blobs, None).unwrap();
    assert_eq!(t.len(), 4096 + 3);
    assert_eq!(parse_table(&t).unwrap().0, 4096);
    let t = pack_table(&blobs, Some(8)).unwrap();
    assert_eq!(parse_table(&t).unwrap().0, 32);
    assert_eq!(t.len(), 64 + 3);
}

#[test]
fn truncated_tables_are_refused() {
    let t = pack_table(&[b"abcdef".to_vec()], Some(32)).unwrap();
    assert!(matches!(parse_table(&t[..20]), Err(DtboError::TooSmall(20))));
    assert!(parse_table(&t[..t.len() - 1]).is_err());
}

#[test]
fn dtb_names_and_inputs() {
    assert_eq!(dtb_file_name(3, 0xab), "03_id_0x000000ab.dtb");
    assert_eq!(dtb_file_name(123, 0xdeadbeef), "123_id_0xdeadbeef.dtb");
    let names = vec!["b.dtb".to_string(), "notes.txt".to_string(), "a.dtb".to_string(), ".dtb".to_string()];
    assert_eq!(dtb_inputs(&names), Some(vec!["a.dtb".to_string(), "b.dtb".to_string()]));
    assert_eq!(dtb_inputs(&["x.img".to_string()]), None);
}

#[test]
fn texts_sort_and_join() {
    let v = vec!["pear".to_string(), "Apple".to_string(), "apple".to_string(), "é".to_string()];
    assert_eq!(sort_texts(v), vec!["Apple", "apple", "pear", "é"]);
    assert_eq!(join_texts(&["a".to_string(), "b".to_string()], ", "), "a, b");
    assert_eq!(join_texts(&[], "; "), "");
}
