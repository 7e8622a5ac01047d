use tuxkitchen::device::{is_identity_partition, parse_adb_devices, parse_fastboot_vars, parse_hex_size};
use tuxkitchen::dtbo::{parse_table, put_be32, DT_TABLE_MAGIC, ENTRY_SIZE, HEADER_SIZE};
use tuxkitchen::imaging::parse_lpdump;
use tuxkitchen::props::parse_props;
use tuxkitchen::sdat::parse_rangeset;

#[test]
fn lpdump_group_and_slots() {
    let sample = "\
Metadata version: 10.0\n\
Metadata size: 12288 bytes\n\
Metadata max size: 65536 bytes\n\
Metadata slot count: 3\n\
Header flags: none\n\
Partition table:\n\
------------------------\n\
  0: system_a 0 123456\n\
Groups:\n\
------------------------\n\
Group qti_dynamic_partitions_a: Maximum size 8589934592 bytes\n\
Group qti_dynamic_partitions_b: Maximum size 8589934592 bytes\n";
    let (group, slots) = parse_lpdump(sample);
    assert_eq!(group.as_deref(), Some("qti_dynamic_partitions_a"));
    assert_eq!(slots, Some(3));
    assert_eq!(parse_lpdump("nothing here"), (None, None));
}

#[test]
fn parses_adb_devices() {
    let out = "List of devices attached\nSERIAL1\tdevice\nSERIAL2\toffline\n\n";
    let got = parse_adb_devices(out);
    assert_eq!(got, vec![("SERIAL1".into(), "device".into()), ("SERIAL2".into(), "offline".into())]);
    assert!(parse_adb_devices("").is_empty());
}

#[test]
fn parses_fastboot_vars() {
    let out = "(bootloader) current-slot: b\n(bootloader) partition-size:system_a: 0x20000000\nOKAY";
    let vars = parse_fastboot_vars(out);
    assert!(vars.contains(&("current-slot".into(), "b".into())));
    assert!(vars.contains(&("partition-size:system_a".into(), "0x20000000".into())));
    assert_eq!(parse_hex_size("0x20000000"), Some(0x20000000));
    assert_eq!(parse_hex_size("garbage"), None);
}

#[test]
fn identity_partitions_are_refused_regardless_of_suffix() {
    for p in ["modemst1", "modemst2_a", "persist", "persist_b", "fsc", "nvdata"] {
        assert!(is_identity_partition(p), "{} should be identity", p);
    }
    assert!(!is_identity_partition("system"));
    assert!(!is_identity_partition("boot_a"));
}

fn build_table(blobs: &[&[u8]], page: u32) -> Vec<u8> {
    let entries_len = blobs.len() * ENTRY_SIZE;
    let blob_base = ((HEADER_SIZE + entries_len + page as usize - 1) / page as usize) * page as usize;
    let mut out = Vec::new();
    let mut cursor = blob_base;
    put_be32(&mut out, DT_TABLE_MAGIC);
    put_be32(&mut out, (blob_base + blobs.iter().map(|b| b.len()).sum::<usize>()) as u32);
    put_be32(&mut out, HEADER_SIZE as u32);
    put_be32(&mut out, ENTRY_SIZE as u32);
    put_be32(&mut out, blobs.len() as u32);
    put_be32(&mut out, HEADER_SIZE as u32);
    put_be32(&mut out, page);
    put_be32(&mut out, 0);
    out.resize(HEADER_SIZE, 0);
    for b in blobs {
        put_be32(&mut out, b.len() as u32);
        put_be32(&mut out, cursor as u32);
        for _ in 0..6 {
            put_be32(&mut out, 0);
        }
        cursor += b.len();
    }
    out.resize(blob_base, 0);
    for b in blobs {
        out.extend_from_slice(b);
    }
    out
}

#[test]
fn parses_and_rejects() {
    let blobs: Vec<&[u8]> = vec![b"blob-one", b"blob-two-longer"];
    let table = build_table(&blobs, 4096);
    let (page, entries) = parse_table(&table).unwrap();
    assert_eq!(page, 4096);
    assert_eq!(entries.len(), 2);
    assert_eq!(&table[entries[0].dt_offset as usize..entries[0].dt_offset as usize + entries[0].dt_size as usize], b"blob-one");
    assert_eq!(&table[entries[1].dt_offset as usize..entries[1].dt_offset as usize + entries[1].dt_size as usize], b"blob-two-longer");

    let mut bad = table.clone();
    bad[0..4].copy_from_slice(&[0, 0, 0, 0]);
    assert!(parse_table(&bad).is_err());
    assert!(parse_table(&[0u8; 16]).is_err());
}

#[test]
fn pack_roundtrips_through_parser() {
    let blobs: Vec<&[u8]> = vec![b"a", b"bbbbbb"];
    let table = build_table(&blobs, 2048);
    let (page, entries) = parse_table(&table).unwrap();
    assert_eq!(page, 2048);
    assert_eq!(entries.len(), 2);
    assert_eq!(entries[0].dt_offset as usize % 2048, 0);
    assert_eq!(entries[0].dt_offset, 2048);
}

#[test]
fn parses_pairs_and_skips_comments() {
    let src = "# comment\nro.build.version.sdk=34\n\nro.kernel.qemu=0\nbroken line\n";
    let props = parse_props(src);
    assert_eq!(props.len(), 2);
    assert_eq!(props[0], ("ro.build.version.sdk".into(), "34".into()));
    assert_eq!(props[1], ("ro.kernel.qemu".into(), "0".into()));
}

#[test]
fn values_may_contain_equals_and_spaces() {
    let props = parse_props("ro.build.fingerprint=Google/walleye/x: a=b\n");
    assert_eq!(props[0].1, "Google/walleye/x: a=b");
}

#[test]
fn rangeset_parses_strictly() {
    assert_eq!(parse_rangeset("1,0,6").unwrap(), vec![(0, 6)]);
    assert_eq!(parse_rangeset("2,0,3,5,6").unwrap(), vec![(0, 3), (5, 6)]);
    assert!(parse_rangeset("3,0,1").is_err());
    assert!(parse_rangeset("").is_err());
}
