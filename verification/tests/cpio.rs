use tuxkitchen::cpio::{
    bare_name, carry_action, child_member, disk_entry, extract_action, name_prefix, next_inode, read_entries_from,
    rebuild_members, serialize_entries, with_data, Carry, CpioEntry, CpioError, DiskKind, DiskNode,
    ExtractAction, walk_depth_ok,
};

fn entry(name: &str, mode: u32, ino: u32, data: &[u8]) -> CpioEntry {
    CpioEntry {
        name: name.to_string(),
        mode,
        uid: 0,
        gid: 2000,
        nlink: 1,
        mtime: 1_700_000_000,
        ino,
        rdev: 0x0001_0002,
        data: data.to_vec(),
        magic_was_crc: false,
    }
}

fn same(a: &CpioEntry, b: &CpioEntry) -> bool {
    a.name == b.name && a.mode == b.mode && a.uid == b.uid && a.gid == b.gid && a.nlink == b.nlink
        && a.mtime == b.mtime && a.ino == b.ino && a.rdev == b.rdev && a.data == b.data
        && a.magic_was_crc == b.magic_was_crc
}

fn fixture() -> Vec<CpioEntry> {
    vec![
        entry("init.rc", 0o100750, 1, b"on boot\n"),
        entry("system", 0o040755, 2, b""),
        entry("system/bin/tool-link", 0o120777, 3, b"/system/bin/tool"),
        entry("default.prop", 0o100644, 4, b"ro.test=1\n"),
    ]
}

#[test]
fn written_archives_read_back() {
    let es = fixture();
    let bytes = serialize_entries(&es);
    assert_eq!(&bytes[0..6], b"070701");
    assert_eq!(bytes.len() % 4, 0);
    let back = read_entries_from(&bytes).unwrap();
    assert_eq!(back.len(), es.len());
    for (a, b) in es.iter().zip(back.iter()) {
        assert!(same(a, b), "{:?} != {:?}", a, b);
    }
}

#[test]
fn crc_magic_is_kept() {
    let mut e = entry("a", 0o100644, 9, b"xyz");
    e.magic_was_crc = true;
    let bytes = serialize_entries(&[e]);
    assert_eq!(&bytes[0..6], b"070702");
    let back = read_entries_from(&bytes).unwrap();
    assert!(back[0].magic_was_crc);
    assert_eq!(back[0].data, b"xyz");
}

#[test]
fn non_archives_are_refused() {
    assert_eq!(read_entries_from(b"this is not a cpio").unwrap_err(), CpioError::NotCpio);
    assert_eq!(read_entries_from(b"0707").unwrap_err(), CpioError::NotCpio);
    let only_trailer = serialize_entries(&[]);
    assert_eq!(read_entries_from(&only_trailer).unwrap_err(), CpioError::NoEntries);
    let bytes = serialize_entries(&fixture());
    assert_eq!(read_entries_from(&bytes[0..50]).unwrap_err(), CpioError::TruncatedHeader);
    let mut bad = bytes.clone();
    bad[6] = b'z';
    assert!(matches!(read_entries_from(&bad).unwrap_err(), CpioError::BadHeaderField(_)));
    let cut = &bytes[0..110 + 8 + 3];
    assert!(matches!(read_entries_from(cut).unwrap_err(), CpioError::TruncatedData(n) if n == "init.rc"));
}

#[test]
fn names_prefixes_and_inodes() {
    assert_eq!(bare_name("././system/bin"), "system/bin");
    assert_eq!(bare_name("init"), "init");
    assert_eq!(name_prefix(&fixture()), "");
    let dotted = vec![entry("./init", 0o100644, 7, b""), entry("sbin", 0o040755, 12, b"")];
    assert_eq!(name_prefix(&dotted), "./");
    assert_eq!(next_inode(&dotted), 13);
    assert_eq!(next_inode(&[]), 1);
    assert_eq!(next_inode(&[entry("x", 0o100644, u32::MAX, b"")]), 0);
}

#[test]
fn carry_follows_the_kind_on_disk() {
    assert_eq!(carry_action(0o040755, DiskKind::Dir), Carry::Keep);
    assert_eq!(carry_action(0o120777, DiskKind::Symlink), Carry::TakeLinkTarget);
    assert_eq!(carry_action(0o100644, DiskKind::File), Carry::TakeContent);
    assert_eq!(carry_action(0o100644, DiskKind::Dir), Carry::Drop);
    assert_eq!(carry_action(0o100644, DiskKind::Missing), Carry::Drop);
    assert_eq!(carry_action(0o020600, DiskKind::Other), Carry::Drop);
    let e = entry("a", 0o100644, 1, b"old");
    let n = with_data(&e, b"new".to_vec());
    assert_eq!(n.data, b"new");
    assert_eq!(n.mode, e.mode);
    assert_eq!(n.ino, e.ino);
}

#[test]
fn repack_without_changes_is_a_noop() {
    let os = fixture();
    let observed: Vec<(DiskKind, Vec<u8>)> = vec![
        (DiskKind::File, b"on boot\n".to_vec()),
        (DiskKind::Dir, Vec::new()),
        (DiskKind::Symlink, b"/system/bin/tool".to_vec()),
        (DiskKind::File, b"ro.test=1\n".to_vec()),
    ];
    let disk = vec![disk_entry("system".to_string(), DiskNode::Dir, 10, 5)];
    let (rebuilt, n) = rebuild_members(&os, &observed, disk);
    assert_eq!(n, os.len());
    for (a, b) in os.iter().zip(rebuilt.iter()) {
        assert!(same(a, b));
    }
}

#[test]
fn repack_edits_and_preserves_metadata() {
    let os = fixture();
    let observed: Vec<(DiskKind, Vec<u8>)> = vec![
        (DiskKind::File, b"on boot\n".to_vec()),
        (DiskKind::Dir, Vec::new()),
        (DiskKind::Missing, Vec::new()),
        (DiskKind::File, b"ro.test=2\n".to_vec()),
    ];
    let disk = vec![
        disk_entry("./new_file.txt".to_string(), DiskNode::File(0o644, b"added".to_vec()), 5, 77),
        disk_entry("default.prop".to_string(), DiskNode::File(0o600, b"ro.test=2\n".to_vec()), 6, 77),
    ];
    let (rebuilt, n) = rebuild_members(&os, &observed, disk);
    assert_eq!(n, 4);
    assert_eq!(rebuilt[0].name, "init.rc");
    assert_eq!(rebuilt[2].name, "default.prop");
    assert_eq!(rebuilt[2].data, b"ro.test=2\n");
    assert_eq!(rebuilt[2].gid, 2000, "original metadata must be carried");
    assert_eq!(rebuilt[2].mode, 0o100644);
    assert_eq!(rebuilt[3].name, "./new_file.txt");
    assert_eq!(rebuilt[3].mode, 0o100644);
    assert_eq!(rebuilt[3].uid, 0);
    assert_eq!(rebuilt[3].mtime, 77);
    assert_eq!(rebuilt[3].data, b"added");
}

#[test]
fn extract_actions_by_kind() {
    assert!(matches!(extract_action(&entry(".", 0o040755, 1, b"")), ExtractAction::Skip));
    assert!(matches!(extract_action(&entry("./sbin", 0o040755, 1, b"")), ExtractAction::Dir(p) if p == "sbin"));
    match extract_action(&entry("bin/sh", 0o120777, 1, b"toybox")) {
        ExtractAction::Symlink(p, t) => {
            assert_eq!(p, "bin/sh");
            assert_eq!(t, "toybox");
        }
        other => panic!("{:?}", other),
    }
    assert!(matches!(extract_action(&entry("init", 0o104750, 1, b"")), ExtractAction::File(p, m) if p == "init" && m == 0o4750));
    assert!(matches!(extract_action(&entry("dev/null", 0o020666, 1, b"")), ExtractAction::Special));
}

#[test]
fn kind_changed_paths_are_rebuilt_from_disk() {
    let os = fixture();
    let observed: Vec<(DiskKind, Vec<u8>)> = vec![
        (DiskKind::Dir, Vec::new()),
        (DiskKind::Dir, Vec::new()),
        (DiskKind::Symlink, b"/system/bin/tool".to_vec()),
        (DiskKind::Symlink, b"/elsewhere".to_vec()),
    ];
    let disk = vec![
        disk_entry("init.rc".to_string(), DiskNode::Dir, 8, 9),
        disk_entry("system".to_string(), DiskNode::Dir, 10, 9),
        disk_entry("default.prop".to_string(), DiskNode::Symlink(b"/elsewhere".to_vec()), 11, 9),
    ];
    let (rebuilt, n) = rebuild_members(&os, &observed, disk);
    assert_eq!(n, 4);
    let names: Vec<&str> = rebuilt.iter().map(|e| e.name.as_str()).collect();
    assert_eq!(names, vec!["system", "system/bin/tool-link", "init.rc", "default.prop"]);
    assert_eq!(rebuilt[2].mode & 0o170000, 0o040000);
    assert_eq!((rebuilt[2].uid, rebuilt[2].gid), (0, 0));
    assert_eq!(rebuilt[3].mode & 0o170000, 0o120000);
    assert_eq!(rebuilt[3].data, b"/elsewhere");
    assert_eq!(rebuilt[0].gid, 2000);
}

#[test]
fn walk_members_are_named_and_numbered() {
    let mut ino = 7u32;
    let (top, rel) = child_member("./", "", "system", DiskNode::Dir, &mut ino, 5);
    assert_eq!((top.name.as_str(), rel.as_str(), top.ino, ino), ("./system", "system", 7, 8));
    assert_eq!((top.mode, top.uid, top.gid, top.nlink), (0o040755, 0, 0, 2));
    let (f, rel2) = child_member("", &rel, "b.rc", DiskNode::File(0o100644, b"x".to_vec()), &mut ino, 5);
    assert_eq!((f.name.as_str(), rel2.as_str(), f.ino, ino), ("system/b.rc", "system/b.rc", 8, 9));
    assert_eq!(f.mode, 0o100644);
    let mut last = u32::MAX;
    let _ = child_member("", "", "l", DiskNode::Symlink(b"t".to_vec()), &mut last, 0);
    assert_eq!(last, 0);
    assert!(walk_depth_ok(32));
    assert!(!walk_depth_ok(33));
}
