use tuxkitchen::fsconfig::{
    addressable, debugfs_commands, file_contexts_candidates, find_file_contexts, fs_config_image, join_paths,
    mount_prefix, ContextRules, EntryKind, TreeEntry,
};

fn entry(parts: &[&str], kind: EntryKind) -> TreeEntry {
    TreeEntry { parts: parts.iter().map(|s| s.to_string()).collect(), kind }
}

#[test]
fn fs_config_binary_layout() {
    let found = vec![
        ("/system/bin".to_string(), 0o755u16),
        ("/system/bin/tool".to_string(), 0o755u16),
        ("/system/readme".to_string(), 0o644u16),
    ];
    let (data, n) = fs_config_image("/system", &found);
    assert_eq!(n, 4);
    let len = u16::from_le_bytes([data[0], data[1]]) as usize;
    assert_eq!(len, 16 + b"/system/bin/tool".len() + 1);
    assert_eq!(u16::from_le_bytes([data[2], data[3]]), 0);
    assert_eq!(u16::from_le_bytes([data[4], data[5]]), 0);
    assert_eq!(u16::from_le_bytes([data[6], data[7]]), 0o755);
    assert_eq!(&data[8..16], &[0u8; 8]);
    assert_eq!(&data[16..len - 1], b"/system/bin/tool");
    assert_eq!(data[len - 1], 0);
    // then /system/readme (14 bytes), /system/bin (11), /system (7)
    let mut at = len;
    let mut names = Vec::new();
    while at < data.len() {
        let l = u16::from_le_bytes([data[at], data[at + 1]]) as usize;
        names.push(String::from_utf8(data[at + 16..at + l - 1].to_vec()).unwrap());
        at += l;
    }
    assert_eq!(names, vec!["/system/readme", "/system/bin", "/system"]);
    assert_eq!(at, data.len());
}

#[test]
fn equal_lengths_sort_by_path() {
    let found = vec![("/v/b".to_string(), 0o644u16), ("/v/a".to_string(), 0o600u16)];
    let (data, n) = fs_config_image("/v/", &found);
    assert_eq!(n, 3);
    assert_eq!(&data[16..20], b"/v/a");
    assert_eq!(u16::from_le_bytes([data[6], data[7]]), 0o600);
    let last = data.len() - (16 + 3 + 1);
    assert_eq!(&data[last + 16..last + 19], b"/v/");
}

#[test]
fn contexts_first_match_and_coverage() {
    let rules = ContextRules::parse(
        "/system/bin/sh u:object_r:shell_exec:s0\n/system/bin(/.*)? u:object_r:system_file:s0\n",
    );
    assert_eq!(rules.lookup("/system/bin/sh"), Some("u:object_r:shell_exec:s0"));
    assert_eq!(rules.lookup("/system/bin/tool"), Some("u:object_r:system_file:s0"));
    assert_eq!(rules.lookup("/system/loose"), None);
    let files = vec!["/system/bin/sh".to_string(), "/system/loose".to_string()];
    let (uncovered, total) = rules.uncovered(&files, 10);
    assert_eq!(total, 1);
    assert_eq!(uncovered, vec!["/system/loose"]);
    let (none, total) = rules.uncovered(&files, 0);
    assert!(none.is_empty());
    assert_eq!(total, 1);
}

#[test]
fn rules_match_whole_paths() {
    let rules = ContextRules::parse("/system/bin u:object_r:a:s0\n/system(/.*)? u:object_r:b:s0\n");
    assert_eq!(rules.lookup("/system/bin/sh"), Some("u:object_r:b:s0"));
    assert_eq!(rules.lookup("/system/bin"), Some("u:object_r:a:s0"));
    assert_eq!(rules.lookup("/vendor/system/bin"), None);
    assert_eq!(rules.lookup("/system"), Some("u:object_r:b:s0"));
}

#[test]
fn bad_patterns_are_counted_and_comments_passed_over() {
    let rules = ContextRules::parse("# comment\n\n/a(  u:r:x:s0\n/b   u:r:y:s0  \nlonely\n");
    assert_eq!(rules.skipped(), 1);
    assert_eq!(rules.lookup("/b"), Some("u:r:y:s0"));
    assert_eq!(rules.lookup("/a"), None);
}

#[test]
fn debugfs_script_labels_and_skips() {
    let rules = ContextRules::parse("/system/bin(/.*)? u:object_r:bin:s0\n/system u:object_r:root:s0\n");
    let entries = vec![
        entry(&["bin"], EntryKind::Dir),
        entry(&["bin", "sh"], EntryKind::File),
        entry(&["bin", "link"], EntryKind::Other),
        entry(&["my dir"], EntryKind::Dir),
        entry(&["etc"], EntryKind::Dir),
    ];
    let (cmds, skipped) = debugfs_commands("/system/", Some(&rules), &entries);
    assert_eq!(skipped, 1);
    assert_eq!(
        cmds,
        vec![
            "sif / uid 0",
            "sif / gid 0",
            "ea_set / security.selinux u:object_r:root:s0",
            "sif /bin uid 0",
            "sif /bin gid 0",
            "ea_set /bin security.selinux u:object_r:bin:s0",
            "sif /bin/sh uid 0",
            "sif /bin/sh gid 0",
            "ea_set /bin/sh security.selinux u:object_r:bin:s0",
            "ea_set /bin/link security.selinux u:object_r:bin:s0",
            "sif /etc uid 0",
            "sif /etc gid 0",
            "ea_set /etc security.selinux u:object_r:root:s0",
        ]
    );
    let (bare, skipped) = debugfs_commands("/vendor", None, &entries[0..1]);
    assert_eq!(skipped, 0);
    assert_eq!(bare, vec!["sif / uid 0", "sif / gid 0", "sif /bin uid 0", "sif /bin gid 0"]);
}

#[test]
fn addressable_paths_have_no_spaces_or_quotes() {
    assert!(addressable("/bin/sh"));
    assert!(!addressable("/my dir"));
    assert!(!addressable("/a\"b"));
    assert!(!addressable("/tab\there"));
}

#[test]
fn file_contexts_are_found_in_preference_order() {
    let (t, b) = file_contexts_candidates("/ws", "/ws/system");
    assert_eq!(t[0], "/ws/system/etc/selinux/file_contexts");
    assert_eq!(t[2], "/ws/file_contexts");
    assert_eq!(b[2], "/ws/system/etc/selinux/file_contexts.bin");
    let existing = vec!["/ws/file_contexts.txt".to_string(), "/ws/file_contexts.bin".to_string(), "/ws/file_contexts".to_string()];
    let (text, bin) = find_file_contexts("/ws", "/ws/system", &existing);
    assert_eq!(text.as_deref(), Some("/ws/file_contexts"));
    assert_eq!(bin.as_deref(), Some("/ws/file_contexts.bin"));
    assert_eq!(find_file_contexts("/ws", "/ws/system", &[]), (None, None));
}

#[test]
fn joins_and_prefixes() {
    assert_eq!(join_paths("/a", "b"), "/a/b");
    assert_eq!(join_paths("/a/", "b"), "/a/b");
    assert_eq!(join_paths("", "b"), "b");
    assert_eq!(mount_prefix("/system//"), "/system");
    assert_eq!(mount_prefix("/"), "");
}
