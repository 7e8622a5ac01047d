use tuxkitchen::paths::{confine_prop_target, confine_resolved, path_starts_with, paths_equal, relative_part, ConfineError};
use tuxkitchen::props::{is_prop_name, parse_props, prop_candidates};
use tuxkitchen::tools::{probe_detail, probe_early, probe_header, probe_kind, tools, tools_report, u32_be, u32_le};

#[test]
fn identifies_by_signature_not_extension() {
    let cases: Vec<(&[u8], &str)> = vec![
        (b"ANDROID!\x00\x01", "boot"),
        (b"CrAU\x00\x00\x00\x00", "payload"),
        (&[0x3a, 0xff, 0x26, 0xed, 0, 0, 0, 0], "sparse"),
    ];
    for (bytes, expect) in cases {
        assert_eq!(probe_kind(bytes), expect);
    }
    let mut ext = vec![0u8; 2048];
    ext[1080..1084].copy_from_slice(&0xef53u32.to_le_bytes());
    assert_eq!(probe_kind(&ext), "ext");
}

#[test]
fn more_signatures_and_details() {
    let mut tar = vec![0u8; 512];
    tar[257..262].copy_from_slice(b"ustar");
    assert_eq!(probe_kind(&tar), "tar");
    let mut erofs = vec![0u8; 2048];
    erofs[1024..1030].copy_from_slice(b"EROFS\0");
    assert_eq!(probe_kind(&erofs), "erofs");
    let mut footer = vec![0u8; 128];
    footer[64..68].copy_from_slice(b"AVBf");
    assert_eq!(probe_kind(&footer), "vbmeta");
    assert_eq!(probe_kind(&[0xd7, 0xb7, 0xab, 0x1e]), "dtbo");
    assert_eq!(probe_kind(b"PK\x03\x04rest"), "zip");
    assert_eq!(probe_kind(&[0x28, 0xb5, 0x2f, 0xfd]), "zstd");
    assert_eq!(probe_kind(b"BZh9"), "bzip2");
    assert_eq!(probe_kind(b"hello"), "unknown");
    assert_eq!(probe_kind(b""), "unknown");
    let r = probe_header(b"\x1f\x8b\x08");
    assert_eq!(r.kind, "gzip");
    assert_eq!(r.detail, "compressed stream - decompress before use");
    assert_eq!(probe_detail("ext"), "ext4 filesystem image - extract with 7z or build from a directory");
    assert_eq!(probe_detail("mystery"), "unrecognized signature");
    let mut boot = vec![0u8; 260];
    boot[0..8].copy_from_slice(b"ANDROID!");
    assert_eq!(probe_early(&boot), Some("boot"));
    assert_eq!(probe_kind(&boot), "boot");
    assert_eq!(probe_early(&[0u8; 260]), None);
    assert_eq!(u32_be(&[1, 2, 3, 4]), 0x01020304);
    assert_eq!(u32_le(&[1, 2, 3, 4]), 0x04030201);
}

#[test]
fn tool_table_and_report() {
    let t = tools();
    assert_eq!(t.len(), 25);
    assert_eq!(t[0].0, "magiskboot");
    assert_eq!(t[24], ("gzip", "kernel embedded-config (IKCONFIG) decompression", "pacman: gzip"));
    let mut installed = vec![false; 25];
    installed[1] = true;
    let report = tools_report(&installed);
    assert_eq!(report.len(), 25);
    assert_eq!(report[1].name, "unzip");
    assert!(report[1].installed);
    assert!(!report[0].installed);
    assert_eq!(report[2].hint, "pacman: 7zip");
}

#[test]
fn prop_files_and_names() {
    let c = prop_candidates();
    assert_eq!(c.len(), 10);
    assert_eq!(c[0], "build.prop");
    assert_eq!(c[9], "default.prop");
    assert!(is_prop_name("build.prop"));
    assert!(is_prop_name("odm.prop"));
    assert!(is_prop_name("prop.default"));
    assert!(!is_prop_name("build.prop.bak"));
    assert!(!is_prop_name(""));
    let props = parse_props("  key = value with  spaces \n#x=1\n  # y=2\nnoequals\n=empty key\n");
    assert_eq!(props, vec![
        ("key".to_string(), " value with  spaces ".to_string()),
        ("".to_string(), "empty key".to_string()),
    ]);
}

#[test]
fn paths_compare_by_component() {
    assert!(path_starts_with("/ws/system/app", "/ws"));
    assert!(path_starts_with("/ws//system/./app/", "/ws/"));
    assert!(!path_starts_with("/wsx/a", "/ws"));
    assert!(!path_starts_with("ws/a", "/ws"));
    assert!(path_starts_with("/ws", "/ws"));
    assert!(path_starts_with("/anything", "/"));
    assert!(paths_equal("/ws/", "/ws"));
    assert!(!paths_equal("/ws/a", "/ws"));
    assert_eq!(relative_part("//system/build.prop"), "system/build.prop");
}

#[test]
fn confinement_refusals() {
    assert_eq!(confine_resolved("/ws", "/ws/system/app/Foo"), Ok(()));
    assert_eq!(confine_resolved("/ws", "/etc/passwd"), Err(ConfineError::Outside));
    assert_eq!(confine_resolved("/ws", "/ws/"), Err(ConfineError::Workspace));
    assert_eq!(
        confine_prop_target("/ws", "/ws/system/build.prop", Some("/ws/system"), true, Some("/ws/system/build.prop"), Some("build.prop")),
        Ok(())
    );
    assert_eq!(
        confine_prop_target("/ws", "/ws/system/build.prop", Some("/elsewhere"), false, None, Some("build.prop")),
        Err(ConfineError::Outside)
    );
    assert_eq!(
        confine_prop_target("/ws", "/ws/system/build.prop", None, false, None, Some("build.prop")),
        Err(ConfineError::Outside)
    );
    assert_eq!(
        confine_prop_target("/ws", "/ws/system/init.rc", Some("/ws/system"), false, None, Some("init.rc")),
        Err(ConfineError::NotProp("init.rc".to_string()))
    );
    assert_eq!(
        confine_prop_target("/ws", "/ws/new.prop", Some("/ws"), false, None, Some("new.prop")),
        Ok(())
    );
    assert_eq!(
        confine_prop_target("/ws", "/ws/evil.prop", Some("/ws"), true, Some("/tmp/outside.prop"), Some("evil.prop")),
        Err(ConfineError::Outside)
    );
    assert_eq!(
        confine_prop_target("/ws", "/ws/dangling.prop", Some("/ws"), true, None, Some("dangling.prop")),
        Err(ConfineError::Outside)
    );
}
