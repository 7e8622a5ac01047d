use tuxkitchen::ikconfig::{
    build_warning_lines, config_blob, config_entries, fmt_bool, kernel_candidates, parse_config, summarize,
    supported, KernelFsSupport,
};

const CONFIG: &str = "\
CONFIG_LINUX_VERSION=6
CONFIG_EXT4_FS=y
CONFIG_EROFS_FS=y
CONFIG_EROFS_FS_ZIP=y
CONFIG_EROFS_FS_ZIP_LZ4=y
CONFIG_EROFS_FS_ZIP_ZSTD=n
CONFIG_F2FS_FS is not set
CONFIG_F2FS_FS_COMPRESSION is not set
";

#[test]
fn extracts_and_summarises_support() {
    let map = parse_config(CONFIG.as_bytes()).unwrap();
    let s = summarize(&map);
    assert!(s.config_found);
    assert_eq!(s.total_entries, 8);
    assert_eq!(s.ext4, Some(true));
    assert_eq!(s.erofs, Some(true));
    assert_eq!(s.erofs_zip, Some(true));
    assert_eq!(s.f2fs, Some(false));
    assert!(s.algorithms.contains(&"EROFS LZ4".to_string()));
    assert!(!s.algorithms.contains(&"EROFS zstd".to_string()));
    assert!(!s.algorithms.iter().any(|a| a.starts_with("F2FS ")));
    assert_eq!(s.algorithms, vec!["EROFS LZ4"]);
}

#[test]
fn rejects_kernel_without_config() {
    let kernel = b"bare kernel without ikconfig".repeat(10);
    assert_eq!(config_blob(&kernel), None);
    let s = KernelFsSupport::not_found();
    assert!(!s.config_found);
    assert_eq!(s.erofs, None);
    assert_eq!(parse_config(b""), None);
    assert_eq!(parse_config(b"# nothing\nfoo=bar\n"), None);
}

#[test]
fn finds_the_embedded_stream() {
    let mut kernel = vec![0u8; 1024];
    kernel.extend_from_slice(b"\x11arch stuff\x22");
    kernel.extend_from_slice(b"IKCFG_ST");
    let start = kernel.len();
    kernel.extend_from_slice(&[0x1f, 0x8b, 8, 0, 1, 2, 3]);
    let end = kernel.len();
    kernel.extend_from_slice(b"IKCFG_ED");
    kernel.extend_from_slice(&[0u8; 512]);
    assert_eq!(config_blob(&kernel), Some((start, end)));
    let mut no_gzip = kernel.clone();
    no_gzip[start] = 0;
    assert_eq!(config_blob(&no_gzip), None);
    let cut = &kernel[..end];
    assert_eq!(config_blob(cut), None);
}

#[test]
fn config_lines_are_read_leniently() {
    let es = config_entries("  CONFIG_A = y \n# CONFIG_B is not set\nCONFIG_C is not set\nCONFIG_D=\"x=y\"\nOTHER=1\n");
    assert_eq!(es, vec![
        ("CONFIG_A".to_string(), "y".to_string()),
        ("CONFIG_C".to_string(), "n".to_string()),
        ("CONFIG_D".to_string(), "\"x=y\"".to_string()),
    ]);
    let lossy = parse_config(b"CONFIG_NAME=\xffab\n").unwrap();
    assert_eq!(lossy[0].1, "\u{fffd}ab");
}

#[test]
fn lookups_take_the_first_entry() {
    let map = vec![
        ("CONFIG_X".to_string(), "m".to_string()),
        ("CONFIG_X".to_string(), "n".to_string()),
        ("CONFIG_Y".to_string(), "n".to_string()),
    ];
    let mut algos = vec!["a".to_string()];
    assert_eq!(supported(&map, "CONFIG_Z", "Z", &mut algos), None);
    assert_eq!(supported(&map, "CONFIG_X", "X", &mut algos), Some(true));
    assert_eq!(supported(&map, "CONFIG_Y", "Y", &mut algos), Some(false));
    assert_eq!(algos, vec!["a", "X"]);
}

#[test]
fn build_warnings_per_format() {
    let map = parse_config(CONFIG.as_bytes()).unwrap();
    let s = summarize(&map);
    let lines = build_warning_lines(Some("/ws/kernel"), &s, "f2fs");
    assert_eq!(lines, vec![
        "[Kernel] embedded config read from /ws/kernel (8 entries)",
        "[Kernel] F2FS filesystem: NOT in kernel",
        "[Kernel] WARNING: kernel lacks f2fs filesystem - the built f2fs image may not mount on this device",
        "[Kernel] F2FS compression: NOT in kernel",
        "[Kernel] WARNING: kernel lacks f2fs compression - the built f2fs image may not mount on this device",
        "[Kernel] compression support: EROFS LZ4",
    ]);
    let none = build_warning_lines(None, &s, "ext4");
    assert_eq!(none.len(), 1);
    assert!(none[0].starts_with("[Kernel] no unpacked kernel"));
    let bare = build_warning_lines(Some("k"), &KernelFsSupport::not_found(), "erofs");
    assert_eq!(bare, vec!["[Kernel] k carries no embedded config (CONFIG_IKCONFIG disabled) - cannot verify erofs support"]);
    assert_eq!(fmt_bool(None), "not mentioned in config");
    assert_eq!(kernel_candidates("/ws"), vec!["/ws/kernel", "/ws/boot/kernel", "/ws/boot-unpack/kernel"]);
}
