use tuxkitchen::imaging::{
    erofs_compressor, ext4_command, f2fs_command, image_format, image_mb, inode_count, lpmake_args,
    md5_from_output, mount_point_of, parse_lpdump, shell_quote, size_mb, super_part_of, BuildError, ImageFormat,
};

#[test]
fn quoting_for_sh() {
    assert_eq!(shell_quote("plain"), "'plain'");
    assert_eq!(shell_quote("it's"), "'it'\\''s'");
    assert_eq!(shell_quote(""), "''");
}

#[test]
fn sizes_round_up_and_grow() {
    assert_eq!(size_mb(0), 0);
    assert_eq!(size_mb(1), 1);
    assert_eq!(size_mb(1048576), 1);
    assert_eq!(size_mb(1048577), 2);
    assert_eq!(size_mb(u64::MAX), 17592186044416);
    assert_eq!(image_mb(100, 64), 125);
    assert_eq!(image_mb(10, 64), 64);
    assert_eq!(image_mb(u64::MAX, 0), (u64::MAX as u128) * 125 / 100);
    assert_eq!(inode_count(100), 1024);
    assert_eq!(inode_count(10000), 11500);
}

#[test]
fn image_commands() {
    assert_eq!(mount_point_of("system_new"), "/system");
    assert_eq!(mount_point_of("vendor"), "/vendor");
    assert_eq!(
        ext4_command(125, "/w/system_new.img", 2048, "/w/system"),
        "truncate -s 125M '/w/system_new.img' && mkfs.ext4 -F -b 4096 -I 256 -N 2048 -O ^has_journal,^resize_inode,^metadata_csum -d '/w/system' '/w/system_new.img'"
    );
    assert_eq!(f2fs_command(64, "/o/x.img"), "truncate -s 64M '/o/x.img' && mkfs.f2fs -f '/o/x.img'");
    assert_eq!(erofs_compressor(Some("lz4hc")).as_deref(), Some("lz4hc"));
    assert_eq!(erofs_compressor(Some("zstd")), None);
    assert_eq!(erofs_compressor(None), None);
    assert_eq!(image_format("erofs"), Ok(ImageFormat::Erofs));
    assert_eq!(image_format("btrfs"), Err(BuildError::UnsupportedFormat("btrfs".to_string())));
}

#[test]
fn lpdump_takes_first_group_and_last_slot_count() {
    let (g, s) = parse_lpdump("Metadata slot count: 2\nGroup default: x\nGroup main: Maximum size 1\nMetadata slot count: 3\n");
    assert_eq!(g.as_deref(), Some("default"));
    assert_eq!(s, Some(3));
    let (g, s) = parse_lpdump("Group : nothing\nMetadata slot count: lots\n");
    assert_eq!(g, None);
    assert_eq!(s, None);
}

#[test]
fn super_layout_arguments() {
    assert_eq!(super_part_of("system_new.img").as_deref(), Some("system"));
    assert_eq!(super_part_of("super_new.img"), None);
    assert_eq!(super_part_of("boot.img"), None);
    let parts = vec![
        ("system".to_string(), "/w/system_new.img".to_string(), 1000u64),
        ("vendor".to_string(), "/w/vendor_new.img".to_string(), 24u64),
    ];
    assert_eq!(
        lpmake_args(&parts, "main", 3, "/w/super_new.img"),
        vec![
            "--metadata-size", "65536", "--metadata-slots", "3", "--device-size", "auto", "--group", "main:1024",
            "--partition", "system:readonly:1000:main", "--image", "system=/w/system_new.img",
            "--partition", "vendor:readonly:24:main", "--image", "vendor=/w/vendor_new.img",
            "--output", "/w/super_new.img",
        ]
    );
}

#[test]
fn md5_is_the_first_word_when_hex() {
    assert_eq!(
        md5_from_output("d41d8cd98f00b204e9800998ecf8427e  file.tar\n").as_deref(),
        Some("d41d8cd98f00b204e9800998ecf8427e")
    );
    assert_eq!(md5_from_output("not-a-hash file"), None);
    assert_eq!(md5_from_output(""), None);
    assert_eq!(md5_from_output("D41D8CD98F00B204E9800998ECF8427E"), Some("D41D8CD98F00B204E9800998ECF8427E".to_string()));
}
