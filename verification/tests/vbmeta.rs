use tuxkitchen::vbmeta::{
    locate_vbmeta_offset, patch_vbmeta_flags, patch_vbmeta_image, VbmetaError,
    AVB_VBMETA_FLAGS_DISABLE_ALL, AVB_VBMETA_IMAGE_FLAGS_HASHTREE_DISABLED,
};

fn synthetic_header() -> Vec<u8> {
    let mut h = vec![0u8; 256];
    h[0..4].copy_from_slice(b"AVB0");
    h[4..8].copy_from_slice(&1u32.to_be_bytes());
    h[8..12].copy_from_slice(&0u32.to_be_bytes());
    h
}

#[test]
fn vbmeta_flags_are_written_be() {
    let mut h = synthetic_header();
    assert!(h[120..124] == [0, 0, 0, 0]);
    patch_vbmeta_flags(&mut h, AVB_VBMETA_IMAGE_FLAGS_HASHTREE_DISABLED).unwrap();
    assert_eq!(&h[120..124], &1u32.to_be_bytes());
}

#[test]
fn vbmeta_rejects_bad_magic() {
    let mut h = synthetic_header();
    h[0..4].copy_from_slice(b"XXXX");
    assert!(patch_vbmeta_flags(&mut h, 2).is_err());
    let mut short = vec![0u8; 100];
    assert!(patch_vbmeta_flags(&mut short, 2).is_err());
}

#[test]
fn locate_handles_plain_and_footer_images() {
    let mut img = synthetic_header();
    assert_eq!(locate_vbmeta_offset(&img).unwrap(), 0);
    img.extend_from_slice(&vec![0u8; 512]);
    let mut footer = vec![0u8; 64];
    footer[0..4].copy_from_slice(b"AVBf");
    footer[20..28].copy_from_slice(&0u64.to_be_bytes());
    footer[28..36].copy_from_slice(&256u64.to_be_bytes());
    img.extend_from_slice(&footer);
    assert_eq!(locate_vbmeta_offset(&img).unwrap(), 0);
    assert!(locate_vbmeta_offset(&vec![0u8; 128]).is_err());
}

#[test]
fn flags_word_is_replaced_and_other_bytes_kept() {
    let mut h = synthetic_header();
    h[123] = 0x10;
    h[200] = 7;
    patch_vbmeta_flags(&mut h, 2).unwrap();
    assert_eq!(&h[120..124], &[0, 0, 0, 2]);
    assert_eq!(h[200], 7);
    assert_eq!(&h[0..4], b"AVB0");
}

#[test]
fn footer_pointing_elsewhere_is_followed() {
    let mut img = vec![0u8; 100];
    img.extend_from_slice(&synthetic_header());
    img.extend_from_slice(&vec![0u8; 64]);
    let mut footer = vec![0u8; 64];
    footer[0..4].copy_from_slice(b"AVBf");
    footer[20..28].copy_from_slice(&100u64.to_be_bytes());
    img.extend_from_slice(&footer);
    assert_eq!(locate_vbmeta_offset(&img).unwrap(), 100);
    patch_vbmeta_image(&mut img).unwrap();
    assert_eq!(&img[100 + 120..100 + 124], &AVB_VBMETA_FLAGS_DISABLE_ALL.to_be_bytes());
}

#[test]
fn image_without_header_is_refused() {
    let mut img = vec![1u8; 300];
    assert!(patch_vbmeta_image(&mut img).is_err());
    assert_eq!(img, vec![1u8; 300]);
    assert_eq!(locate_vbmeta_offset(&img), Err(VbmetaError::NotVbmeta));
    let mut short = vec![0u8; 100];
    assert_eq!(patch_vbmeta_flags(&mut short, 1), Err(VbmetaError::HeaderTooSmall(100)));
    let mut h = synthetic_header();
    h[0] = b'X';
    assert_eq!(patch_vbmeta_flags(&mut h, 1), Err(VbmetaError::MissingMagic));
}

#[test]
fn footer_to_nowhere_is_refused() {
    let mut img = vec![0u8; 200];
    let mut footer = vec![0u8; 64];
    footer[0..4].copy_from_slice(b"AVBf");
    footer[20..28].copy_from_slice(&1000u64.to_be_bytes());
    img.extend_from_slice(&footer);
    assert_eq!(locate_vbmeta_offset(&img), Err(VbmetaError::FooterOffsetOutOfRange));
}

#[test]
fn patching_twice_changes_nothing_more() {
    let mut img = vec![0u8; 64];
    img.extend_from_slice(&synthetic_header());
    let mut footer = vec![0u8; 64];
    footer[0..4].copy_from_slice(b"AVBf");
    footer[20..28].copy_from_slice(&64u64.to_be_bytes());
    img.extend_from_slice(&footer);
    patch_vbmeta_image(&mut img).unwrap();
    let once = img.clone();
    assert_eq!(locate_vbmeta_offset(&once).unwrap(), 64);
    patch_vbmeta_image(&mut img).unwrap();
    assert_eq!(img, once);
    assert_eq!(&once[64 + 120..64 + 124], &3u32.to_be_bytes());
}
