use tuxkitchen::device::{
    adb_reboot_arg, fastboot_reboot_arg, flash_gate, is_bootloader_class, is_bootloader_partition,
    is_dynamic_class, is_dynamic_partition, is_identity_class, is_identity_partition, parse_fastboot_devices,
    parse_fastboot_vars, parse_getprop, parse_hex_size, plan_flash, FlashRefusal, RebootError,
};

fn v(pairs: &[(&str, &str)]) -> Vec<(String, String)> {
    pairs.iter().map(|(a, b)| (a.to_string(), b.to_string())).collect()
}

#[test]
fn risky_partitions_need_acknowledgement_not_refusal() {
    assert!(is_bootloader_partition("xbl_a"));
    assert!(is_bootloader_partition("keymaster"));
    assert!(!is_bootloader_partition("boot"));
    assert!(is_dynamic_partition("system_a"));
    assert!(is_dynamic_partition("vendor"));
    assert!(!is_dynamic_partition("boot_b"));

    let img = "/images/system.img";
    let vars = v(&[("is-userspace", "yes"), ("partition-size:system_a", "0x1000")]);
    let plan = plan_flash("system_a", img, 16, &vars, false, false, false);
    assert!(plan.blockers.is_empty() && plan.unacknowledged.is_empty() && plan.warnings.is_empty());
    assert_eq!(plan.partition_size, Some(4096));
    assert_eq!(plan.userspace_fastboot, Some(true));

    let vars_bl = v(&[("is-userspace", "no")]);
    let plan = plan_flash("system_a", img, 16, &vars_bl, false, false, false);
    assert!(plan.blockers.is_empty());
    assert!(plan.unacknowledged.iter().any(|m| m.contains("fastbootd")));
    let plan = plan_flash("system_a", img, 16, &vars_bl, false, false, true);
    assert!(plan.unacknowledged.is_empty());
    assert!(plan.warnings.iter().any(|m| m.contains("fastbootd")));

    let plan = plan_flash("xbl", img, 16, &vars_bl, false, false, true);
    assert!(plan.unacknowledged.iter().any(|m| m.contains("bootloader chain")));
    let plan = plan_flash("xbl", img, 16, &vars_bl, true, false, true);
    assert!(plan.unacknowledged.is_empty());
    assert!(plan.warnings.iter().any(|m| m.contains("BOOTLOADER CHAIN OVERRIDE")));

    let plan = plan_flash("persist", img, 16, &[], false, false, false);
    assert!(plan.identity);
    assert!(plan.unacknowledged.iter().any(|m| m.contains("cannot be undone")));
    let plan = plan_flash("persist", img, 16, &[], false, true, false);
    assert!(plan.unacknowledged.is_empty());
    assert!(plan.warnings.iter().any(|m| m.contains("IDENTITY PARTITION OVERRIDE")));
}

#[test]
fn oversized_images_block_even_with_every_opt_in() {
    let vars = v(&[("is-userspace", "yes"), ("partition-size:boot_a", "0x400")]);
    let plan = plan_flash("boot_a", "/tmp/boot.img", 1025, &vars, true, true, true);
    assert!(plan.blockers.iter().any(|m| m.contains("larger than partition")));
    assert_eq!(
        plan.blockers[0],
        "image (1025 bytes) is larger than partition boot_a (1024 bytes) - fastboot would fail mid-write"
    );
    match flash_gate(&plan) {
        Err(FlashRefusal::Impossible(m)) => assert!(m.contains("larger than partition")),
        other => panic!("expected a refusal, got {:?}", other),
    }
    let fits = plan_flash("boot_a", "/tmp/boot.img", 1024, &vars, false, false, false);
    assert!(fits.blockers.is_empty());
    assert!(flash_gate(&fits).is_ok());
}

#[test]
fn gate_asks_for_acknowledgements_after_blockers() {
    let plan = plan_flash("persist_a", "/x.img", 1, &[], false, false, false);
    match flash_gate(&plan) {
        Err(FlashRefusal::Unacknowledged(m)) => assert!(m.starts_with("persist_a holds device identity")),
        other => panic!("expected an acknowledgement request, got {:?}", other),
    }
    let two = plan_flash("xbl", "/x.img", 1, &[], false, false, false);
    assert_eq!(two.unacknowledged.len(), 1);
    let ok = plan_flash("xbl", "/x.img", 1, &[], true, false, false);
    assert_eq!(ok.warnings.len(), 1);
    assert!(flash_gate(&ok).is_ok());
}

#[test]
fn slot_suffixes_do_not_change_the_class() {
    for p in ["persist", "xbl", "system", "boot", "modemst1"] {
        let a = format!("{}_a", p);
        let b = format!("{}_b", p);
        assert_eq!(is_identity_partition(&a), is_identity_partition(p));
        assert_eq!(is_identity_partition(&b), is_identity_partition(p));
        assert_eq!(is_bootloader_partition(&a), is_bootloader_partition(p));
        assert_eq!(is_dynamic_partition(&b), is_dynamic_partition(p));
    }
    assert!(is_identity_partition("PERSIST_a"));
    assert!(!is_identity_partition("PERSIST_A"));
    assert!(is_bootloader_partition("XBL_Config"));
    assert!(is_identity_class("nvram"));
    assert!(!is_identity_class("NVRAM"));
    assert!(is_bootloader_class("cpucp"));
    assert!(is_dynamic_class("odm_dlkm"));
    assert!(!is_dynamic_class("boot"));
}

#[test]
fn hex_sizes_accept_prefixes_and_spaces() {
    assert_eq!(parse_hex_size(" 0X10 "), Some(16));
    assert_eq!(parse_hex_size("ff"), Some(255));
    assert_eq!(parse_hex_size("0x"), None);
    assert_eq!(parse_hex_size("0xffffffffffffffff"), Some(u64::MAX));
    assert_eq!(parse_hex_size("0x10000000000000000"), None);
}

#[test]
fn fastboot_vars_skip_noise() {
    let out = "(bootloader) max-download-size: 0x10000000\nrandom line\n(bootloader) slot-count: 2\nFinished.";
    let vars = parse_fastboot_vars(out);
    assert_eq!(vars, vec![
        ("max-download-size".to_string(), "0x10000000".to_string()),
        ("slot-count".to_string(), "2".to_string()),
    ]);
}

#[test]
fn fastboot_devices_and_getprop_lines() {
    let devs = parse_fastboot_devices("ABC123\tfastboot\nXYZ\tfastbootd\nlonely\n");
    assert_eq!(devs.len(), 2);
    assert_eq!(devs[0].serial, "ABC123");
    assert_eq!(devs[0].state, "fastboot");
    assert_eq!(devs[1].serial, "XYZ");
    assert_eq!(devs[1].state, "fastboot");
    let props = parse_getprop("[ro.product.model]: [SM-X115]\n  [a]: [b]: [c]  \nnoise\n[bad]\n");
    assert_eq!(props, vec![
        ("ro.product.model".to_string(), "SM-X115".to_string()),
        ("a".to_string(), "b]: [c".to_string()),
    ]);
}

#[test]
fn reboot_targets_per_transport() {
    assert_eq!(adb_reboot_arg("fastbootd").unwrap(), "fastboot");
    assert_eq!(adb_reboot_arg("download").unwrap(), "download");
    assert_eq!(adb_reboot_arg("edl"), Err(RebootError::UnsupportedTarget("edl".to_string())));
    assert_eq!(fastboot_reboot_arg("fastbootd").unwrap(), "reboot-fastboot");
    assert_eq!(fastboot_reboot_arg("recovery").unwrap(), "reboot-recovery");
    assert_eq!(fastboot_reboot_arg("download"), Err(RebootError::UnsupportedTarget("download".to_string())));
}
