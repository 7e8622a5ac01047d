use tuxkitchen::unpack::{unpack_command, ToolCommand, UnpackError};
use tuxkitchen::sdat::transfer_list_path;
use tuxkitchen::workspace::{sort_removed, RemovedApp};
use tuxkitchen::tools::is_signer_jar;
use tuxkitchen::workspace::{
    app_dirs, backup_destination, backup_root, check_new_name, create_project, deodex_dirs, deodex_outcome,
    deodex_plan, disarm_kind, disarm_outcome, disarmed_name, find_tool, has_artifact_suffix, is_app_artifact,
    kernel_patches, magiskboot_candidates, remove_project, removed_app, restore_destination, sort_apps,
    sort_listing, tool_candidates, AppInfo, BackupError, DirEntryInfo, DisarmKind, Project, RunError,
};

#[test]
fn backup_and_restore_round_trip() {
    let ws = "/home/u/proj";
    let root = backup_root(ws);
    assert_eq!(root, "/home/u/proj/.tuxkitchen/removed");
    let dest = backup_destination(&root, ws, "/home/u/proj/system/app/Foo").unwrap();
    assert_eq!(dest, "/home/u/proj/.tuxkitchen/removed/system/app/Foo");
    assert_eq!(restore_destination(&dest).unwrap(), "/home/u/proj/system/app/Foo");
    let dest2 = backup_destination(&root, "/home/u/proj/", "/home/u/proj//vendor/./app/Bar/").unwrap();
    assert_eq!(restore_destination(&dest2).unwrap(), "/home/u/proj/vendor/app/Bar");
}

#[test]
fn backup_refusals() {
    let root = backup_root("/ws");
    assert_eq!(backup_destination(&root, "/ws", "/etc/hosts"), Err(BackupError::Outside));
    assert_eq!(backup_destination(&root, "/ws", "/ws"), Err(BackupError::Workspace));
    assert_eq!(backup_destination(&root, "/ws", "/wsx/a"), Err(BackupError::Outside));
    assert_eq!(restore_destination("/ws/elsewhere/a"), Err(BackupError::NotInBackup));
    assert_eq!(restore_destination("/ws/removed/a/b"), Err(BackupError::NotInBackup));
    assert_eq!(restore_destination("/ws/.tuxkitchen/removed/a/b").unwrap(), "/ws/a/b");
    let root = backup_root("/data/removed/ws");
    let dest = backup_destination(&root, "/data/removed/ws", "/data/removed/ws/system/app/X").unwrap();
    assert_eq!(dest, "/data/removed/ws/.tuxkitchen/removed/system/app/X");
    assert_eq!(restore_destination(&dest).unwrap(), "/data/removed/ws/system/app/X");
}

#[test]
fn removed_entries_name_their_origin() {
    let rel = vec!["system".to_string(), "app".to_string(), "Foo".to_string()];
    let r = removed_app("/ws", "/ws/.tuxkitchen/removed/system/app/Foo", &rel);
    assert_eq!(r.name, "system/app/Foo");
    assert_eq!(r.original_path, "/ws/system/app/Foo");
    assert_eq!(r.backup_path, "/ws/.tuxkitchen/removed/system/app/Foo");
}

#[test]
fn app_folders_and_artifacts() {
    assert_eq!(app_dirs().len(), 9);
    assert_eq!(app_dirs()[0], "system/app");
    assert_eq!(deodex_dirs()[0], "system/app");
    assert!(is_app_artifact("Foo.APK"));
    assert!(is_app_artifact("base.odex"));
    assert!(is_app_artifact("base.Vdex"));
    assert!(!is_app_artifact("readme.txt"));
    assert!(has_artifact_suffix("x.apk"));
    assert!(!has_artifact_suffix("x.APK"));
}

#[test]
fn apps_sort_case_insensitively_and_stably() {
    let app = |n: &str, p: &str| AppInfo { name: n.to_string(), path: p.to_string(), size: 1 };
    let sorted = sort_apps(vec![app("beta", "1"), app("Alpha", "2"), app("alpha", "3"), app("Gamma", "4")]);
    let order: Vec<&str> = sorted.iter().map(|a| a.path.as_str()).collect();
    assert_eq!(order, vec!["2", "3", "1", "4"]);
}

#[test]
fn listings_put_directories_first() {
    let e = |n: &str, d: bool| DirEntryInfo { name: n.to_string(), is_dir: d, size: 0 };
    let sorted = sort_listing(vec![e("b.txt", false), e("Zeta", true), e("a.txt", false), e("alpha", true)]);
    let names: Vec<&str> = sorted.iter().map(|x| x.name.as_str()).collect();
    assert_eq!(names, vec!["alpha", "Zeta", "a.txt", "b.txt"]);
}

#[test]
fn rename_targets() {
    assert!(check_new_name("new.txt"));
    assert!(!check_new_name(""));
    assert!(!check_new_name("a/b"));
    assert!(!check_new_name("a\\b"));
    assert!(!check_new_name(".hidden"));
}

#[test]
fn samsung_disarm_choices() {
    assert_eq!(disarm_kind("boot.img"), Some(DisarmKind::Boot));
    assert_eq!(disarm_kind("vendor_boot.img"), Some(DisarmKind::Boot));
    assert_eq!(disarm_kind("vbmeta_system.img"), Some(DisarmKind::Vbmeta));
    assert_eq!(disarm_kind("recovery.img"), None);
    assert_eq!(disarm_kind("boot.img.lz4"), None);
    assert_eq!(disarmed_name("boot.img"), "boot_disarmed.img");
    assert_eq!(kernel_patches().len(), 3);
    assert_eq!(kernel_patches()[1], ("defex", "821B8012", "E2FF8F12"));
    assert_eq!(disarm_outcome(false), Err(RunError::NothingPatched));
    assert_eq!(disarm_outcome(true), Ok(()));
    assert_eq!(deodex_outcome(0), Err(RunError::NothingDeodexed));
    assert_eq!(deodex_outcome(2), Ok(()));
}

#[test]
fn deodex_plans_follow_the_oat_layout() {
    let p = deodex_plan("/ws/system/app/Foo/oat/arm64/Foo.odex");
    assert_eq!(p.dir, "/ws/system/app/Foo/oat/arm64");
    assert_eq!(p.stem, "Foo");
    assert_eq!(p.apk, "/ws/system/app/Foo/oat/arm64/Foo.apk");
    assert!(!p.in_oat);
    let q = deodex_plan("/ws/system/app/Bar/oat/Bar.odex");
    assert_eq!(q.apk, "/ws/system/app/Bar/Bar.apk");
    assert!(q.in_oat);
    assert_eq!(q.oat_parent, "/ws/system/app/Bar");
    assert_eq!(q.scratch, "/ws/system/app/Bar/oat/.deodex-Bar");
    assert_eq!(
        q.artifacts,
        vec![
            "/ws/system/app/Bar/oat/Bar.vdex",
            "/ws/system/app/Bar/oat/Bar.art",
            "/ws/system/app/Bar/Bar.vdex",
            "/ws/system/app/Bar/Bar.art",
        ]
    );
}

#[test]
fn projects_are_created_and_removed() {
    let p = create_project("ROM".to_string(), "/ws".to_string());
    assert_eq!(p.name, "ROM");
    assert_eq!(p.path, "/ws");
    assert_eq!(p.id.len(), 36);
    assert_eq!(p.id.chars().filter(|c| *c == '-').count(), 4);
    let q = create_project("ROM".to_string(), "/ws".to_string());
    assert_ne!(p.id, q.id);
    assert!(p.created_at.contains('T'));
    let id: Vec<char> = p.id.chars().collect();
    assert_eq!((id[8], id[13], id[14], id[18], id[23]), ('-', '-', '4', '-', '-'));
    assert!(matches!(id[19], '8' | '9' | 'a' | 'b'));
    let at: Vec<char> = p.created_at.chars().collect();
    let n = at.len();
    assert!(n >= 25);
    assert_eq!((at[4], at[7], at[10], at[13], at[16], at[n - 3]), ('-', '-', 'T', ':', ':', ':'));
    assert!(at[n - 6] == '+' || at[n - 6] == '-');
    let mk = |id: &str| Project { id: id.to_string(), name: id.to_string(), path: String::new(), created_at: String::new() };
    let rest = remove_project(vec![mk("a"), mk("b"), mk("a"), mk("c")], "a");
    let ids: Vec<&str> = rest.iter().map(|p| p.id.as_str()).collect();
    assert_eq!(ids, vec!["b", "c"]);
}

#[test]
fn tools_are_looked_up_on_path() {
    assert_eq!(tool_candidates("/usr/bin:/opt/bin/", "lpmake"), vec!["/usr/bin/lpmake", "/opt/bin/lpmake"]);
    assert_eq!(tool_candidates("", "x"), vec!["x"]);
    let c = vec!["/a/t".to_string(), "/b/t".to_string(), "/c/t".to_string()];
    assert_eq!(find_tool(&c, &[false, true, true]).as_deref(), Some("/b/t"));
    assert_eq!(find_tool(&c, &[false, false, false]), None);
    assert_eq!(
        magiskboot_candidates(Some("/opt/mb"), Some("/usr/bin")),
        vec!["/opt/mb", "/usr/lib/tuxkitchen/magiskboot", "/usr/bin/magiskboot"]
    );
    assert_eq!(magiskboot_candidates(None, None), vec!["/usr/lib/tuxkitchen/magiskboot"]);
}

#[test]
fn rom_archives_pick_their_unpacker() {
    let c = unpack_command("/dl/rom.zip", "/ws").unwrap();
    assert_eq!(c, ToolCommand { program: "unzip".into(), args: vec!["-o".into(), "/dl/rom.zip".into(), "-d".into(), "/ws".into()] });
    assert_eq!(unpack_command("/dl/AP.tar.md5", "/ws").unwrap().program, "tar");
    assert_eq!(unpack_command("/dl/a.7z", "/ws").unwrap().args, vec!["x", "/dl/a.7z", "-o/ws"]);
    assert_eq!(unpack_command("/dl/super.img.lz4", "/ws").unwrap().args, vec!["-d", "/dl/super.img.lz4", "/ws/extracted.img"]);
    assert_eq!(unpack_command("/dl/system.new.dat.br", "/ws").unwrap().args, vec!["-d", "/dl/system.new.dat.br", "-o", "/ws/system.new.dat"]);
    assert_eq!(unpack_command("/dl/firmware.bin", "/ws"), Err(UnpackError::UnsupportedExtension("bin".into())));
    assert_eq!(unpack_command("/dl/noext", "/ws"), Err(UnpackError::UnsupportedExtension(String::new())));
}

#[test]
fn transfer_lists_sit_beside_the_dat() {
    assert_eq!(transfer_list_path("/ws/system.new.dat"), "/ws/system.transfer.list");
    assert_eq!(transfer_list_path("/ws/vendor.dat"), "/ws/vendor.transfer.list");
    assert_eq!(transfer_list_path("odm.new.dat"), "odm.transfer.list");
    assert_eq!(transfer_list_path("/x.dat.dat"), "/x.transfer.list");
}

#[test]
fn removed_items_sort_by_name() {
    let r = |n: &str, b: &str| RemovedApp { backup_path: b.into(), original_path: String::new(), name: n.into() };
    let sorted = sort_removed(vec![r("system/app/B", "1"), r("system/app/A", "2"), r("product/app/C", "3")]);
    let order: Vec<&str> = sorted.iter().map(|x| x.backup_path.as_str()).collect();
    assert_eq!(order, vec!["3", "2", "1"]);
}

#[test]
fn signer_jars_are_found_by_name() {
    assert!(is_signer_jar("uber-apk-signer-1.3.0.jar"));
    assert!(!is_signer_jar("uber-apk-signer-1.3.0.zip"));
    assert!(!is_signer_jar("apksigner.jar"));
}
