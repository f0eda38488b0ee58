use localvault::backup::{
    backup_destination_check, backup_directory_check, backup_directory_text, backup_target,
    backup_unchanged, backups_to_prune, carry_backup_state, copy_settings, is_versioned_backup_file,
    path_is_inside, record_backup_error, record_backup_success, requested_directory, retention_keep,
};
use localvault::crypto::enc;
use localvault::vault::unwrap_key;
use localvault::{BackupFile, BackupSettings, DataKey, VaultManager};

fn key(b: u8) -> DataKey {
    let kek = [1u8; 32];
    let w = enc(&kek, &[b; 32], b"k").unwrap();
    unwrap_key(&kek, &w, b"k").ok().unwrap()
}

fn unlocked() -> VaultManager {
    let mut vm = VaultManager::new();
    vm.install_key(key(3));
    vm
}

const INSIDE: &str = "备份目录不能位于 LocalVault 数据目录内部；否则无法抵御同目录文件被一起删除或加密";

fn settings(enabled: bool, dir: Option<&str>) -> BackupSettings {
    BackupSettings {
        enabled,
        directory: dir.map(|d| d.to_string()),
        retention: 10,
        last_backup_at: Some(5),
        last_error: None,
        last_backup_fingerprint: Some("fp".to_string()),
    }
}

fn file(name: &str, ext: Option<&str>, modified: Option<i128>) -> BackupFile {
    BackupFile { name: name.to_string(), extension: ext.map(|e| e.to_string()), modified }
}

fn comps(v: &[&str]) -> Vec<String> {
    v.iter().map(|s| s.to_string()).collect()
}

#[test]
fn default_settings_are_off_with_ten_versions() {
    let d = BackupSettings::default();
    assert!(!d.enabled);
    assert_eq!(d.directory, None);
    assert_eq!(d.retention, 10);
    assert_eq!(d.last_backup_at, None);
    let read = VaultManager::backup_settings(None);
    assert_eq!(read.retention, 10);
    let stored = settings(true, Some("D:/bak"));
    let read2 = VaultManager::backup_settings(Some(stored.clone()));
    assert_eq!(read2.directory.as_deref(), Some("D:/bak"));
}

#[test]
fn retention_is_kept_between_one_and_fifty() {
    assert_eq!(retention_keep(0), 1);
    assert_eq!(retention_keep(1), 1);
    assert_eq!(retention_keep(25), 25);
    assert_eq!(retention_keep(51), 50);
    assert_eq!(retention_keep(usize::MAX), 50);
}

#[test]
fn backup_now_keeps_automatic_backups_as_they_were() {
    let s = settings(false, Some("D:/bak"));
    let (stored, answer) = VaultManager::backup_now(s.clone(), Some((99, "fp2".to_string())), None);
    assert!(!stored.enabled);
    assert_eq!(stored.directory.as_deref(), Some("D:/bak"));
    assert_eq!(stored.retention, 10);
    assert_eq!(stored.last_backup_at, Some(99));
    assert_eq!(stored.last_backup_fingerprint.as_deref(), Some("fp2"));
    assert_eq!(stored.last_error, None);
    let a = answer.unwrap();
    assert!(!a.enabled);
    assert_eq!(a.last_backup_at, Some(99));
    let (stored2, answer2) = VaultManager::backup_now(s, None, Some("磁盘已满".to_string()));
    assert!(!stored2.enabled);
    assert_eq!(stored2.last_error.as_deref(), Some("磁盘已满"));
    assert_eq!(stored2.last_backup_at, Some(5));
    assert_eq!(answer2.unwrap_err(), "磁盘已满");
}

#[test]
fn copied_settings_are_equal() {
    let s = settings(true, Some("x"));
    let c = copy_settings(&s);
    assert_eq!(c.directory, s.directory);
    assert_eq!(c.last_backup_fingerprint, s.last_backup_fingerprint);
}

#[test]
fn backup_folder_must_be_given_exist_and_lie_outside() {
    assert_eq!(backup_directory_text("   ").unwrap_err(), "备份目录不能为空");
    assert_eq!(backup_directory_text("  D:/bak ").unwrap(), "D:/bak");
    assert_eq!(backup_directory_check(false, false).unwrap_err(), "备份目录不存在或不是文件夹");
    assert_eq!(
        backup_directory_check(true, true).unwrap_err(),
        "备份目录不能位于 LocalVault 数据目录内部；否则无法抵御同目录文件被一起删除或加密"
    );
    assert!(backup_directory_check(true, false).is_ok());
    assert_eq!(
        backup_destination_check(true, Some(true)).unwrap_err(),
        "备份文件不能保存到 LocalVault 数据目录内部"
    );
    assert_eq!(backup_destination_check(false, None).unwrap_err(), "备份目标无效");
    assert_eq!(backup_destination_check(false, Some(false)).unwrap_err(), "备份目标文件夹不存在");
    assert!(backup_destination_check(false, Some(true)).is_ok());
}

#[test]
fn paths_inside_the_vault_folder_are_found() {
    let base = comps(&["/", "home", "u", "LocalVault"]);
    assert!(path_is_inside(&base, &comps(&["/", "home", "u", "LocalVault"]), false));
    assert!(path_is_inside(&base, &comps(&["/", "home", "u", "LocalVault", "bak"]), false));
    assert!(!path_is_inside(&base, &comps(&["/", "home", "u", "LocalVault2"]), false));
    assert!(!path_is_inside(&base, &comps(&["/", "home", "u"]), false));
    assert!(!path_is_inside(&base, &comps(&["/", "home", "u", "localvault", "x"]), false));
    let win = comps(&["C:", "\\", "Users", "LocalVault"]);
    assert!(path_is_inside(&win, &comps(&["c:", "\\", "users", "localvault", "Backups"]), true));
    assert!(!path_is_inside(&win, &comps(&["D:", "\\", "Users", "LocalVault"]), true));
}

#[test]
fn set_backup_settings_needs_unlocked_vault() {
    let vm = VaultManager::new();
    let stored = settings(true, Some("D:/b"));
    assert_eq!(vm.set_backup_settings(true, Some("D:/b".into()), 3, &stored, true, false).unwrap_err(), "Vault locked");
}

#[test]
fn turning_backups_off_keeps_the_last_backup_time() {
    let vm = unlocked();
    let stored = settings(true, Some("D:/bak"));
    let s = vm.set_backup_settings(false, None, 3, &stored, false, false).unwrap();
    assert!(!s.enabled);
    assert_eq!(s.directory, None);
    assert_eq!(s.retention, 3);
    assert_eq!(s.last_backup_at, Some(5));
    assert_eq!(s.last_backup_fingerprint, None);
    assert_eq!(s.last_error, None);
}

#[test]
fn same_folder_keeps_the_fingerprint() {
    let vm = unlocked();
    let stored = settings(true, Some("D:/bak"));
    let s = vm.set_backup_settings(true, Some("  D:/bak ".into()), 60, &stored, true, false).unwrap();
    assert!(s.enabled);
    assert_eq!(s.directory.as_deref(), Some("D:/bak"));
    assert_eq!(s.retention, 50);
    assert_eq!(s.last_backup_at, Some(5));
    assert_eq!(s.last_backup_fingerprint.as_deref(), Some("fp"));
    let moved = vm.set_backup_settings(true, Some("E:/x".into()), 0, &stored, true, false).unwrap();
    assert_eq!(moved.retention, 1);
    assert_eq!(moved.last_backup_fingerprint, None);
}

#[test]
fn turning_backups_on_checks_the_folder() {
    let vm = unlocked();
    let stored = settings(false, None);
    assert_eq!(
        vm.set_backup_settings(true, None, 3, &stored, true, false).unwrap_err(),
        "启用自动备份前请选择备份目录"
    );
    assert_eq!(
        vm.set_backup_settings(true, Some("   ".into()), 3, &stored, true, false).unwrap_err(),
        "启用自动备份前请选择备份目录"
    );
    assert_eq!(
        vm.set_backup_settings(true, Some("D:/none".into()), 3, &stored, false, false).unwrap_err(),
        "备份目录不存在或不是文件夹"
    );
    assert_eq!(vm.set_backup_settings(true, Some("D:/in".into()), 3, &stored, true, true).unwrap_err(), INSIDE);
    assert!(vm.set_backup_settings(false, Some("D:/none".into()), 3, &stored, false, true).is_ok());
}

#[test]
fn requested_folder_is_trimmed_and_blank_is_none() {
    assert_eq!(requested_directory(Some(" D:/b ".into())).as_deref(), Some("D:/b"));
    assert_eq!(requested_directory(Some("  ".into())), None);
    assert_eq!(requested_directory(None), None);
}

#[test]
fn changed_settings_keep_the_backup_record() {
    let old = settings(true, Some("D:/bak"));
    let mut new = settings(true, Some("D:/bak"));
    new.last_backup_at = None;
    new.last_backup_fingerprint = None;
    let kept = carry_backup_state(new.clone(), &old);
    assert_eq!(kept.last_backup_at, Some(5));
    assert_eq!(kept.last_backup_fingerprint.as_deref(), Some("fp"));
    let mut moved = new;
    moved.directory = Some("E:/other".into());
    let m = carry_backup_state(moved, &old);
    assert_eq!(m.last_backup_at, Some(5));
    assert_eq!(m.last_backup_fingerprint, None);
}

#[test]
fn backup_target_follows_settings() {
    assert_eq!(backup_target(&settings(false, Some("D:/b")), false).unwrap(), None);
    assert_eq!(backup_target(&settings(false, Some("D:/b")), true).unwrap().as_deref(), Some("D:/b"));
    assert_eq!(backup_target(&settings(true, None), false).unwrap_err(), "尚未设置自动备份目录");
}

#[test]
fn unchanged_contents_skip_automatic_backup() {
    let s = settings(true, Some("D:/b"));
    assert!(backup_unchanged(&s, &"fp".to_string(), false));
    assert!(!backup_unchanged(&s, &"fp".to_string(), true));
    assert!(!backup_unchanged(&s, &"other".to_string(), false));
}

#[test]
fn backup_record_and_error() {
    let mut s = settings(true, Some("D:/b"));
    s.last_error = Some("old".into());
    record_backup_success(&mut s, 99, "new-fp".into());
    assert_eq!(s.last_backup_at, Some(99));
    assert_eq!(s.last_error, None);
    assert_eq!(s.last_backup_fingerprint.as_deref(), Some("new-fp"));
    record_backup_error(&mut s, "失败".into());
    assert_eq!(s.last_error.as_deref(), Some("失败"));
    assert_eq!(s.last_backup_at, Some(99));
    assert!(s.enabled);
}

#[test]
fn versioned_backups_are_vault_files_with_the_prefix() {
    assert!(is_versioned_backup_file(&file("LocalVault-1-ab.vault", Some("vault"), None)));
    assert!(!is_versioned_backup_file(&file("LocalVault-1-ab.VAULT", Some("VAULT"), None)));
    assert!(!is_versioned_backup_file(&file("Other-1.vault", Some("vault"), None)));
    assert!(!is_versioned_backup_file(&file(".LocalVault-1-ab.vault.tmp", Some("tmp"), None)));
}

#[test]
fn oldest_backups_beyond_retention_are_pruned() {
    let files = vec![
        file("LocalVault-3.vault", Some("vault"), Some(300)),
        file("notes.txt", Some("txt"), Some(1)),
        file("LocalVault-1.vault", Some("vault"), Some(100)),
        file("LocalVault-x.vault", Some("vault"), None),
        file("LocalVault-2.vault", Some("vault"), Some(200)),
    ];
    let gone = backups_to_prune(files.clone(), 2);
    let names: Vec<String> = gone.iter().map(|f| f.name.clone()).collect();
    assert_eq!(names, vec!["LocalVault-x.vault", "LocalVault-1.vault"]);
    assert!(backups_to_prune(files, 4).is_empty());
}
