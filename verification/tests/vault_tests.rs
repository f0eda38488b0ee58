use localvault::crypto::{derive_key, enc, open_sealed};
use localvault::formats::{export_aad_bytes, export_frame, parse_export, recovery_aad_bytes, wrapped_dek_aad_bytes};
use localvault::vault::{
    backup_failure, backup_file_key, require_backup_password, restore_failure, restore_key, unwrap_key,
    wrap_key, KeyFault, SealedRow, SwapFailure,
};
use localvault::{Category, CategoryRow, DataKey, Entry, VaultManager};

const PASS: &str = "Correct-Horse-9";

fn s(x: &str) -> String {
    x.to_string()
}

/// A data key with all bytes `b`, opened from a wrapping made by hand.
fn hand_key(b: u8) -> DataKey {
    let kek = [1u8; 32];
    let w = enc(&kek, &[b; 32], b"k").unwrap();
    unwrap_key(&kek, &w, b"k").ok().unwrap()
}

fn unlocked(b: u8) -> VaultManager {
    let mut vm = VaultManager::new();
    vm.install_key(hand_key(b));
    vm
}

#[test]
fn new_manager_is_locked() {
    let vm = VaultManager::new();
    assert!(!vm.is_unlocked());
    assert_eq!(vm.require_unlocked().unwrap_err(), "Vault locked");
    assert_eq!(vm.open_entry("a", &[0u8; 64]).unwrap_err(), "Vault locked");
    assert_eq!(vm.seal_entry("a", b"{}").unwrap_err(), "Vault locked");
    assert_eq!(vm.seal_history("a", b"[]").unwrap_err(), "Vault locked");
    assert_eq!(vm.history_list("a", &vec![]).unwrap_err(), "Vault locked");
    let rows = vec![SealedRow { id: s("a"), cipher: vec![0u8; 64] }];
    assert_eq!(vm.open_entries(&rows).unwrap_err(), "Vault locked");
    assert_eq!(vm.list_trash(1_700_000_000_000, 10).unwrap_err(), "Vault locked");
    let (t, merged) = vm.merge_backup(vec![], vec![], vec![], vec![], 5, 1);
    assert!(t.is_empty());
    assert_eq!(merged.unwrap_err(), "Vault locked");
    let stored = VaultManager::backup_settings(None);
    assert_eq!(vm.set_backup_settings(false, None, 3, &stored, false, false).unwrap_err(), "Vault locked");
    assert_eq!(
        vm.enable_recovery_check("ABCDEF-GHJKLM-NPQRST-UVWXYZ", &vec![s("q"); 3], &vec![s("a"); 3])
            .unwrap_err(),
        "Vault locked"
    );
}

#[test]
fn wrapped_key_opens_under_its_key_and_data_only() {
    let k = hand_key(4);
    let w = wrap_key(&[2u8; 32], &k, wrapped_dek_aad_bytes());
    assert_eq!(w.len(), 72);
    assert!(unwrap_key(&[2u8; 32], &w, wrapped_dek_aad_bytes()).is_ok());
    assert_eq!(unwrap_key(&[3u8; 32], &w, wrapped_dek_aad_bytes()).err().unwrap(), KeyFault::Rejected);
    assert_eq!(unwrap_key(&[2u8; 32], &w, recovery_aad_bytes()).err().unwrap(), KeyFault::Rejected);
    let short = enc(&[2u8; 32], &[9u8; 16], wrapped_dek_aad_bytes()).unwrap();
    assert_eq!(unwrap_key(&[2u8; 32], &short, wrapped_dek_aad_bytes()).err().unwrap(), KeyFault::BadLength);
    assert_eq!(unwrap_key(&[2u8; 32], &[0u8; 20], wrapped_dek_aad_bytes()).err().unwrap(), KeyFault::Rejected);
}

#[test]
fn unlocked_vault_seals_and_opens_records() {
    let mut vm = unlocked(4);
    assert!(vm.is_unlocked());
    assert!(vm.require_unlocked().is_ok());
    let c = vm.seal_entry("id-1", b"{\"name\":\"GitHub\"}").unwrap();
    assert_eq!(c.len(), 24 + 17 + 16);
    assert_eq!(vm.open_entry("id-1", &c).unwrap(), b"{\"name\":\"GitHub\"}".to_vec());
    assert_eq!(vm.open_entry("id-2", &c).unwrap_err(), "authentication failed");
    let h = vm.seal_history("id-1", b"[\"x\"]").unwrap();
    let opened = vm.history_list("id-1", &vec![h.clone(), vec![1, 2, 3]]).unwrap();
    assert_eq!(opened[0].as_ref().unwrap(), &b"[\"x\"]".to_vec());
    assert_eq!(opened[1].as_ref().unwrap_err(), "invalid ciphertext");
    // a history record does not open as an entry of the same id
    assert_eq!(vm.open_entry("id-1", &h).unwrap_err(), "authentication failed");
    let rows = vec![
        SealedRow { id: s("id-1"), cipher: c.clone() },
        SealedRow { id: s("id-9"), cipher: c.clone() },
    ];
    let out = vm.open_entries(&rows).unwrap();
    assert_eq!(out.len(), 2);
    assert!(out[0].is_ok());
    assert_eq!(out[1].as_ref().unwrap_err(), "authentication failed");
    // another vault's key does not open the record
    let other = unlocked(5);
    assert_eq!(other.open_entry("id-1", &c).unwrap_err(), "authentication failed");
    vm.lock();
    assert!(!vm.is_unlocked());
    assert_eq!(vm.open_entry("id-1", &c).unwrap_err(), "Vault locked");
}

#[test]
fn install_key_replaces_the_key() {
    let mut vm = unlocked(4);
    let c = vm.seal_entry("a", b"x").unwrap();
    vm.install_key(hand_key(5));
    assert_eq!(vm.open_entry("a", &c).unwrap_err(), "authentication failed");
}

#[test]
fn list_trash_cutoff_while_unlocked() {
    let vm = unlocked(4);
    assert_eq!(vm.list_trash(1_000_000_000_000, 3).unwrap(), 1_000_000_000_000 - 7 * 86_400_000);
}

#[test]
fn create_checks_password_rules_and_confirmation() {
    assert_eq!(VaultManager::create_check("Ab1!", "Ab1!").unwrap_err(), "主密码至少 8 位");
    assert_eq!(
        VaultManager::create_check("Abcdefgh!", "Abcdefgh!").unwrap_err(),
        "主密码必须包含数字"
    );
    assert_eq!(
        VaultManager::create_check(PASS, "Correct-Horse-8").unwrap_err(),
        "两次输入的主密码不一致"
    );
    assert!(VaultManager::create_check(PASS, PASS).is_ok());
    assert_eq!(VaultManager::create(PASS, "other").err().unwrap(), "两次输入的主密码不一致");
}

#[test]
fn wrong_password_is_refused_and_keeps_vault_locked() {
    let mut vm = VaultManager::new();
    assert_eq!(vm.unlock("Wrong-Horse-9", &[1u8; 16], &[7u8; 72]).unwrap_err(), "bad credentials");
    assert!(!vm.is_unlocked());
}

#[test]
fn derived_key_depends_on_password_and_salt() {
    let salt = [3u8; 16];
    let k = derive_key(PASS, &salt).unwrap();
    assert_ne!(k, [0u8; 32]);
    assert_ne!(&k[..16], &salt[..]);
    assert_ne!(&k[..15], &PASS.as_bytes()[..15]);
}

#[test]
fn verify_master_refuses_short_password() {
    let vm = unlocked(4);
    assert_eq!(vm.verify_master("short", &[0u8; 16], &[0u8; 72]).unwrap_err(), "主密码至少 8 位");
}

#[test]
fn verify_master_refuses_wrong_password() {
    let vm = unlocked(4);
    assert_eq!(vm.verify_master("Wrong-Horse-9", &[0u8; 16], &[9u8; 72]).unwrap_err(), "主密码错误");
}

#[test]
fn backup_password_must_be_given() {
    assert_eq!(require_backup_password("").unwrap_err(), "请输入备份对应的 Vault 主密码");
    assert!(require_backup_password("x").is_ok());
    assert_eq!(
        VaultManager::backup_preview("", Some("vault"), &[0u8; 16], &[0u8; 72], &vec![], vec![], true, true)
            .err()
            .unwrap(),
        "请输入备份对应的 Vault 主密码"
    );
}

#[test]
fn backup_preview_takes_only_vault_files() {
    for ext in [Some("txt"), Some("csv"), None] {
        assert_eq!(
            VaultManager::backup_preview("Password1!", ext, &[0u8; 16], &[0u8; 72], &vec![], vec![], true, true)
                .err()
                .unwrap(),
            "只允许导入 .vault 加密备份"
        );
    }
}

#[test]
fn backup_preview_refuses_wrong_password() {
    assert_eq!(
        VaultManager::backup_preview("Wrong-Horse-9", Some("VAULT"), &[6u8; 16], &[1u8; 72], &vec![], vec![], true, true)
            .err()
            .unwrap(),
        "备份验证失败：主密码不正确"
    );
}

#[test]
fn restore_needs_the_backup_password_and_changes_nothing() {
    let mut vm = unlocked(4);
    let rows = vec![SealedRow { id: s("a"), cipher: vec![0u8; 64] }];
    assert_eq!(vm.restore("", &[0u8; 16], &[0u8; 72], &rows).err().unwrap(), "请输入备份对应的 Vault 主密码");
    let c = unlocked(4).seal_entry("e", b"kept").unwrap();
    assert_eq!(vm.open_entry("e", &c).unwrap(), b"kept".to_vec());
    let mut locked = VaultManager::new();
    assert!(locked.restore("", &[0u8; 16], &[0u8; 72], &rows).is_err());
    assert!(!locked.is_unlocked());
}

#[test]
fn restore_refuses_wrong_password_and_keeps_the_key() {
    let mut vm = unlocked(4);
    assert_eq!(
        vm.restore("Wrong-Horse-9", &[6u8; 16], &[1u8; 72], &vec![]).err().unwrap(),
        "备份验证失败：主密码不正确，原 Vault 未被替换"
    );
    let c = unlocked(4).seal_entry("e", b"kept").unwrap();
    assert_eq!(vm.open_entry("e", &c).unwrap(), b"kept".to_vec());
}

#[test]
fn failed_swap_keeps_the_key_and_says_so() {
    let mut vm = unlocked(4);
    let c = unlocked(4).seal_entry("e", b"old").unwrap();
    assert_eq!(
        vm.finish_restore(hand_key(5), Err(SwapFailure::Replace(s("磁盘错误")))).unwrap_err(),
        "恢复文件替换失败：磁盘错误；原 Vault 已保留"
    );
    assert_eq!(vm.open_entry("e", &c).unwrap(), b"old".to_vec());
    assert_eq!(vm.finish_restore(hand_key(5), Err(SwapFailure::Prepare(s("备份失败")))).unwrap_err(), "备份失败");
    assert_eq!(vm.open_entry("e", &c).unwrap(), b"old".to_vec());
    assert!(vm.finish_restore(hand_key(5), Ok(())).is_ok());
    let c5 = unlocked(5).seal_entry("e", b"new").unwrap();
    assert_eq!(vm.open_entry("e", &c5).unwrap(), b"new".to_vec());
    assert!(vm.open_entry("e", &c).is_err());
}

#[test]
fn backup_check_failures_name_the_cause() {
    assert_eq!(restore_failure("authentication failed"), "备份验证失败：authentication failed；原 Vault 未被替换");
    assert_eq!(backup_failure("invalid ciphertext"), "备份验证失败：invalid ciphertext");
}

#[test]
fn backup_key_refuses_wrong_password() {
    assert_eq!(
        backup_file_key("Wrong-Horse-9", &[6u8; 16], &[1u8; 72]).err().unwrap(),
        "备份验证失败：主密码不正确"
    );
}

#[test]
fn restore_key_refuses_wrong_password() {
    assert_eq!(
        restore_key("Wrong-Horse-9", &[6u8; 16], &[1u8; 72]).err().unwrap(),
        "备份验证失败：主密码不正确，原 Vault 未被替换"
    );
}

#[test]
fn export_refuses_a_password_that_does_not_open_the_key() {
    let vm = unlocked(4);
    assert_eq!(
        vm.export_entries("Wrong-Horse-9", &[0u8; 16], &[7u8; 72], b"{}").unwrap_err(),
        "原 Vault 主密码错误，导出已取消"
    );
}

#[test]
fn export_refuses_short_password_or_locked_vault() {
    let vm = VaultManager::new();
    assert_eq!(
        vm.export_entries("short", &[0u8; 16], &[0u8; 72], b"{}").unwrap_err(),
        "主密码至少 8 位"
    );
    assert_eq!(vm.export_entries(PASS, &[0u8; 16], &[0u8; 72], b"{}").unwrap_err(), "Vault locked");
}

#[test]
fn import_refuses_files_that_are_not_exports() {
    assert_eq!(VaultManager::import_entries("short", b"LVX2").unwrap_err(), "主密码至少 8 位");
    assert_eq!(
        VaultManager::import_entries(PASS, b"name,password\n").unwrap_err(),
        "不是有效的 LocalVault 可迁移加密数据文件，禁止导入明文文件"
    );
    assert_eq!(
        VaultManager::import_entries(PASS, b"LVX1 old file").unwrap_err(),
        "这是旧版 LVX1 导出文件。为避免把当前 Vault 密钥误当成源 Vault 密钥，旧版导出暂不支持跨 Vault 导入；请在原电脑重新导出一次。"
    );
    let mut short = b"LVX2".to_vec();
    short.extend_from_slice(&[0u8; 100]);
    assert_eq!(VaultManager::import_entries(PASS, &short).unwrap_err(), "导出文件不完整或已损坏");
    assert_eq!(
        VaultManager::import_entries(PASS, b"").unwrap_err(),
        "不是有效的 LocalVault 可迁移加密数据文件，禁止导入明文文件"
    );
}

#[test]
fn import_with_wrong_password_is_refused() {
    let mut file = b"LVX2".to_vec();
    file.extend_from_slice(&[3u8; 16 + 72 + 40]);
    assert_eq!(
        VaultManager::import_entries(PASS, &file).unwrap_err(),
        "原电脑主密码错误，无法解密导入文件"
    );
}

#[test]
fn export_package_version_must_be_two() {
    assert!(VaultManager::export_package_entries(2, vec![]).is_ok());
    assert_eq!(VaultManager::export_package_entries(1, vec![]).unwrap_err(), "不支持的导出数据版本");
}

#[test]
fn recovery_checks_before_any_key_work() {
    let mut vm = VaultManager::new();
    assert_eq!(
        vm.recovery_verify("CODE", &[s("a"), s("b")], &[0u8; 16], &[0u8; 72]).unwrap_err(),
        "恢复答案数量错误"
    );
    assert_eq!(
        vm.recovery_set_master_check("Abc12345!", "Abc12345!").unwrap_err(),
        "请先完成恢复验证"
    );
    assert_eq!(
        vm.recovery_set_master_check("Abc12345!", "Abc12345?").unwrap_err(),
        "两次输入的新主密码不一致"
    );
    assert_eq!(vm.recovery_set_master_check("abc", "abc").unwrap_err(), "主密码至少 8 位");
    assert_eq!(
        vm.recovery_set_master("abc", "abc", &[0u8; 16], &[0u8; 72]).unwrap_err(),
        "主密码至少 8 位"
    );
    assert_eq!(
        vm.recovery_set_master("Abc12345!", "Abc12345!", &[0u8; 16], &[0u8; 72]).unwrap_err(),
        "请先完成恢复验证"
    );
    vm.recovery_cancel();
    vm.finish_recovery();
    assert!(!vm.is_unlocked());
}

#[test]
fn enable_recovery_checks_its_inputs() {
    let vm = unlocked(4);
    let qs = vec![s("q1"), s("q2"), s("q3")];
    assert_eq!(
        vm.enable_recovery_check("  SHORT  ", &qs, &[s("a"), s("b"), s("c")]).unwrap_err(),
        "恢复码太短"
    );
    let code = "ABCDEF-GHJKLM-NPQRST-UVWXYZ";
    assert_eq!(
        vm.enable_recovery_check(code, &qs[..2], &[s("a"), s("b"), s("c")]).unwrap_err(),
        "必须有 3 组问题/答案"
    );
    assert_eq!(
        vm.enable_recovery_check(code, &qs, &[s("a"), s("  "), s("c")]).unwrap_err(),
        "每个密保答案不能为空"
    );
    assert!(vm.enable_recovery_check(code, &qs, &[s("a"), s("b"), s("c")]).is_ok());
}

#[test]
fn enabled_recovery_gives_a_wrapped_key() {
    let vm = unlocked(4);
    let w = vm
        .enable_recovery(
            "ABCDEF-GHJKLM-NPQRST-UVWXYZ",
            &[s("q1"), s("q2"), s("q3")],
            &[s(" red "), s("blue"), s("green")],
            &[2u8; 16],
        )
        .unwrap();
    assert_eq!(w.len(), 72);
}

#[test]
fn recovery_with_wrong_secret_fails() {
    let mut vm = VaultManager::new();
    assert_eq!(
        vm.recovery_verify("ABCDEF-GHJKLM-NPQRST-UVWXYZ", &[s("a"), s("b"), s("x")], &[2u8; 16], &[5u8; 72])
            .unwrap_err(),
        "recovery auth failed"
    );
    assert_eq!(
        vm.recovery_set_master_check("New-Password-7", "New-Password-7").unwrap_err(),
        "请先完成恢复验证"
    );
}

#[test]
fn security_update_refuses_short_or_wrong_password() {
    let vm = unlocked(4);
    assert_eq!(
        vm.update_security_settings("short", Some(PASS), Some(PASS), None, None, &[0u8; 16], &[0u8; 72])
            .err()
            .unwrap(),
        "主密码至少 8 位"
    );
    assert_eq!(
        vm.update_security_settings("Wrong-Horse-9", None, None, None, None, &[0u8; 16], &[4u8; 72])
            .err()
            .unwrap(),
        "主密码错误"
    );
}

#[test]
fn generated_recovery_code_has_four_groups() {
    let vm = VaultManager::new();
    let code = vm.generate_recovery_code().unwrap();
    assert_eq!(code.chars().count(), 27);
    let groups: Vec<&str> = code.split('-').collect();
    assert_eq!(groups.len(), 4);
    for g in groups {
        assert_eq!(g.len(), 6);
        assert!(g.chars().all(|c| "ABCDEFGHJKLMNPQRSTUVWXYZ23456789".contains(c)));
    }
}

#[test]
fn recovery_questions_default_to_three() {
    let stored = vec![s("a?"), s("b?")];
    assert_eq!(VaultManager::recovery_questions(Some(stored.clone())), stored);
    let q = VaultManager::recovery_questions(None);
    assert_eq!(
        q,
        vec![
            s("我最喜欢的一本童年读物是什么？"),
            s("我自己定义的长期不变短语是什么？"),
            s("我记得的第一个特别地点是什么？")
        ]
    );
}

#[test]
fn key_wrapped_under_a_derived_key_opens_under_it() {
    let salt = [3u8; 16];
    let kek = derive_key(PASS, &salt).unwrap();
    let w = wrap_key(&kek, &hand_key(4), wrapped_dek_aad_bytes());
    let k = unwrap_key(&kek, &w, wrapped_dek_aad_bytes()).ok().unwrap();
    let mut vm = VaultManager::new();
    vm.install_key(k);
    let c = unlocked(4).seal_entry("e", b"same key").unwrap();
    assert_eq!(vm.open_entry("e", &c).unwrap(), b"same key".to_vec());
}

#[test]
fn export_file_parts_open_to_the_package() {
    let salt = [8u8; 16];
    let kek = derive_key(PASS, &salt).unwrap();
    let dek = [5u8; 32];
    let wrapped = enc(&kek, &dek, wrapped_dek_aad_bytes()).unwrap();
    let payload = b"{\"version\":2,\"entries\":[]}".to_vec();
    let body = enc(&dek, &payload, export_aad_bytes()).unwrap();
    let file = export_frame(&salt, &wrapped, &body);
    let parts = parse_export(&file).ok().unwrap();
    assert_eq!(parts.salt, salt);
    assert!(unwrap_key(&kek, &parts.wrapped, wrapped_dek_aad_bytes()).is_ok());
    assert_eq!(open_sealed(&dek, &parts.body, export_aad_bytes()).unwrap(), payload);
}

#[test]
fn create_makes_a_salt_and_a_wrapped_key() {
    let nv = VaultManager::create(PASS, PASS).ok().unwrap();
    assert_eq!(nv.wrapped_dek.len(), 72);
    let mut vm = VaultManager::new();
    vm.install_key(nv.key);
    let c = vm.seal_entry("e", b"x").unwrap();
    assert_eq!(vm.open_entry("e", &c).unwrap(), b"x".to_vec());
}

fn entry(id: &str, seq: i64) -> Entry {
    Entry {
        id: s(id),
        seq,
        entry_type: s("网站"),
        name: s(id),
        username: String::new(),
        email: String::new(),
        phone: String::new(),
        password: s("pw"),
        nickname: String::new(),
        url: String::new(),
        notes: String::new(),
        category: s("默认"),
        tags: vec![],
        favorite: false,
        updated_at: 1,
        expires_at: None,
    }
}

fn top(name: &str, order: i64) -> CategoryRow {
    CategoryRow { name: s(name), icon: s("📁"), parent_name: None, created_at: 1, sort_order: order }
}

#[test]
fn merge_backup_adds_new_entries_and_categories() {
    let vm = unlocked(4);
    let pending = vec![Category { name: s("新"), icon: s("★"), parent_name: None }];
    let (t, r) = vm.merge_backup(vec![entry("a", 2)], vec![entry("a", 9), entry("b", 1)], vec![top("默认", 0)], pending, 50, 7);
    let merged = r.unwrap();
    assert_eq!(merged.iter().map(|e| e.id.clone()).collect::<Vec<_>>(), vec![s("a"), s("b")]);
    assert_eq!(merged[0].seq, 2);
    assert_eq!(merged[1].seq, 3);
    assert_eq!(merged[1].updated_at, 50);
    assert_eq!(t.len(), 2);
    assert_eq!(t[1].name, "新");
    assert_eq!(t[1].sort_order, 1);
    assert_eq!(t[1].created_at, 7);
}

#[test]
fn merge_backup_with_broken_hierarchy_fails_but_keeps_created_rows() {
    let vm = unlocked(4);
    let pending = vec![
        Category { name: s("孤儿"), icon: s("★"), parent_name: Some(s("不存在")) },
        Category { name: s("新"), icon: s("★"), parent_name: None },
    ];
    let (t, r) = vm.merge_backup(vec![], vec![entry("b", 1)], vec![top("默认", 0)], pending, 50, 7);
    assert_eq!(r.unwrap_err(), "备份中的分类层级无效：找不到父分类");
    assert_eq!(t.iter().map(|c| c.name.clone()).collect::<Vec<_>>(), vec![s("默认"), s("新")]);
}

fn trash_row(id: &str, b: u8) -> SealedRow {
    SealedRow { id: s(id), cipher: vec![b; 40] }
}

#[test]
fn restore_from_trash_changes_entries_and_trash_together() {
    let vm = unlocked(4);
    let trash = vec![trash_row("z", 1), trash_row("k", 2), trash_row("z", 3)];
    let (es, t, done) = vm.restore_trash(vec![entry("a", 7), entry("b", 2)], trash, entry("z", 1), 555);
    assert!(done.is_ok());
    assert_eq!(es.len(), 3);
    assert_eq!(es[2].id, "z");
    assert_eq!(es[2].seq, 8);
    assert_eq!(es[2].updated_at, 555);
    assert_eq!(t.len(), 1);
    assert_eq!(t[0].id, "k");
    let sorted = localvault::model::sort_by_seq(es);
    assert_eq!(sorted.iter().map(|e| e.id.clone()).collect::<Vec<_>>(), vec![s("b"), s("a"), s("z")]);
}

#[test]
fn refused_restore_from_trash_changes_nothing() {
    let vm = unlocked(4);
    let (es, t, done) = vm.restore_trash(vec![entry("z", 1)], vec![trash_row("z", 1)], entry("z", 1), 5);
    assert_eq!(done.unwrap_err(), "当前 Vault 已存在同一条目");
    assert_eq!((es.len(), t.len()), (1, 1));
    let (es, t, done) = vm.restore_trash(vec![entry("a", 1)], vec![trash_row("k", 1)], entry("z", 1), 5);
    assert_eq!(done.unwrap_err(), "回收站中不存在该条目");
    assert_eq!((es.len(), t.len()), (1, 1));
    let (es, t, done) = vm.restore_trash(vec![entry("a", i64::MAX)], vec![trash_row("z", 1)], entry("z", 1), 5);
    assert_eq!(done.unwrap_err(), "entry position overflow");
    assert_eq!((es.len(), t.len()), (1, 1));
    let locked = VaultManager::new();
    let (es, t, done) = locked.restore_trash(vec![], vec![trash_row("z", 1)], entry("z", 1), 5);
    assert_eq!(done.unwrap_err(), "Vault locked");
    assert_eq!((es.len(), t.len()), (0, 1));
}

#[test]
fn trash_row_opens_under_its_id() {
    let vm = unlocked(4);
    let sealed = vm.seal_entry("z", b"{\"id\":\"z\"}").unwrap();
    let trash = vec![trash_row("k", 1), SealedRow { id: s("z"), cipher: sealed }];
    assert_eq!(vm.open_trash_row(&trash, "z").unwrap(), b"{\"id\":\"z\"}".to_vec());
    assert_eq!(vm.open_trash_row(&trash, "q").unwrap_err(), "回收站中不存在该条目");
    assert_eq!(vm.open_trash_row(&trash, "k").unwrap_err(), "authentication failed");
    assert_eq!(VaultManager::new().open_trash_row(&trash, "z").unwrap_err(), "Vault locked");
}

#[test]
fn entry_row_for_the_trash_must_exist() {
    let vm = unlocked(4);
    let sealed = vm.seal_entry("a", b"payload").unwrap();
    assert_eq!(vm.open_entry_row("a", Some(sealed.clone())).unwrap(), b"payload".to_vec());
    assert_eq!(vm.open_entry_row("a", None).unwrap_err(), "密码条目不存在");
    assert_eq!(vm.open_entry_row("b", Some(sealed.clone())).unwrap_err(), "authentication failed");
    assert_eq!(VaultManager::new().open_entry_row("a", Some(sealed)).unwrap_err(), "Vault locked");
}
