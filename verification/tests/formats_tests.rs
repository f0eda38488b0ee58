use localvault::VaultManager;
use localvault::formats::{
    backup_file_name, backup_temp_name, entry_aad_text, export_fault_text,
    export_frame, fingerprint_vault, format_version_bytes, format_version_from_meta,
    history_aad_text, new_backup_token, new_recovery_code, parse_export,
    recovery_code_from_bytes, recovery_secret, salt_from_meta, storage_attributes, ExportFault,
    FORMAT_VERSION,
};

#[test]
fn associated_data_binds_record_id() {
    assert_eq!(entry_aad_text("abc"), "LocalVault|entry|abc|v1");
    assert_eq!(history_aad_text("abc"), "LocalVault|history|abc|v1");
}

#[test]
fn stored_salt_must_have_sixteen_bytes() {
    assert_eq!(salt_from_meta(&[7u8; 16]).unwrap(), [7u8; 16]);
    assert_eq!(salt_from_meta(&[7u8; 15]).unwrap_err(), "invalid salt");
    assert_eq!(salt_from_meta(&[]).unwrap_err(), "invalid salt");
}

#[test]
fn format_version_reads_back_as_written() {
    assert_eq!(format_version_bytes(FORMAT_VERSION), vec![0, 0, 0, 2]);
    assert_eq!(format_version_bytes(0x01020304), vec![1, 2, 3, 4]);
    for v in [0u32, 2, 77, 0x01020304, u32::MAX] {
        let b = format_version_bytes(v);
        assert_eq!(format_version_from_meta(Some(&b)), v);
    }
    assert_eq!(format_version_from_meta(Some(&[0, 2])), 1);
    assert_eq!(format_version_from_meta(None), 1);
}

#[test]
fn bootstrap_status_of_existing_and_missing_vault() {
    let s = VaultManager::status(true, Some(&[0, 0, 0, 2]), true);
    assert!(s.exists);
    assert_eq!(s.version, 2);
    assert!(s.recovery_enabled);
    let old = VaultManager::status(true, None, false);
    assert_eq!(old.version, 1);
    assert!(!old.recovery_enabled);
    let m = VaultManager::status(false, Some(&[0, 0, 0, 7]), true);
    assert!(!m.exists);
    assert_eq!(m.version, 2);
    assert!(!m.recovery_enabled);
}

#[test]
fn export_file_splits_into_what_was_laid_out() {
    let salt = [1u8; 16];
    let wrapped = vec![2u8; 72];
    let body = vec![3u8; 50];
    let f = export_frame(&salt, &wrapped, &body);
    assert_eq!(&f[..4], b"LVX2");
    assert_eq!(f.len(), 4 + 16 + 72 + 50);
    let p = parse_export(&f).ok().unwrap();
    assert_eq!(p.salt, salt);
    assert_eq!(p.wrapped, wrapped);
    assert_eq!(p.body, body);
}

#[test]
fn export_file_faults() {
    assert_eq!(parse_export(b"LVX1xxxxxxxx").err().unwrap(), ExportFault::LegacyFormat);
    assert_eq!(parse_export(b"LVX").err().unwrap(), ExportFault::NotAnExport);
    assert_eq!(parse_export(b"PK\x03\x04").err().unwrap(), ExportFault::NotAnExport);
    let mut just_short = b"LVX2".to_vec();
    just_short.extend_from_slice(&[0u8; 127]);
    assert_eq!(parse_export(&just_short).err().unwrap(), ExportFault::Truncated);
    just_short.push(0);
    assert!(parse_export(&just_short).is_ok());
    assert_eq!(export_fault_text(ExportFault::Truncated), "导出文件不完整或已损坏");
}

#[test]
fn recovery_code_is_spelled_from_bytes() {
    let mut b = [0u8; 24];
    for (i, x) in b.iter_mut().enumerate() {
        *x = i as u8;
    }
    assert_eq!(recovery_code_from_bytes(&b), "ABCDEF-GHJKLM-NPQRST-UVWXYZ");
    let c = recovery_code_from_bytes(&[255u8; 24]);
    assert_eq!(c, "999999-999999-999999-999999");
    let c2 = recovery_code_from_bytes(&[32u8; 24]);
    assert_eq!(c2, "AAAAAA-AAAAAA-AAAAAA-AAAAAA");
    let (fresh, _) = new_recovery_code();
    assert_eq!(fresh.len(), 27);
    assert_eq!(fresh.matches('-').count(), 3);
}

#[test]
fn recovery_secret_joins_trimmed_answers() {
    let answers = vec!["  red".to_string(), "blue ".to_string(), "\tgreen\n".to_string()];
    assert_eq!(recovery_secret("CODE", &answers), "CODE\0red\0blue\0green");
}

#[test]
fn fingerprint_of_known_bytes() {
    assert_eq!(fingerprint_vault(b""), "cbf29ce4842223259e3779b185ebca87");
    assert_eq!(fingerprint_vault(b"abc"), "e71fa2190541574b952d56b9b4f7d2bf");
    assert_eq!(fingerprint_vault(b"[[],[]]"), "9d73114e90492e2d17c14a077ee358ff");
    assert_ne!(fingerprint_vault(b"abd"), fingerprint_vault(b"abc"));
}

#[test]
fn backup_file_names() {
    assert_eq!(backup_file_name(1700000000000, "0a1b2c3d"), "LocalVault-1700000000000-0a1b2c3d.vault");
    assert_eq!(backup_temp_name(-5, "ff"), ".LocalVault--5-ff.vault.tmp");
    assert_eq!(backup_file_name(0, ""), "LocalVault-0-.vault");
    let (token, _) = new_backup_token();
    assert_eq!(token.len(), 8);
    assert!(token.chars().all(|c| c.is_ascii_hexdigit() && !c.is_ascii_uppercase()));
}

#[test]
fn storage_protection_attributes() {
    assert_eq!(storage_attributes(0xFFFF_FFFF, true), None);
    assert_eq!(storage_attributes(0x20, true), Some(0x23));
    assert_eq!(storage_attributes(0x21, false), Some(0x22));
    assert_eq!(storage_attributes(0x10, false), Some(0x12));
}

#[test]
fn fingerprint_is_32_lower_hex_digits() {
    for b in [&b""[..], b"x", b"\xff\x00\x10"] {
        let f = fingerprint_vault(b);
        assert_eq!(f.len(), 32);
        assert!(f.chars().all(|c| c.is_ascii_digit() || ('a'..='f').contains(&c)));
    }
}
