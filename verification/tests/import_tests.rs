use localvault::importer::{
    bulk_import_template, check_bulk_source, check_extension, decode_import_bytes, require_csv_source,
    require_csv_template, require_vault_backup_destination, require_vault_backup_source,
};
use localvault::password::{require_min_master_len, validate_new_master_password};
use localvault::text::trim;

const BAD_ENCODING: &str = "CSV 编码无法识别，请使用 UTF-8、UTF-16 或 GBK/GB18030 编码";

#[test]
fn utf8_with_and_without_bom() {
    assert_eq!(decode_import_bytes(b"\xEF\xBB\xBFname,pw\r\n").unwrap(), "name,pw\r\n");
    assert_eq!(decode_import_bytes("名称,密码".as_bytes()).unwrap(), "名称,密码");
    assert_eq!(decode_import_bytes(b"").unwrap(), "");
    assert_eq!(decode_import_bytes(b"\xEF\xBB\xBF\xFF").unwrap_err(), BAD_ENCODING);
}

#[test]
fn utf16_with_byte_order_marks() {
    assert_eq!(decode_import_bytes(&[0xFF, 0xFE, 0x41, 0x00, 0x2D, 0x4E]).unwrap(), "A中");
    assert_eq!(decode_import_bytes(&[0xFE, 0xFF, 0x00, 0x41, 0x4E, 0x2D]).unwrap(), "A中");
    assert_eq!(
        decode_import_bytes(&[0xFF, 0xFE, 0x3D, 0xD8, 0x10, 0xDE]).unwrap(),
        "\u{1F610}"
    );
    assert_eq!(decode_import_bytes(&[0xFF, 0xFE, 0x41]).unwrap_err(), "UTF-16LE CSV 编码不完整");
    assert_eq!(decode_import_bytes(&[0xFE, 0xFF, 0x00]).unwrap_err(), "UTF-16BE CSV 编码不完整");
    assert_eq!(decode_import_bytes(&[0xFF, 0xFE, 0x00, 0xD8]).unwrap_err(), "UTF-16LE CSV 编码无效");
    assert_eq!(decode_import_bytes(&[0xFE, 0xFF, 0xDC, 0x00]).unwrap_err(), "UTF-16BE CSV 编码无效");
}

#[test]
fn gb18030_fallback() {
    assert_eq!(decode_import_bytes(&[0xD6, 0xD0, 0xCE, 0xC4]).unwrap(), "中文");
    assert_eq!(decode_import_bytes(&[0x41, 0xFF]).unwrap_err(), BAD_ENCODING);
}

#[test]
fn csv_and_vault_extensions() {
    assert!(check_extension(Some("CSV"), "csv", "m").is_ok());
    assert!(check_extension(Some("csv"), "csv", "m").is_ok());
    assert_eq!(check_extension(Some("txt"), "csv", "只允许导入 .csv 模板文件").unwrap_err(), "只允许导入 .csv 模板文件");
    assert_eq!(check_extension(None, "vault", "只允许导入 .vault 加密备份").unwrap_err(), "只允许导入 .vault 加密备份");
    assert!(check_extension(Some("Vault"), "vault", "m").is_ok());
}

#[test]
fn bulk_source_must_be_a_small_file() {
    assert_eq!(check_bulk_source(false, 1).unwrap_err(), "导入源不是文件");
    assert_eq!(check_bulk_source(true, 50 * 1024 * 1024 + 1).unwrap_err(), "CSV 文件过大，最大允许 50 MB");
    assert!(check_bulk_source(true, 50 * 1024 * 1024).is_ok());
}

#[test]
fn template_starts_with_bom_and_header() {
    let t = bulk_import_template();
    assert!(t.as_bytes().starts_with(&[0xEF, 0xBB, 0xBF]));
    assert!(t.starts_with("\u{FEFF}名称,账号/用户名,密码,"));
    assert_eq!(t.matches("\r\n").count(), 3);
    assert_eq!(decode_import_bytes(t.as_bytes()).unwrap(), t.trim_start_matches('\u{FEFF}'));
}

#[test]
fn master_password_rules_in_order() {
    assert_eq!(validate_new_master_password("Ab1!").unwrap_err(), "主密码至少 8 位");
    assert_eq!(validate_new_master_password("Abcdefg!").unwrap_err(), "主密码必须包含数字");
    assert_eq!(validate_new_master_password("ABCDEF1!").unwrap_err(), "主密码必须包含小写字母");
    assert_eq!(validate_new_master_password("abcdef1!").unwrap_err(), "主密码必须包含大写字母");
    assert_eq!(validate_new_master_password("Abcdefg1").unwrap_err(), "主密码必须包含特殊符号");
    assert!(validate_new_master_password("Abcdef1!").is_ok());
    assert!(validate_new_master_password("Abcdef1中").is_ok());
    assert_eq!(validate_new_master_password("Ab1!中文字").unwrap_err(), "主密码至少 8 位");
    assert!(validate_new_master_password("Ab1!中文字符").is_ok());
}

#[test]
fn minimum_length_counts_characters() {
    assert!(require_min_master_len("密码密码密码密码").is_ok());
    assert_eq!(require_min_master_len("1234567").unwrap_err(), "主密码至少 8 位");
}

#[test]
fn trim_removes_unicode_whitespace() {
    assert_eq!(trim("\u{3000} 中 文\t\n"), "中 文");
    assert_eq!(trim("   "), "");
    assert_eq!(trim("x"), "x");
}

#[test]
fn file_kinds_have_their_own_messages() {
    assert_eq!(require_csv_template(Some("txt")).unwrap_err(), "批量导入模板必须使用 .csv 文件");
    assert_eq!(require_csv_source(None).unwrap_err(), "只允许导入 .csv 模板文件");
    assert_eq!(require_vault_backup_destination(Some("db")).unwrap_err(), "完整备份文件必须使用 .vault 扩展名");
    assert_eq!(require_vault_backup_source(Some("zip")).unwrap_err(), "只允许导入 .vault 加密备份");
    assert!(require_csv_template(Some("Csv")).is_ok());
    assert!(require_vault_backup_source(Some("VAULT")).is_ok());
}
