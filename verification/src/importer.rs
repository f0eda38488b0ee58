//! Bulk import: which files are accepted and how their bytes become text.
use crate::text::eq_ignore_ascii_case_chars;
use vstd::prelude::*;
use vstd::string::*;
use vstd::utf8::*;

verus! {

/// The largest CSV file that is read: 50 MiB.
pub const BULK_MAX_BYTES: u64 = 52428800;

/// What `String::from_utf16` decodes: UTF-16 code units, surrogate pairs
/// joined; `None` for an unpaired surrogate.
pub open spec fn decode_utf16(u: Seq<u16>) -> Option<Seq<char>>
    decreases u.len(),
{
    if u.len() == 0 {
        Some(Seq::empty())
    } else if u[0] < 0xD800 || u[0] > 0xDFFF {
        match decode_utf16(u.drop_first()) {
            Some(r) => Some(seq![u[0] as char] + r),
            None => None,
        }
    } else if u[0] <= 0xDBFF && u.len() >= 2 && 0xDC00 <= u[1] && u[1] <= 0xDFFF {
        match decode_utf16(u.subrange(2, u.len() as int)) {
            Some(r) => Some(seq![(0x10000 + (u[0] - 0xD800) * 0x400 + (u[1] - 0xDC00)) as char] + r),
            None => None,
        }
    } else {
        None
    }
}

/// What `Encoding::decode` of `GB18030` returns for these bytes: the text,
/// and whether malformed sequences were replaced.
pub uninterp spec fn gb18030_decoding(bytes: Seq<u8>) -> (Seq<char>, bool);

/// `String::from_utf8`: the text when the bytes are valid UTF-8.
#[verifier::external_body]
fn utf8_to_string(b: &[u8]) -> (r: Option<String>)
    ensures
        r is Some <==> valid_utf8(b@),
        r matches Some(s) ==> s@ == decode_utf8(b@),
{
    String::from_utf8(b.to_vec()).ok()
}

/// `String::from_utf16`: the text when the code units are valid UTF-16.
#[verifier::external_body]
fn utf16_to_string(u: &[u16]) -> (r: Option<String>)
    ensures
        r is Some <==> decode_utf16(u@) is Some,
        r matches Some(s) ==> decode_utf16(u@) == Some(s@),
{
    String::from_utf16(u).ok()
}

/// `encoding_rs::GB18030.decode`: the decoded text and whether malformed
/// input was replaced; the encoding it reports is dropped.
#[verifier::external_body]
fn gb18030_decode(b: &[u8]) -> (r: (String, bool))
    ensures
        (r.0@, r.1) == gb18030_decoding(b@),
{
    let (text, _, had_errors) = encoding_rs::GB18030.decode(b);
    (text.into_owned(), had_errors)
}

/// Files of a kind are told by their extension (as the path gives it),
/// in any case: `Ok` when it is `wanted`, else `Err` with the message.
pub fn check_extension(ext: Option<&str>, wanted: &str, message: &str) -> (r: Result<(), String>)
    ensures
        r is Ok <==> (ext matches Some(e) && eq_ignore_ascii_case_chars(e@, wanted@)),
        r matches Err(e) ==> e@ == message@,
{
    let ok = match ext {
        Some(e) => crate::text::eq_ignore_ascii_case(e, wanted),
        None => false,
    };
    if ok {
        Ok(())
    } else {
        Err(String::from_str(message))
    }
}

/// The bulk import template is written only to a `.csv` file.
pub fn require_csv_template(ext: Option<&str>) -> (r: Result<(), String>)
    ensures
        r is Ok <==> (ext matches Some(e) && eq_ignore_ascii_case_chars(e@, "csv"@)),
        r matches Err(e) ==> e@ == "批量导入模板必须使用 .csv 文件"@,
{
    check_extension(ext, "csv", "批量导入模板必须使用 .csv 文件")
}

/// Bulk imports are read only from a `.csv` file.
pub fn require_csv_source(ext: Option<&str>) -> (r: Result<(), String>)
    ensures
        r is Ok <==> (ext matches Some(e) && eq_ignore_ascii_case_chars(e@, "csv"@)),
        r matches Err(e) ==> e@ == "只允许导入 .csv 模板文件"@,
{
    check_extension(ext, "csv", "只允许导入 .csv 模板文件")
}

/// A full backup is written only to a `.vault` file.
pub fn require_vault_backup_destination(ext: Option<&str>) -> (r: Result<(), String>)
    ensures
        r is Ok <==> (ext matches Some(e) && eq_ignore_ascii_case_chars(e@, "vault"@)),
        r matches Err(e) ==> e@ == "完整备份文件必须使用 .vault 扩展名"@,
{
    check_extension(ext, "vault", "完整备份文件必须使用 .vault 扩展名")
}

/// Only a `.vault` file is read as a full backup.
pub fn require_vault_backup_source(ext: Option<&str>) -> (r: Result<(), String>)
    ensures
        r is Ok <==> (ext matches Some(e) && eq_ignore_ascii_case_chars(e@, "vault"@)),
        r matches Err(e) ==> e@ == "只允许导入 .vault 加密备份"@,
{
    check_extension(ext, "vault", "只允许导入 .vault 加密备份")
}

/// The bulk import template: a byte order mark, the header row and two
/// example rows, CRLF line ends.
pub fn bulk_import_template() -> (r: String)
    ensures
        r@ == "\u{FEFF}名称,账号/用户名,密码,网址/IP/APP名称,账号类型,分类,邮箱,手机号,平台昵称,标签,收藏,密码有效期,备注\r\n示例：GitHub,demo@example.com,Demo-GitHub-2026!,https://github.com,网站,开发,demo@example.com,,LocalVault演示账号,LocalVault示例,否,30天,【LocalVault模板示例，不会导入】\r\n示例：企业邮箱,demo@example.com,Demo-Mail-2026!,mail.example.com,邮箱,工作,demo@example.com,13800000000,演示账号,LocalVault示例,否,90天,【LocalVault模板示例，不会导入】\r\n"@,
{
    String::from_str(
        "\u{FEFF}名称,账号/用户名,密码,网址/IP/APP名称,账号类型,分类,邮箱,手机号,平台昵称,标签,收藏,密码有效期,备注\r\n示例：GitHub,demo@example.com,Demo-GitHub-2026!,https://github.com,网站,开发,demo@example.com,,LocalVault演示账号,LocalVault示例,否,30天,【LocalVault模板示例，不会导入】\r\n示例：企业邮箱,demo@example.com,Demo-Mail-2026!,mail.example.com,邮箱,工作,demo@example.com,13800000000,演示账号,LocalVault示例,否,90天,【LocalVault模板示例，不会导入】\r\n",
    )
}

/// A source of a bulk import must be a file of at most 50 MiB.
pub fn check_bulk_source(is_file: bool, len: u64) -> (r: Result<(), String>)
    ensures
        !is_file ==> (r matches Err(e) && e@ == "导入源不是文件"@),
        is_file && len > BULK_MAX_BYTES ==> (r matches Err(e) && e@ == "CSV 文件过大，最大允许 50 MB"@),
        is_file && len <= BULK_MAX_BYTES ==> r is Ok,
{
    if !is_file {
        return Err(String::from_str("导入源不是文件"));
    }
    if len > BULK_MAX_BYTES {
        return Err(String::from_str("CSV 文件过大，最大允许 50 MB"));
    }
    Ok(())
}

pub open spec fn units_le(b: Seq<u8>) -> Seq<u16> {
    Seq::new(b.len() / 2, |i: int| (b[2 * i] + 256 * b[2 * i + 1]) as u16)
}

pub open spec fn units_be(b: Seq<u8>) -> Seq<u16> {
    Seq::new(b.len() / 2, |i: int| (256 * b[2 * i] + b[2 * i + 1]) as u16)
}

fn to_units(b: &[u8], from: usize, big_endian: bool) -> (r: Vec<u16>)
    requires
        from <= b@.len(),
        (b@.len() - from) % 2 == 0,
    ensures
        big_endian ==> r@ == units_be(b@.subrange(from as int, b@.len() as int)),
        !big_endian ==> r@ == units_le(b@.subrange(from as int, b@.len() as int)),
{
    let ghost t = b@.subrange(from as int, b@.len() as int);
    let mut out: Vec<u16> = Vec::new();
    let mut i: usize = from;
    while i < b.len()
        invariant
            from <= i <= b@.len(),
            (i - from) % 2 == 0,
            (b@.len() - from) % 2 == 0,
            t == b@.subrange(from as int, b@.len() as int),
            out@.len() == (i - from) / 2,
            forall|k: int|
                0 <= k < out@.len() ==> #[trigger] out@[k] == (if big_endian {
                    (256 * t[2 * k] + t[2 * k + 1]) as u16
                } else {
                    (t[2 * k] + 256 * t[2 * k + 1]) as u16
                }),
        decreases b@.len() - i,
    {
        let lo = b[i];
        let hi = b[i + 1];
        let u: u16 = if big_endian {
            (lo as u16) * 256 + (hi as u16)
        } else {
            (lo as u16) + (hi as u16) * 256
        };
        out.push(u);
        i = i + 2;
    }
    proof {
        if big_endian {
            assert(out@ =~= units_be(t));
        } else {
            assert(out@ =~= units_le(t));
        }
    }
    out
}

/// How the bytes of a bulk-import CSV become text: a UTF-8 byte order mark
/// means UTF-8; FF FE means UTF-16 little-endian and FE FF big-endian (each
/// needs an even count of bytes after the mark); otherwise UTF-8 if valid,
/// else GB18030 if that decodes without errors. `Err` holds the message.
pub open spec fn spec_decode_import(b: Seq<u8>) -> Result<Seq<char>, Seq<char>> {
    if b.len() >= 3 && b[0] == 0xEF && b[1] == 0xBB && b[2] == 0xBF {
        let rest = b.subrange(3, b.len() as int);
        if valid_utf8(rest) {
            Ok(decode_utf8(rest))
        } else {
            Err("CSV 编码无法识别，请使用 UTF-8、UTF-16 或 GBK/GB18030 编码"@)
        }
    } else if b.len() >= 2 && b[0] == 0xFF && b[1] == 0xFE {
        let rest = b.subrange(2, b.len() as int);
        if rest.len() % 2 != 0 {
            Err("UTF-16LE CSV 编码不完整"@)
        } else {
            match decode_utf16(units_le(rest)) {
                Some(s) => Ok(s),
                None => Err("UTF-16LE CSV 编码无效"@),
            }
        }
    } else if b.len() >= 2 && b[0] == 0xFE && b[1] == 0xFF {
        let rest = b.subrange(2, b.len() as int);
        if rest.len() % 2 != 0 {
            Err("UTF-16BE CSV 编码不完整"@)
        } else {
            match decode_utf16(units_be(rest)) {
                Some(s) => Ok(s),
                None => Err("UTF-16BE CSV 编码无效"@),
            }
        }
    } else if valid_utf8(b) {
        Ok(decode_utf8(b))
    } else if gb18030_decoding(b).1 {
        Err("CSV 编码无法识别，请使用 UTF-8、UTF-16 或 GBK/GB18030 编码"@)
    } else {
        Ok(gb18030_decoding(b).0)
    }
}

/// Decodes the bytes of a bulk-import CSV (see `spec_decode_import`).
pub fn decode_import_bytes(b: &[u8]) -> (r: Result<String, String>)
    ensures
        match spec_decode_import(b@) {
            Ok(s) => r matches Ok(t) && t@ == s,
            Err(m) => r matches Err(e) && e@ == m,
        },
{
    if b.len() >= 3 && b[0] == 0xEF && b[1] == 0xBB && b[2] == 0xBF {
        let rest = crate::crypto::slice_range(b, 3, b.len());
        return match utf8_to_string(rest) {
            Some(s) => Ok(s),
            None => Err(String::from_str("CSV 编码无法识别，请使用 UTF-8、UTF-16 或 GBK/GB18030 编码")),
        };
    }
    if b.len() >= 2 && b[0] == 0xFF && b[1] == 0xFE {
        if (b.len() - 2) % 2 != 0 {
            return Err(String::from_str("UTF-16LE CSV 编码不完整"));
        }
        let u = to_units(b, 2, false);
        return match utf16_to_string(u.as_slice()) {
            Some(s) => Ok(s),
            None => Err(String::from_str("UTF-16LE CSV 编码无效")),
        };
    }
    if b.len() >= 2 && b[0] == 0xFE && b[1] == 0xFF {
        if (b.len() - 2) % 2 != 0 {
            return Err(String::from_str("UTF-16BE CSV 编码不完整"));
        }
        let u = to_units(b, 2, true);
        return match utf16_to_string(u.as_slice()) {
            Some(s) => Ok(s),
            None => Err(String::from_str("UTF-16BE CSV 编码无效")),
        };
    }
    match utf8_to_string(b) {
        Some(s) => Ok(s),
        None => {
            let (text, had_errors) = gb18030_decode(b);
            if had_errors {
                Err(String::from_str("CSV 编码无法识别，请使用 UTF-8、UTF-16 或 GBK/GB18030 编码"))
            } else {
                Ok(text)
            }
        },
    }
}

} // verus!
