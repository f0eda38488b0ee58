//! Byte layouts and texts that the vault writes and reads back: the export
//! file, stored metadata, record associated data, recovery codes, backup
//! file names and the change fingerprint.
use crate::crypto::SALT_LEN;
use crate::text::{i64_decimal, i64_to_decimal, push_char, trim, trim_chars};
use vstd::prelude::*;
use vstd::string::*;
use vstd::utf8::*;

verus! {

pub const FORMAT_VERSION: u32 = 2;

/// Length of an export header: magic, salt and wrapped key.
pub const EXPORT_HEADER_LEN: usize = 92;

/// Length of a wrapped data key: nonce, 32 key bytes and tag.
pub const WRAPPED_DEK_LEN: usize = 72;

// ---------------------------------------------------------------------
// Associated data that binds each sealed record to its place.

pub open spec fn wrapped_dek_aad() -> Seq<u8> {
    encode_utf8("LocalVault|wrapped_dek|v1"@)
}

pub open spec fn recovery_aad() -> Seq<u8> {
    encode_utf8("LocalVault|recovery|v1"@)
}

pub open spec fn export_aad() -> Seq<u8> {
    encode_utf8("LocalVault|export|v2"@)
}

pub open spec fn entry_aad(id: Seq<char>) -> Seq<u8> {
    encode_utf8("LocalVault|entry|"@ + id + "|v1"@)
}

pub open spec fn history_aad(id: Seq<char>) -> Seq<u8> {
    encode_utf8("LocalVault|history|"@ + id + "|v1"@)
}

/// The associated data of the wrapped data key.
pub fn wrapped_dek_aad_bytes() -> (r: &'static [u8])
    ensures
        r@ == wrapped_dek_aad(),
{
    "LocalVault|wrapped_dek|v1".as_bytes()
}

/// The associated data of the recovery-wrapped data key.
pub fn recovery_aad_bytes() -> (r: &'static [u8])
    ensures
        r@ == recovery_aad(),
{
    "LocalVault|recovery|v1".as_bytes()
}

/// The associated data of an export package.
pub fn export_aad_bytes() -> (r: &'static [u8])
    ensures
        r@ == export_aad(),
{
    "LocalVault|export|v2".as_bytes()
}

/// The associated data of the entry with this id.
pub fn entry_aad_text(id: &str) -> (r: String)
    ensures
        r@ == "LocalVault|entry|"@ + id@ + "|v1"@,
{
    let s = String::from_str("LocalVault|entry|");
    let s = s.concat(id);
    s.concat("|v1")
}

/// The associated data of a history record of the entry with this id.
pub fn history_aad_text(id: &str) -> (r: String)
    ensures
        r@ == "LocalVault|history|"@ + id@ + "|v1"@,
{
    let s = String::from_str("LocalVault|history|");
    let s = s.concat(id);
    s.concat("|v1")
}

// ---------------------------------------------------------------------
// Stored metadata.

/// The stored salt must be exactly 16 bytes.
pub fn salt_from_meta(b: &[u8]) -> (r: Result<[u8; 16], String>)
    ensures
        b@.len() == SALT_LEN <==> r is Ok,
        r matches Ok(s) ==> s@ == b@,
        r matches Err(e) ==> e@ == "invalid salt"@,
{
    if b.len() != SALT_LEN {
        return Err(String::from_str("invalid salt"));
    }
    let mut s = [0u8; 16];
    let mut i: usize = 0;
    while i < 16
        invariant
            b@.len() == 16,
            i <= 16,
            forall|k: int| 0 <= k < i ==> s@[k] == b@[k],
        decreases 16 - i,
    {
        s[i] = b[i];
        i = i + 1;
    }
    assert(s@ =~= b@);
    Ok(s)
}

/// Big-endian value of four bytes.
pub open spec fn be_u32(b: Seq<u8>) -> u32 {
    (b[0] as int * 0x100_0000 + b[1] as int * 0x1_0000 + b[2] as int * 0x100 + b[3] as int) as u32
}

/// `u32::to_be_bytes`.
pub open spec fn u32_be_bytes(v: u32) -> Seq<u8> {
    seq![(v / 0x100_0000) as u8, ((v / 0x1_0000) % 0x100) as u8, ((v / 0x100) % 0x100) as u8, (v % 0x100) as u8]
}

/// The stored format version: four big-endian bytes; anything else reads
/// as version 1.
pub open spec fn spec_format_version(meta: Option<Seq<u8>>) -> u32 {
    match meta {
        Some(b) => if b.len() == 4 {
            be_u32(b)
        } else {
            1
        },
        None => 1,
    }
}

/// Reads the stored format version (see `spec_format_version`).
pub fn format_version_from_meta(meta: Option<&[u8]>) -> (r: u32)
    ensures
        r == spec_format_version(
            match meta {
                Some(b) => Some(b@),
                None => None,
            },
        ),
{
    match meta {
        Some(b) => {
            if b.len() == 4 {
                let v: u64 = (b[0] as u64) * 0x100_0000 + (b[1] as u64) * 0x1_0000 + (b[2] as u64)
                    * 0x100 + (b[3] as u64);
                v as u32
            } else {
                1
            }
        },
        None => 1,
    }
}

/// `u32::to_be_bytes`, as the format version is stored.
pub fn format_version_bytes(v: u32) -> (r: Vec<u8>)
    ensures
        r@ == u32_be_bytes(v),
{
    let mut r: Vec<u8> = Vec::new();
    r.push((v / 0x100_0000) as u8);
    r.push(((v / 0x1_0000) % 0x100) as u8);
    r.push(((v / 0x100) % 0x100) as u8);
    r.push((v % 0x100) as u8);
    assert(r@ =~= u32_be_bytes(v));
    r
}

/// What a written format version reads back as.
pub proof fn lemma_format_version_roundtrip(v: u32)
    ensures
        spec_format_version(Some(u32_be_bytes(v))) == v,
{
    assert(be_u32(u32_be_bytes(v)) == v) by (nonlinear_arith);
}

impl crate::vault::VaultManager {
    /// The start-screen status: whether the vault file exists, the format
    /// version it stores (see `spec_format_version`; a missing vault has
    /// the current one) and whether recovery is set up.
    pub fn status(exists: bool, version_meta: Option<&[u8]>, recovery_wrapped_present: bool) -> (r:
        crate::model::BootstrapStatus)
        ensures
            r.exists == exists,
            exists ==> r.version == spec_format_version(
                match version_meta {
                    Some(b) => Some(b@),
                    None => None,
                },
            ),
            !exists ==> r.version == FORMAT_VERSION,
            r.recovery_enabled == (exists && recovery_wrapped_present),
    {
        if !exists {
            return crate::model::BootstrapStatus { exists: false, version: FORMAT_VERSION, recovery_enabled: false };
        }
        crate::model::BootstrapStatus {
            exists: true,
            version: format_version_from_meta(version_meta),
            recovery_enabled: recovery_wrapped_present,
        }
    }
}

// ---------------------------------------------------------------------
// The export file: "LVX2", salt, wrapped data key, sealed package.

pub open spec fn export_magic() -> Seq<u8> {
    seq![0x4cu8, 0x56u8, 0x58u8, 0x32u8]
}

pub open spec fn export_v1_magic() -> Seq<u8> {
    seq![0x4cu8, 0x56u8, 0x58u8, 0x31u8]
}

/// The bytes of an export file.
pub open spec fn spec_export_frame(salt: Seq<u8>, wrapped: Seq<u8>, body: Seq<u8>) -> Seq<u8> {
    export_magic() + salt + wrapped + body
}

/// The parts of an export file: salt, wrapped data key, sealed package.
pub struct ExportParts {
    pub salt: [u8; 16],
    pub wrapped: Vec<u8>,
    pub body: Vec<u8>,
}

/// Why bytes are no export file.
#[derive(Clone, Copy, Debug, PartialEq, Eq)]
pub enum ExportFault {
    /// A file of the retired first format.
    LegacyFormat,
    /// No export file at all (a plain file is never imported).
    NotAnExport,
    /// Too short to hold a header and a sealed package.
    Truncated,
}

/// How an export file splits into its parts.
pub open spec fn spec_parse_export(b: Seq<u8>) -> Result<(Seq<u8>, Seq<u8>, Seq<u8>), ExportFault> {
    if b.len() < 4 || b.subrange(0, 4) != export_magic() {
        if b.len() >= 4 && b.subrange(0, 4) == export_v1_magic() {
            Err(ExportFault::LegacyFormat)
        } else {
            Err(ExportFault::NotAnExport)
        }
    } else if b.len() < EXPORT_HEADER_LEN + 24 + 16 {
        Err(ExportFault::Truncated)
    } else {
        Ok(
            (
                b.subrange(4, 4 + SALT_LEN as int),
                b.subrange(4 + SALT_LEN as int, EXPORT_HEADER_LEN as int),
                b.subrange(EXPORT_HEADER_LEN as int, b.len() as int),
            ),
        )
    }
}

/// The message shown for a refused export file.
pub open spec fn export_fault_message(f: ExportFault) -> Seq<char> {
    match f {
        ExportFault::LegacyFormat => "这是旧版 LVX1 导出文件。为避免把当前 Vault 密钥误当成源 Vault 密钥，旧版导出暂不支持跨 Vault 导入；请在原电脑重新导出一次。"@,
        ExportFault::NotAnExport => "不是有效的 LocalVault 可迁移加密数据文件，禁止导入明文文件"@,
        ExportFault::Truncated => "导出文件不完整或已损坏"@,
    }
}

/// The message shown for a refused export file.
pub fn export_fault_text(f: ExportFault) -> (r: String)
    ensures
        r@ == export_fault_message(f),
{
    match f {
        ExportFault::LegacyFormat => String::from_str(
            "这是旧版 LVX1 导出文件。为避免把当前 Vault 密钥误当成源 Vault 密钥，旧版导出暂不支持跨 Vault 导入；请在原电脑重新导出一次。",
        ),
        ExportFault::NotAnExport => String::from_str(
            "不是有效的 LocalVault 可迁移加密数据文件，禁止导入明文文件",
        ),
        ExportFault::Truncated => String::from_str("导出文件不完整或已损坏"),
    }
}

fn append_bytes(out: &mut Vec<u8>, b: &[u8])
    ensures
        final(out)@ == old(out)@ + b@,
{
    let ghost start = out@;
    let mut i: usize = 0;
    while i < b.len()
        invariant
            i <= b.len(),
            out@ == start + b@.subrange(0, i as int),
        decreases b.len() - i,
    {
        out.push(b[i]);
        i = i + 1;
    }
    assert(b@.subrange(0, b@.len() as int) =~= b@);
}

/// Lays out an export file.
pub fn export_frame(salt: &[u8; 16], wrapped: &[u8], body: &[u8]) -> (r: Vec<u8>)
    ensures
        r@ == spec_export_frame(salt@, wrapped@, body@),
{
    let mut out: Vec<u8> = Vec::new();
    out.push(0x4c);
    out.push(0x56);
    out.push(0x58);
    out.push(0x32);
    assert(out@ =~= export_magic());
    append_bytes(&mut out, salt.as_slice());
    append_bytes(&mut out, wrapped);
    append_bytes(&mut out, body);
    out
}

fn copy_range(b: &[u8], from: usize, to: usize) -> (r: Vec<u8>)
    requires
        from <= to <= b@.len(),
    ensures
        r@ == b@.subrange(from as int, to as int),
{
    let mut out: Vec<u8> = Vec::new();
    let mut i: usize = from;
    while i < to
        invariant
            from <= i <= to,
            to <= b@.len(),
            out@ == b@.subrange(from as int, i as int),
        decreases to - i,
    {
        out.push(b[i]);
        i = i + 1;
    }
    out
}

/// Splits an export file into its parts (see `spec_parse_export`).
pub fn parse_export(b: &[u8]) -> (r: Result<ExportParts, ExportFault>)
    ensures
        match spec_parse_export(b@) {
            Ok((s, w, c)) => r matches Ok(p) && p.salt@ == s && p.wrapped@ == w && p.body@ == c,
            Err(f) => r == Err::<ExportParts, ExportFault>(f),
        },
{
    let magic_ok = b.len() >= 4 && b[0] == 0x4c && b[1] == 0x56 && b[2] == 0x58 && b[3] == 0x32;
    proof {
        if b@.len() >= 4 {
            assert(magic_ok == (b@.subrange(0, 4) =~= export_magic()));
            assert((b[0] == 0x4c && b[1] == 0x56 && b[2] == 0x58 && b[3] == 0x31) == (b@.subrange(
                0,
                4,
            ) =~= export_v1_magic()));
        }
    }
    if !magic_ok {
        if b.len() >= 4 && b[0] == 0x4c && b[1] == 0x56 && b[2] == 0x58 && b[3] == 0x31 {
            return Err(ExportFault::LegacyFormat);
        }
        return Err(ExportFault::NotAnExport);
    }
    if b.len() < EXPORT_HEADER_LEN + 24 + 16 {
        return Err(ExportFault::Truncated);
    }
    let mut salt = [0u8; 16];
    let mut i: usize = 0;
    while i < 16
        invariant
            b@.len() >= EXPORT_HEADER_LEN,
            i <= 16,
            forall|k: int| 0 <= k < i ==> salt@[k] == b@[4 + k],
        decreases 16 - i,
    {
        salt[i] = b[4 + i];
        i = i + 1;
    }
    assert(salt@ =~= b@.subrange(4, 20));
    let wrapped = copy_range(b, 4 + SALT_LEN, EXPORT_HEADER_LEN);
    let body = copy_range(b, EXPORT_HEADER_LEN, b.len());
    Ok(ExportParts { salt, wrapped, body })
}

/// An export file reads back as the salt, wrapped key and package that were
/// laid out, when the key has its 72 bytes and the package holds at least a
/// nonce and a tag.
pub proof fn lemma_export_roundtrip(salt: Seq<u8>, wrapped: Seq<u8>, body: Seq<u8>)
    requires
        salt.len() == SALT_LEN,
        wrapped.len() == WRAPPED_DEK_LEN,
        body.len() >= 24 + 16,
    ensures
        spec_parse_export(spec_export_frame(salt, wrapped, body)) == Ok::<
            (Seq<u8>, Seq<u8>, Seq<u8>),
            ExportFault,
        >((salt, wrapped, body)),
{
    let f = spec_export_frame(salt, wrapped, body);
    assert(f.subrange(0, 4) =~= export_magic());
    assert(f.subrange(4, 20) =~= salt);
    assert(f.subrange(20, 92) =~= wrapped);
    assert(f.subrange(92, f.len() as int) =~= body);
}


// ---------------------------------------------------------------------
// Recovery codes and the recovery secret.

/// The 32 characters of a recovery code: no 0, 1, I or O.
pub open spec fn recovery_alphabet() -> Seq<char> {
    "ABCDEFGHJKLMNPQRSTUVWXYZ23456789"@
}

/// A recovery code spelled from random bytes: each byte picks a character
/// (byte mod 32), in groups of six joined by '-'.
pub open spec fn spec_recovery_code(r: Seq<u8>) -> Seq<char>
    decreases r.len(),
{
    if r.len() == 0 {
        Seq::empty()
    } else {
        let i = r.len() - 1;
        let prev = spec_recovery_code(r.drop_last());
        let with_dash = if i > 0 && i % 6 == 0 {
            prev.push('-')
        } else {
            prev
        };
        with_dash.push(recovery_alphabet()[(r.last() % 32) as int])
    }
}

/// Spells a recovery code from 24 random bytes (see `spec_recovery_code`).
pub fn recovery_code_from_bytes(r: &[u8; 24]) -> (s: String)
    ensures
        s@ == spec_recovery_code(r@),
{
    let alphabet = "ABCDEFGHJKLMNPQRSTUVWXYZ23456789";
    proof {
        reveal_strlit("ABCDEFGHJKLMNPQRSTUVWXYZ23456789");
    }
    assert(alphabet@.len() == 32);
    let mut out = String::new();
    let mut i: usize = 0;
    while i < 24
        invariant
            i <= 24,
            alphabet@ == recovery_alphabet(),
            alphabet@.len() == 32,
            out@ == spec_recovery_code(r@.subrange(0, i as int)),
        decreases 24 - i,
    {
        proof {
            assert(r@.subrange(0, i + 1).drop_last() =~= r@.subrange(0, i as int));
        }
        if i > 0 && i % 6 == 0 {
            push_char(&mut out, '-');
        }
        let n = r[i];
        let c = alphabet.get_char((n % 32) as usize);
        push_char(&mut out, c);
        i = i + 1;
    }
    assert(r@.subrange(0, 24) =~= r@);
    out
}

/// A new recovery code from 24 bytes of the operating system's random
/// source; whatever the bytes, it is spelled from them as
/// `spec_recovery_code` says: four groups of six code characters.
pub fn new_recovery_code() -> (r: (String, Ghost<Seq<u8>>))
    ensures
        r.1@.len() == 24,
        r.0@ == spec_recovery_code(r.1@),
{
    let bytes = crate::crypto::random_bytes::<24>();
    (recovery_code_from_bytes(&bytes), Ghost(bytes@))
}

/// The secret that the recovery key is derived from: the code and the three
/// answers, each trimmed, joined by NUL characters.
pub open spec fn spec_recovery_secret(code: Seq<char>, a0: Seq<char>, a1: Seq<char>, a2: Seq<char>) -> Seq<
    char,
> {
    code + seq!['\0'] + trim_chars(a0) + seq!['\0'] + trim_chars(a1) + seq!['\0'] + trim_chars(a2)
}

/// Joins a recovery code (already in its final form) and three answers
/// into the recovery secret.
pub fn recovery_secret(code: &str, answers: &[String]) -> (r: String)
    requires
        answers@.len() >= 3,
    ensures
        r@ == spec_recovery_secret(code@, answers@[0]@, answers@[1]@, answers@[2]@),
{
    let mut s = String::from_str(code);
    push_char(&mut s, '\0');
    let a0 = trim(answers[0].as_str());
    s.append(a0.as_str());
    push_char(&mut s, '\0');
    let a1 = trim(answers[1].as_str());
    s.append(a1.as_str());
    push_char(&mut s, '\0');
    let a2 = trim(answers[2].as_str());
    s.append(a2.as_str());
    s
}

// ---------------------------------------------------------------------
// Hex and the change fingerprint.

pub open spec fn hex_digit(v: u8) -> char {
    if v < 10 {
        (48 + v) as char
    } else {
        (87 + v) as char
    }
}

/// Lower-case hex of bytes, two digits per byte.
pub open spec fn hex_lower(b: Seq<u8>) -> Seq<char>
    decreases b.len(),
{
    if b.len() == 0 {
        Seq::empty()
    } else {
        hex_lower(b.drop_last()) + seq![hex_digit(b.last() / 16), hex_digit(b.last() % 16)]
    }
}

/// A lower-case hexadecimal digit: `0`–`9` or `a`–`f`.
pub open spec fn is_lower_hex_digit(c: char) -> bool {
    (48 <= (c as u32) <= 57) || (97 <= (c as u32) <= 102)
}

/// Lower-case hex has two digits per byte.
pub proof fn lemma_hex_lower(b: Seq<u8>)
    ensures
        hex_lower(b).len() == 2 * b.len(),
        forall|i: int| 0 <= i < hex_lower(b).len() ==> is_lower_hex_digit(#[trigger] hex_lower(b)[i]),
    decreases b.len(),
{
    if b.len() > 0 {
        lemma_hex_lower(b.drop_last());
        let h = hex_lower(b);
        let prev = hex_lower(b.drop_last());
        let x = b.last();
        assert forall|v: u8| v < 16 implies is_lower_hex_digit(#[trigger] hex_digit(v)) by {
            if v < 10 {
                vstd::utf8::char_u32_cast((48 + v) as char, (48 + v) as u32);
            } else {
                vstd::utf8::char_u32_cast((87 + v) as char, (87 + v) as u32);
            }
        }
        assert(is_lower_hex_digit(hex_digit(x / 16)));
        assert(is_lower_hex_digit(hex_digit(x % 16)));
        assert forall|i: int| 0 <= i < h.len() implies is_lower_hex_digit(#[trigger] h[i]) by {
            if i < prev.len() {
                assert(h[i] == prev[i]);
            }
        }
    }
}

fn hex_digit_exec(v: u8) -> (c: char)
    requires
        v < 16,
    ensures
        c == hex_digit(v),
{
    if v < 10 {
        ((48 + v) as u8) as char
    } else {
        ((87 + v) as u8) as char
    }
}

/// Lower-case hex, two digits per byte, in order (as `hex::encode` writes
/// it).
pub fn hex_encode(data: &[u8]) -> (r: String)
    ensures
        r@ == hex_lower(data@),
{
    let mut out = String::new();
    let mut i: usize = 0;
    while i < data.len()
        invariant
            i <= data@.len(),
            out@ == hex_lower(data@.subrange(0, i as int)),
        decreases data@.len() - i,
    {
        proof {
            assert(data@.subrange(0, i + 1).drop_last() =~= data@.subrange(0, i as int));
        }
        let b = data[i];
        push_char(&mut out, hex_digit_exec(b / 16));
        push_char(&mut out, hex_digit_exec(b % 16));
        proof {
            assert(out@ =~= hex_lower(data@.subrange(0, i as int)) + seq![hex_digit(b / 16), hex_digit(b % 16)]);
        }
        i = i + 1;
    }
    proof {
        assert(data@.subrange(0, data@.len() as int) =~= data@);
    }
    out
}

/// Eight big-endian bytes of a `u64`.
pub open spec fn u64_be_bytes(x: u64) -> Seq<u8> {
    Seq::new(8, |i: int| ((x as int / pow256(7 - i)) % 256) as u8)
}

pub open spec fn pow256(k: int) -> int
    decreases k,
{
    if k <= 0 {
        1
    } else {
        256 * pow256(k - 1)
    }
}

pub open spec fn rotl13(x: u64) -> u64 {
    ((x << 13u64) | (x >> 51u64)) as u64
}

pub open spec fn fp_step1(h: u64, b: u8) -> u64 {
    vstd::wrapping::u64_specs::wrapping_mul(h ^ (b as u64), 0x100000001b3u64)
}

pub open spec fn fp_step2(h: u64, b: u8) -> u64 {
    vstd::wrapping::u64_specs::wrapping_mul(
        rotl13(h ^ vstd::wrapping::u64_specs::wrapping_add(b as u64, 0x9e3779b9u64)),
        0xbf58476d1ce4e5b9u64,
    )
}

/// The two running hashes of the change fingerprint after these bytes:
/// FNV-1a (64-bit) and a rotate-multiply mix.
pub open spec fn fp_state(b: Seq<u8>) -> (u64, u64)
    decreases b.len(),
{
    if b.len() == 0 {
        (0xcbf29ce484222325u64, 0x9e3779b185ebca87u64)
    } else {
        let (h1, h2) = fp_state(b.drop_last());
        (fp_step1(h1, b.last()), fp_step2(h2, b.last()))
    }
}

/// The change fingerprint of serialized vault contents: the two hashes as
/// 16 hex digits each.
pub open spec fn spec_fingerprint(b: Seq<u8>) -> Seq<char> {
    hex_lower(u64_be_bytes(fp_state(b).0) + u64_be_bytes(fp_state(b).1))
}

fn push_u64_be(out: &mut Vec<u8>, x: u64)
    ensures
        final(out)@ == old(out)@ + u64_be_bytes(x),
{
    let ghost start = out@;
    let mut i: usize = 0;
    while i < 8
        invariant
            i <= 8,
            out@ == start + u64_be_bytes(x).subrange(0, i as int),
        decreases 8 - i,
    {
        let shift: u64 = (56 - 8 * i) as u64;
        let byte = ((x >> shift) & 0xff) as u8;
        proof {
            lemma_byte_of(x, i as int);
            assert(byte == u64_be_bytes(x)[i as int]);
        }
        out.push(byte);
        proof {
            assert(u64_be_bytes(x).subrange(0, i + 1) =~= u64_be_bytes(x).subrange(0, i as int).push(
                byte,
            ));
        }
        i = i + 1;
    }
    assert(u64_be_bytes(x).subrange(0, 8) =~= u64_be_bytes(x));
}

proof fn lemma_byte_of(x: u64, i: int)
    requires
        0 <= i < 8,
    ensures
        ((x >> ((56 - 8 * i) as u64)) & 0xff) as u8 == ((x as int / pow256(7 - i)) % 256) as u8,
{
    reveal_with_fuel(pow256, 8);
    if i == 0 {
        assert(((x >> 56u64) & 0xff) == (x / 0x100000000000000) % 256) by (bit_vector);
    } else if i == 1 {
        assert(((x >> 48u64) & 0xff) == (x / 0x1000000000000) % 256) by (bit_vector);
    } else if i == 2 {
        assert(((x >> 40u64) & 0xff) == (x / 0x10000000000) % 256) by (bit_vector);
    } else if i == 3 {
        assert(((x >> 32u64) & 0xff) == (x / 0x100000000) % 256) by (bit_vector);
    } else if i == 4 {
        assert(((x >> 24u64) & 0xff) == (x / 0x1000000) % 256) by (bit_vector);
    } else if i == 5 {
        assert(((x >> 16u64) & 0xff) == (x / 0x10000) % 256) by (bit_vector);
    } else if i == 6 {
        assert(((x >> 8u64) & 0xff) == (x / 0x100) % 256) by (bit_vector);
    } else {
        assert(((x >> 0u64) & 0xff) == x % 256) by (bit_vector);
    }
}

/// The change fingerprint of serialized vault contents (see
/// `spec_fingerprint`). Two snapshots with the same contents have the
/// same fingerprint.
pub fn fingerprint_vault(bytes: &[u8]) -> (r: String)
    ensures
        r@ == spec_fingerprint(bytes@),
        r@.len() == 32,
        forall|i: int| 0 <= i < 32 ==> is_lower_hex_digit(#[trigger] r@[i]),
{
    let mut h1: u64 = 0xcbf29ce484222325;
    let mut h2: u64 = 0x9e3779b185ebca87;
    let mut i: usize = 0;
    while i < bytes.len()
        invariant
            i <= bytes.len(),
            (h1, h2) == fp_state(bytes@.subrange(0, i as int)),
        decreases bytes.len() - i,
    {
        let b = bytes[i];
        proof {
            assert(bytes@.subrange(0, i + 1).drop_last() =~= bytes@.subrange(0, i as int));
        }
        h1 = (h1 ^ (b as u64)).wrapping_mul(0x100000001b3);
        let t = h2 ^ (b as u64).wrapping_add(0x9e3779b9);
        h2 = ((t << 13u64) | (t >> 51u64)).wrapping_mul(0xbf58476d1ce4e5b9);
        i = i + 1;
    }
    assert(bytes@.subrange(0, bytes@.len() as int) =~= bytes@);
    let mut raw: Vec<u8> = Vec::new();
    push_u64_be(&mut raw, h1);
    push_u64_be(&mut raw, h2);
    proof {
        lemma_hex_lower(raw@);
    }
    hex_encode(raw.as_slice())
}

// ---------------------------------------------------------------------
// Backup file names.

/// The name of a versioned backup file.
pub open spec fn spec_backup_file_name(stamp: i64, token: Seq<char>) -> Seq<char> {
    "LocalVault-"@ + i64_decimal(stamp) + "-"@ + token + ".vault"@
}

/// The name of the file that a versioned backup is written to before it
/// is checked and renamed.
pub open spec fn spec_backup_temp_name(stamp: i64, token: Seq<char>) -> Seq<char> {
    "."@ + spec_backup_file_name(stamp, token) + ".tmp"@
}

/// `LocalVault-{stamp}-{token}.vault`.
pub fn backup_file_name(stamp: i64, token: &str) -> (r: String)
    ensures
        r@ == spec_backup_file_name(stamp, token@),
{
    let d = i64_to_decimal(stamp);
    let s = String::from_str("LocalVault-");
    let s = s.concat(d.as_str());
    let s = s.concat("-");
    let s = s.concat(token);
    s.concat(".vault")
}

/// `.LocalVault-{stamp}-{token}.vault.tmp`.
pub fn backup_temp_name(stamp: i64, token: &str) -> (r: String)
    ensures
        r@ == spec_backup_temp_name(stamp, token@),
{
    let n = backup_file_name(stamp, token);
    let s = String::from_str(".");
    let s = s.concat(n.as_str());
    s.concat(".tmp")
}

/// A fresh token for a backup file name: four random bytes in hex. Whatever
/// the bytes, the token is their 8 hex digits.
pub fn new_backup_token() -> (r: (String, Ghost<Seq<u8>>))
    ensures
        r.1@.len() == 4,
        r.0@ == hex_lower(r.1@),
{
    let b = crate::crypto::random_bytes::<4>();
    (hex_encode(b.as_slice()), Ghost(b@))
}

// ---------------------------------------------------------------------
// Windows file attributes of the vault's folder.

pub const FILE_ATTRIBUTE_READONLY: u32 = 0x1;

pub const FILE_ATTRIBUTE_HIDDEN: u32 = 0x2;

pub const INVALID_FILE_ATTRIBUTES: u32 = 0xFFFF_FFFF;

/// The attributes to set on a file of the vault's folder: protecting makes
/// it read-only and hidden; unprotecting clears read-only and keeps it
/// hidden. `None` when the current attributes could not be read (the file
/// is left alone).
pub fn storage_attributes(current: u32, protect: bool) -> (r: Option<u32>)
    ensures
        current == INVALID_FILE_ATTRIBUTES ==> r is None,
        current != INVALID_FILE_ATTRIBUTES && protect ==> r == Some(
            current | FILE_ATTRIBUTE_READONLY | FILE_ATTRIBUTE_HIDDEN,
        ),
        current != INVALID_FILE_ATTRIBUTES && !protect ==> r == Some(
            (current & !FILE_ATTRIBUTE_READONLY) | FILE_ATTRIBUTE_HIDDEN,
        ),
{
    if current == INVALID_FILE_ATTRIBUTES {
        None
    } else if protect {
        Some(current | FILE_ATTRIBUTE_READONLY | FILE_ATTRIBUTE_HIDDEN)
    } else {
        Some((current & !FILE_ATTRIBUTE_READONLY) | FILE_ATTRIBUTE_HIDDEN)
    }
}

/// A protected file is read-only and hidden; an unprotected one is hidden
/// and writable, whatever it was before.
pub proof fn lemma_storage_attributes(current: u32)
    ensures
        (current | 1u32 | 2u32) & 3u32 == 3u32,
        ((current & !1u32) | 2u32) & 3u32 == 2u32,
{
    assert((current | 1u32 | 2u32) & 3u32 == 3u32) by (bit_vector);
    assert(((current & !1u32) | 2u32) & 3u32 == 2u32) by (bit_vector);
}

} // verus!
