//! The vault's keys: the data key (DEK) that seals every record, wrapped
//! under a key derived from the master password (KEK), and optionally under
//! a key derived from the recovery secret.
use crate::crypto::{
    derive_key, enc, open_sealed, spec_dec, spec_derive, DecFault, DEK_LEN, aead_len_ok,
    random_bytes, zeroize_key, spec_sealed,
};
use crate::formats::{
    recovery_aad, recovery_aad_bytes, recovery_secret, spec_recovery_secret, wrapped_dek_aad,
    wrapped_dek_aad_bytes,
};
use crate::password::{master_password_problem, validate_new_master_password, MIN_MASTER_PASSWORD_LEN};
use crate::text::{eq_ignore_ascii_case_chars, trim, trim_chars};
use vstd::prelude::*;
use vstd::string::*;
use vstd::utf8::*;

verus! {

/// A 32-byte data key. Its bytes never leave the library.
pub struct DataKey {
    bytes: [u8; 32],
}

impl View for DataKey {
    type V = Seq<u8>;

    closed spec fn view(&self) -> Seq<u8> {
        self.bytes@
    }
}

impl DataKey {
    proof fn lemma_len(&self)
        ensures
            self@.len() == DEK_LEN,
    {
    }

    /// Overwrites the key's bytes with zeros where they are held.
    fn wipe(&mut self)
        ensures
            final(self)@ == Seq::new(32, |i: int| 0u8),
    {
        zeroize_key(&mut self.bytes);
    }
}

/// Wipes the key held in `slot`, if any, then empties the slot.
fn drop_key(slot: &mut Option<DataKey>)
    ensures
        *final(slot) is None,
{
    match slot {
        Some(k) => k.wipe(),
        None => {},
    }
    *slot = None;
}

/// Why a key could not be opened with a password.
#[derive(Clone, Copy, Debug, PartialEq, Eq)]
pub enum KeyFault {
    /// Key derivation refused the password (longer than `u32::MAX` bytes).
    KdfFailed,
    /// The wrapped key does not authenticate under the derived key.
    Rejected,
    /// The wrapped value opened but is not 32 bytes long.
    BadLength,
}

/// Opening a wrapped key under a key-encryption key.
pub open spec fn spec_unwrap(kek: Seq<u8>, wrapped: Seq<u8>, aad: Seq<u8>) -> Result<Seq<u8>, KeyFault> {
    match spec_dec(kek, wrapped, aad) {
        Err(_) => Err(KeyFault::Rejected),
        Ok(p) => if p.len() == DEK_LEN {
            Ok(p)
        } else {
            Err(KeyFault::BadLength)
        },
    }
}

/// Opening a wrapped key with a password (or recovery secret) and salt.
pub open spec fn key_outcome(pass: Seq<char>, salt: Seq<u8>, wrapped: Seq<u8>, aad: Seq<u8>) -> Result<
    Seq<u8>,
    KeyFault,
> {
    if encode_utf8(pass).len() > 0xFFFF_FFFF {
        Err(KeyFault::KdfFailed)
    } else {
        spec_unwrap(spec_derive(pass, salt), wrapped, aad)
    }
}

/// What the caller of a key-opening step reports: the derivation error as
/// it came, or the step's own text for a refused or malformed key.
pub open spec fn reports(
    outcome: Result<Seq<u8>, KeyFault>,
    r: Result<(), String>,
    rejected: Seq<char>,
    bad_length: Seq<char>,
) -> bool {
    match outcome {
        Ok(_) => r is Ok,
        Err(KeyFault::KdfFailed) => r is Err,
        Err(KeyFault::Rejected) => r matches Err(e) && e@ == rejected,
        Err(KeyFault::BadLength) => r matches Err(e) && e@ == bad_length,
    }
}

fn key_from_bytes(b: &[u8]) -> (r: DataKey)
    requires
        b@.len() == 32,
    ensures
        r@ == b@,
{
    let mut k = [0u8; 32];
    let mut i: usize = 0;
    while i < 32
        invariant
            b@.len() == 32,
            i <= 32,
            forall|j: int| 0 <= j < i ==> k@[j] == b@[j],
        decreases 32 - i,
    {
        k[i] = b[i];
        i = i + 1;
    }
    assert(k@ =~= b@);
    DataKey { bytes: k }
}

/// Opens a wrapped key under a key-encryption key (see `spec_unwrap`).
pub fn unwrap_key(kek: &[u8; 32], wrapped: &[u8], aad: &[u8]) -> (r: Result<DataKey, KeyFault>)
    ensures
        match spec_unwrap(kek@, wrapped@, aad@) {
            Ok(k) => r matches Ok(d) && d@ == k,
            Err(f) => r matches Err(g) && g == f,
        },
        r is Ok ==> wrapped@.len() == crate::formats::WRAPPED_DEK_LEN,
{
    match open_sealed(kek, wrapped, aad) {
        Err(_) => Err(KeyFault::Rejected),
        Ok(p) => {
            if p.len() != DEK_LEN {
                Err(KeyFault::BadLength)
            } else {
                Ok(key_from_bytes(p.as_slice()))
            }
        },
    }
}

/// Opens a wrapped key with a password and salt (see `key_outcome`).
pub fn open_key(pass: &str, salt: &[u8; 16], wrapped: &[u8], aad: &[u8]) -> (r: Result<
    DataKey,
    (KeyFault, String),
>)
    ensures
        match key_outcome(pass@, salt@, wrapped@, aad@) {
            Ok(k) => r matches Ok(d) && d@ == k,
            Err(f) => r matches Err((g, _)) && g == f,
        },
        r is Ok ==> wrapped@.len() == crate::formats::WRAPPED_DEK_LEN,
{
    let kek = match derive_key(pass, salt) {
        Ok(k) => k,
        Err(e) => return Err((KeyFault::KdfFailed, e)),
    };
    proof {
        assert(pass.spec_bytes() == encode_utf8(pass@));
    }
    match unwrap_key(&kek, wrapped, aad) {
        Ok(d) => Ok(d),
        Err(f) => Err((f, String::new())),
    }
}

/// Maps a key-opening fault to the text that a step reports.
fn fault_text(f: (KeyFault, String), rejected: &str, bad_length: &str) -> (r: String)
    ensures
        f.0 == KeyFault::Rejected ==> r@ == rejected@,
        f.0 == KeyFault::BadLength ==> r@ == bad_length@,
{
    match f.0 {
        KeyFault::KdfFailed => f.1,
        KeyFault::Rejected => String::from_str(rejected),
        KeyFault::BadLength => String::from_str(bad_length),
    }
}

/// `wrapped` is `key` sealed under `kek` and `aad`, and opens again to it.
pub open spec fn wraps(wrapped: Seq<u8>, kek: Seq<u8>, key: Seq<u8>, aad: Seq<u8>) -> bool {
    &&& wrapped == spec_sealed(kek, wrapped.subrange(0, 24), key, aad)
    &&& spec_unwrap(kek, wrapped, aad) == Ok::<Seq<u8>, KeyFault>(key)
}

/// Seals a data key under a key-encryption key and associated data: 72
/// bytes that `unwrap_key` opens again to the same key.
pub fn wrap_key(kek: &[u8; 32], key: &DataKey, aad: &[u8]) -> (r: Vec<u8>)
    ensures
        wraps(r@, kek@, key@, aad@),
        r@.len() == 72,
{
    proof {
        key.lemma_len();
        assert(aead_len_ok(32));
    }
    match enc(kek, key.bytes.as_slice(), aad) {
        Ok(w) => w,
        Err(_) => {
            proof {
                assert(false);
            }
            Vec::new()
        },
    }
}

/// The material of a new vault: its salt, the data key wrapped under the
/// master password, and the data key itself.
pub struct NewVault {
    pub salt: [u8; 16],
    pub wrapped_dek: Vec<u8>,
    pub key: DataKey,
}

/// What a security update writes, and the key to keep.
pub struct SecurityUpdate {
    /// The data key wrapped under the new master password, if it changed.
    pub wrapped_dek: Option<Vec<u8>>,
    /// The data key wrapped under the new recovery secret, and the new
    /// recovery code, if the recovery questions changed.
    pub recovery: Option<(Vec<u8>, String)>,
    pub key: DataKey,
}

/// The vault's key state: the data key while unlocked, and the data key
/// that a passed recovery check holds until a new master password is set.
pub struct VaultManager {
    dek: Option<DataKey>,
    recovery_pending_dek: Option<DataKey>,
}

pub open spec fn key_view(k: Option<DataKey>) -> Option<Seq<u8>> {
    match k {
        Some(d) => Some(d@),
        None => None,
    }
}

impl VaultManager {
    /// The data key, while unlocked.
    pub closed spec fn key(&self) -> Option<Seq<u8>> {
        key_view(self.dek)
    }

    /// The data key recovered by `recovery_verify`, until it is used or
    /// dropped.
    pub closed spec fn pending_key(&self) -> Option<Seq<u8>> {
        key_view(self.recovery_pending_dek)
    }

    /// A locked vault with no recovery in progress.
    pub fn new() -> (v: Self)
        ensures
            v.key() is None,
            v.pending_key() is None,
    {
        VaultManager { dek: None, recovery_pending_dek: None }
    }

    /// Whether the vault is unlocked.
    pub fn is_unlocked(&self) -> (b: bool)
        ensures
            b == self.key() is Some,
    {
        self.dek.is_some()
    }

    /// Fails with "Vault locked" unless the vault is unlocked.
    pub fn require_unlocked(&self) -> (r: Result<(), String>)
        ensures
            r is Ok <==> self.key() is Some,
            r matches Err(e) ==> e@ == "Vault locked"@,
    {
        if self.dek.is_some() {
            Ok(())
        } else {
            Err(String::from_str("Vault locked"))
        }
    }

    /// Keeps `k` as the data key; the previous one is wiped.
    pub fn install_key(&mut self, k: DataKey)
        ensures
            final(self).key() == Some(k@),
            final(self).pending_key() == old(self).pending_key(),
    {
        drop_key(&mut self.dek);
        self.dek = Some(k);
    }

    /// Opens the data key with the master password and keeps it.
    pub fn unlock(&mut self, pass: &str, salt: &[u8; 16], wrapped_dek: &[u8]) -> (r: Result<(), String>)
        ensures
            reports(
                key_outcome(pass@, salt@, wrapped_dek@, wrapped_dek_aad()),
                r,
                "bad credentials"@,
                "invalid DEK"@,
            ),
            key_outcome(pass@, salt@, wrapped_dek@, wrapped_dek_aad()) matches Ok(k)
                ==> final(self).key() == Some(k),
            r is Err ==> final(self).key() == old(self).key(),
            final(self).pending_key() == old(self).pending_key(),
    {
        match open_key(pass, salt, wrapped_dek, wrapped_dek_aad_bytes()) {
            Ok(d) => {
                self.dek = Some(d);
                Ok(())
            },
            Err(f) => Err(fault_text(f, "bad credentials", "invalid DEK")),
        }
    }

    /// Wipes both keys.
    pub fn lock(&mut self)
        ensures
            final(self).key() is None,
            final(self).pending_key() is None,
    {
        drop_key(&mut self.dek);
        drop_key(&mut self.recovery_pending_dek);
    }

    /// Drops the key of a recovery in progress.
    pub fn recovery_cancel(&mut self)
        ensures
            final(self).pending_key() is None,
            final(self).key() == old(self).key(),
    {
        drop_key(&mut self.recovery_pending_dek);
    }

    /// Checks a master password against the stored wrapped key: it must
    /// open the key, and while unlocked it must be the key in use.
    pub fn verify_master_dek(&self, pass: &str, salt: &[u8; 16], wrapped_dek: &[u8]) -> (r: Result<
        DataKey,
        String,
    >)
        ensures
            pass@.len() < MIN_MASTER_PASSWORD_LEN ==> (r matches Err(e) && e@ == "主密码至少 8 位"@),
            pass@.len() >= MIN_MASTER_PASSWORD_LEN ==> match key_outcome(
                pass@,
                salt@,
                wrapped_dek@,
                wrapped_dek_aad(),
            ) {
                Ok(k) => match self.key() {
                    Some(c) => if c == k {
                        r matches Ok(d) && d@ == k
                    } else {
                        r matches Err(e) && e@ == "当前 Vault 密钥校验失败"@
                    },
                    None => r matches Ok(d) && d@ == k,
                },
                Err(KeyFault::KdfFailed) => r is Err,
                Err(KeyFault::Rejected) => r matches Err(e) && e@ == "主密码错误"@,
                Err(KeyFault::BadLength) => r matches Err(e) && e@ == "Vault 密钥无效"@,
            },
    {
        if pass.unicode_len() < MIN_MASTER_PASSWORD_LEN {
            return Err(String::from_str("主密码至少 8 位"));
        }
        let d = match open_key(pass, salt, wrapped_dek, wrapped_dek_aad_bytes()) {
            Ok(d) => d,
            Err(f) => return Err(fault_text(f, "主密码错误", "Vault 密钥无效")),
        };
        match &self.dek {
            Some(current) => {
                if !same_key(current, &d) {
                    return Err(String::from_str("当前 Vault 密钥校验失败"));
                }
            },
            None => {},
        }
        Ok(d)
    }

    /// `verify_master_dek`, keeping only whether it passed.
    pub fn verify_master(&self, pass: &str, salt: &[u8; 16], wrapped_dek: &[u8]) -> (r: Result<
        (),
        String,
    >)
        ensures
            pass@.len() < MIN_MASTER_PASSWORD_LEN ==> (r matches Err(e) && e@ == "主密码至少 8 位"@),
            pass@.len() >= MIN_MASTER_PASSWORD_LEN ==> match key_outcome(
                pass@,
                salt@,
                wrapped_dek@,
                wrapped_dek_aad(),
            ) {
                Ok(k) => match self.key() {
                    Some(c) => if c == k {
                        r is Ok
                    } else {
                        r matches Err(e) && e@ == "当前 Vault 密钥校验失败"@
                    },
                    None => r is Ok,
                },
                Err(KeyFault::KdfFailed) => r is Err,
                Err(KeyFault::Rejected) => r matches Err(e) && e@ == "主密码错误"@,
                Err(KeyFault::BadLength) => r matches Err(e) && e@ == "Vault 密钥无效"@,
            },
    {
        match self.verify_master_dek(pass, salt, wrapped_dek) {
            Ok(_) => Ok(()),
            Err(e) => Err(e),
        }
    }
}

fn same_key(a: &DataKey, b: &DataKey) -> (r: bool)
    ensures
        r == (a@ == b@),
{
    let mut i: usize = 0;
    while i < 32
        invariant
            i <= 32,
            forall|j: int| 0 <= j < i ==> a.bytes@[j] == b.bytes@[j],
        decreases 32 - i,
    {
        if a.bytes[i] != b.bytes[i] {
            return false;
        }
        i = i + 1;
    }
    assert(a.bytes@ =~= b.bytes@);
    true
}


/// A sealed record as stored: its id and its sealed bytes.
pub struct SealedRow {
    pub id: String,
    pub cipher: Vec<u8>,
}

/// Some row of the trash has this id.
pub open spec fn in_trash(trash: Seq<SealedRow>, id: Seq<char>) -> bool {
    exists|i: int| 0 <= i < trash.len() && (#[trigger] trash[i]).id@ == id
}

/// The first row of the trash with this id (`trash.len()` when none).
pub open spec fn trash_index(trash: Seq<SealedRow>, id: Seq<char>) -> int
    decreases trash.len(),
{
    if trash.len() == 0 {
        0
    } else if trash[0].id@ == id {
        0
    } else {
        1 + trash_index(trash.drop_first(), id)
    }
}

/// The trash without the rows of this id, the others in their order.
pub open spec fn trash_without(trash: Seq<SealedRow>, id: Seq<char>) -> Seq<SealedRow>
    decreases trash.len(),
{
    if trash.len() == 0 {
        Seq::empty()
    } else if trash[0].id@ == id {
        trash_without(trash.drop_first(), id)
    } else {
        seq![trash[0]] + trash_without(trash.drop_first(), id)
    }
}

proof fn lemma_trash_index(trash: Seq<SealedRow>, id: Seq<char>)
    ensures
        0 <= trash_index(trash, id) <= trash.len(),
        trash_index(trash, id) < trash.len() <==> in_trash(trash, id),
        trash_index(trash, id) < trash.len() ==> trash[trash_index(trash, id)].id@ == id,
        forall|j: int| 0 <= j < trash_index(trash, id) ==> (#[trigger] trash[j]).id@ != id,
    decreases trash.len(),
{
    if trash.len() > 0 {
        lemma_trash_index(trash.drop_first(), id);
        if trash[0].id@ != id {
            assert forall|j: int| 0 <= j < trash_index(trash, id) implies (#[trigger] trash[j]).id@ != id by {
                if j > 0 {
                    assert(trash[j] == trash.drop_first()[j - 1]);
                }
            }
            if in_trash(trash, id) {
                let w = choose|i: int| 0 <= i < trash.len() && (#[trigger] trash[i]).id@ == id;
                assert(trash.drop_first()[w - 1] == trash[w]);
            }
            if in_trash(trash.drop_first(), id) {
                let w = choose|i: int| 0 <= i < trash.len() - 1 && (#[trigger] trash.drop_first()[i]).id@ == id;
                assert(trash[w + 1] == trash.drop_first()[w]);
            }
        }
    }
}

/// The index of the first trash row with this id.
fn find_trash_row(trash: &Vec<SealedRow>, id: &str) -> (r: Option<usize>)
    ensures
        r is None <==> !in_trash(trash@, id@),
        r matches Some(i) ==> i == trash_index(trash@, id@) && i < trash@.len(),
{
    proof {
        lemma_trash_index(trash@, id@);
    }
    let mut i: usize = 0;
    while i < trash.len()
        invariant
            i <= trash@.len(),
            forall|k: int| 0 <= k < i ==> (#[trigger] trash@[k]).id@ != id@,
            0 <= trash_index(trash@, id@) <= trash@.len(),
            trash_index(trash@, id@) < trash@.len() <==> in_trash(trash@, id@),
            trash_index(trash@, id@) < trash@.len() ==> trash@[trash_index(trash@, id@)].id@ == id@,
            forall|j: int| 0 <= j < trash_index(trash@, id@) ==> (#[trigger] trash@[j]).id@ != id@,
        decreases trash@.len() - i,
    {
        if str_eq(trash[i].id.as_str(), id) {
            return Some(i);
        }
        i = i + 1;
    }
    None
}

/// The trash without the rows of this id (see `trash_without`).
fn drop_trash_rows(trash: Vec<SealedRow>, id: &str) -> (r: Vec<SealedRow>)
    ensures
        r@ == trash_without(trash@, id@),
{
    let ghost orig = trash@;
    let mut src = trash;
    let mut out: Vec<SealedRow> = Vec::new();
    proof {
        assert(out@ + trash_without(src@, id@) =~= trash_without(orig, id@));
    }
    while src.len() > 0
        invariant
            out@ + trash_without(src@, id@) == trash_without(orig, id@),
        decreases src@.len(),
    {
        let ghost before = src@;
        let row = src.remove(0);
        proof {
            assert(src@ =~= before.drop_first());
        }
        if !str_eq(row.id.as_str(), id) {
            let ghost ob = out@;
            out.push(row);
            proof {
                assert(out@ + trash_without(src@, id@) =~= ob + (seq![before[0]] + trash_without(src@, id@)));
            }
        }
    }
    proof {
        assert(out@ + trash_without(src@, id@) =~= out@);
    }
    out
}

/// What opening a sealed record reports, with the two texts of `dec`.
pub open spec fn dec_reports(key: Seq<u8>, data: Seq<u8>, aad: Seq<u8>, r: Result<Vec<u8>, String>) -> bool {
    match spec_dec(key, data, aad) {
        Ok(p) => r matches Ok(q) && q@ == p,
        Err(DecFault::TooShort) => r matches Err(e) && e@ == "invalid ciphertext"@,
        Err(DecFault::Unauthenticated) => r matches Err(e) && e@ == "authentication failed"@,
    }
}

/// Opens each stored entry with the given data key, each under the
/// associated data of its own id. One outcome per row, in order.
pub fn open_entry_rows(key: &DataKey, rows: &Vec<SealedRow>) -> (r: Vec<Result<Vec<u8>, String>>)
    ensures
        r@.len() == rows@.len(),
        forall|i: int|
            0 <= i < rows@.len() ==> dec_reports(
                key@,
                rows@[i].cipher@,
                crate::formats::entry_aad(rows@[i].id@),
                #[trigger] r@[i],
            ),
{
    let mut out: Vec<Result<Vec<u8>, String>> = Vec::new();
    let mut i: usize = 0;
    while i < rows.len()
        invariant
            i <= rows@.len(),
            out@.len() == i,
            forall|j: int|
                0 <= j < i ==> dec_reports(
                    key@,
                    rows@[j].cipher@,
                    crate::formats::entry_aad(rows@[j].id@),
                    #[trigger] out@[j],
                ),
        decreases rows@.len() - i,
    {
        let aad = crate::formats::entry_aad_text(rows[i].id.as_str());
        let res = crate::crypto::dec(&key.bytes, rows[i].cipher.as_slice(), aad.as_str().as_bytes());
        out.push(res);
        i = i + 1;
    }
    out
}

impl VaultManager {
    /// Opens the stored entries with the vault's data key (see
    /// `open_entry_rows`); "Vault locked" when locked.
    pub fn open_entries(&self, rows: &Vec<SealedRow>) -> (r: Result<Vec<Result<Vec<u8>, String>>, String>)
        ensures
            self.key() is None ==> (r matches Err(e) && e@ == "Vault locked"@),
            self.key() matches Some(k) ==> (r matches Ok(v) && v@.len() == rows@.len() && forall|i: int|
                0 <= i < rows@.len() ==> dec_reports(
                    k,
                    rows@[i].cipher@,
                    crate::formats::entry_aad(rows@[i].id@),
                    #[trigger] v@[i],
                )),
    {
        match &self.dek {
            Some(d) => Ok(open_entry_rows(d, rows)),
            None => Err(String::from_str("Vault locked")),
        }
    }

    /// Opens one stored entry; "Vault locked" when locked.
    pub fn open_entry(&self, id: &str, cipher: &[u8]) -> (r: Result<Vec<u8>, String>)
        ensures
            self.key() is None ==> (r matches Err(e) && e@ == "Vault locked"@),
            self.key() matches Some(k) ==> dec_reports(k, cipher@, crate::formats::entry_aad(id@), r),
    {
        match &self.dek {
            Some(d) => {
                let aad = crate::formats::entry_aad_text(id);
                crate::crypto::dec(&d.bytes, cipher, aad.as_str().as_bytes())
            },
            None => Err(String::from_str("Vault locked")),
        }
    }

    /// Seals an entry's serialized form under the data key, bound to its id.
    /// What is sealed opens again with `open_entry` under the same id.
    pub fn seal_entry(&self, id: &str, payload: &[u8]) -> (r: Result<Vec<u8>, String>)
        ensures
            self.key() is None ==> (r matches Err(e) && e@ == "Vault locked"@),
            self.key() is Some ==> (r is Ok <==> aead_len_ok(payload@.len())),
            self.key() matches Some(k) ==> (r matches Ok(c) ==> spec_dec(
                k,
                c@,
                crate::formats::entry_aad(id@),
            ) == Ok::<Seq<u8>, DecFault>(payload@)),
    {
        match &self.dek {
            Some(d) => {
                let aad = crate::formats::entry_aad_text(id);
                enc(&d.bytes, payload, aad.as_str().as_bytes())
            },
            None => Err(String::from_str("Vault locked")),
        }
    }

    /// Seals a history record of an entry under the data key, bound to the
    /// entry's id.
    pub fn seal_history(&self, id: &str, payload: &[u8]) -> (r: Result<Vec<u8>, String>)
        ensures
            self.key() is None ==> (r matches Err(e) && e@ == "Vault locked"@),
            self.key() is Some ==> (r is Ok <==> aead_len_ok(payload@.len())),
            self.key() matches Some(k) ==> (r matches Ok(c) ==> spec_dec(
                k,
                c@,
                crate::formats::history_aad(id@),
            ) == Ok::<Seq<u8>, DecFault>(payload@)),
    {
        match &self.dek {
            Some(d) => {
                let aad = crate::formats::history_aad_text(id);
                enc(&d.bytes, payload, aad.as_str().as_bytes())
            },
            None => Err(String::from_str("Vault locked")),
        }
    }

    /// Opens the stored history records of an entry (its last changes);
    /// "Vault locked" when locked. One outcome per record, in order.
    pub fn history_list(&self, id: &str, ciphers: &Vec<Vec<u8>>) -> (r: Result<Vec<Result<Vec<u8>, String>>, String>)
        ensures
            self.key() is None ==> (r matches Err(e) && e@ == "Vault locked"@),
            self.key() matches Some(k) ==> (r matches Ok(v) && v@.len() == ciphers@.len() && forall|i: int|
                0 <= i < ciphers@.len() ==> dec_reports(
                    k,
                    ciphers@[i]@,
                    crate::formats::history_aad(id@),
                    #[trigger] v@[i],
                )),
    {
        let d = match &self.dek {
            Some(d) => d,
            None => return Err(String::from_str("Vault locked")),
        };
        let aad = crate::formats::history_aad_text(id);
        let mut out: Vec<Result<Vec<u8>, String>> = Vec::new();
        let mut i: usize = 0;
        while i < ciphers.len()
            invariant
                i <= ciphers@.len(),
                out@.len() == i,
                self.dek == Some(*d),
                aad@ == "LocalVault|history|"@ + id@ + "|v1"@,
                forall|j: int|
                    0 <= j < i ==> dec_reports(
                        d@,
                        ciphers@[j]@,
                        crate::formats::history_aad(id@),
                        #[trigger] out@[j],
                    ),
            decreases ciphers@.len() - i,
        {
            let res = crate::crypto::dec(&d.bytes, ciphers[i].as_slice(), aad.as_str().as_bytes());
            out.push(res);
            i = i + 1;
        }
        Ok(out)
    }
}


/// Checks a new master password and its confirmation: the password rules
/// first, then that both were typed alike.
pub fn check_new_master(pass: &str, confirm: &str, mismatch: &str) -> (r: Result<(), String>)
    ensures
        match master_password_problem(pass@) {
            Some(m) => r matches Err(e) && e@ == m,
            None => if pass@ != confirm@ {
                r matches Err(e) && e@ == mismatch@
            } else {
                r is Ok
            },
        },
{
    validate_new_master_password(pass)?;
    if !str_eq(pass, confirm) {
        return Err(String::from_str(mismatch));
    }
    Ok(())
}

/// Whether two strings are equal.
pub fn str_eq(a: &str, b: &str) -> (r: bool)
    ensures
        r == (a@ == b@),
{
    let sa = String::from_str(a);
    let sb = String::from_str(b);
    sa == sb
}

impl VaultManager {
    /// The checks of vault creation that come before any file is touched:
    /// the password rules and the confirmation.
    pub fn create_check(pass: &str, confirm: &str) -> (r: Result<(), String>)
        ensures
            match master_password_problem(pass@) {
                Some(m) => r matches Err(e) && e@ == m,
                None => if pass@ != confirm@ {
                    r matches Err(e) && e@ == "两次输入的主密码不一致"@
                } else {
                    r is Ok
                },
            },
    {
        check_new_master(pass, confirm, "两次输入的主密码不一致")
    }

    /// Makes the keys of a new vault: a random salt and data key, the data
    /// key wrapped under the master password. The vault opens again with
    /// that password: `key_outcome` gives back the new data key.
    pub fn create(pass: &str, confirm: &str) -> (r: Result<NewVault, String>)
        ensures
            match master_password_problem(pass@) {
                Some(m) => r matches Err(e) && e@ == m,
                None => if pass@ != confirm@ {
                    r matches Err(e) && e@ == "两次输入的主密码不一致"@
                } else {
                    (r is Ok <==> pass.spec_bytes().len() <= 0xFFFF_FFFF)
                },
            },
            r matches Ok(v) ==> key_outcome(pass@, v.salt@, v.wrapped_dek@, wrapped_dek_aad())
                == Ok::<Seq<u8>, KeyFault>(v.key@),
            r matches Ok(v) ==> v.wrapped_dek@.len() == 72,
    {
        Self::create_check(pass, confirm)?;
        let salt = random_bytes::<16>();
        let key = DataKey { bytes: random_bytes::<32>() };
        let kek = derive_key(pass, &salt)?;
        let wrapped = wrap_key(&kek, &key, wrapped_dek_aad_bytes());
        proof {
            assert(pass.spec_bytes() == encode_utf8(pass@));
        }
        Ok(NewVault { salt, wrapped_dek: wrapped, key })
    }

    /// Opens the data key with the recovery code and the three answers, and
    /// holds it until a new master password is set.
    pub fn recovery_verify(
        &mut self,
        code: &str,
        answers: &[String],
        salt: &[u8; 16],
        recovery_wrapped: &[u8],
    ) -> (r: Result<(), String>)
        ensures
            answers@.len() != 3 ==> (r matches Err(e) && e@ == "恢复答案数量错误"@),
            answers@.len() != 3 ==> final(self).pending_key() == old(self).pending_key(),
            answers@.len() == 3 ==> reports(
                key_outcome(
                    spec_recovery_secret(trim_chars(code@), answers@[0]@, answers@[1]@, answers@[2]@),
                    salt@,
                    recovery_wrapped@,
                    recovery_aad(),
                ),
                r,
                "recovery auth failed"@,
                "invalid recovery key"@,
            ),
            answers@.len() == 3 ==> (key_outcome(
                spec_recovery_secret(trim_chars(code@), answers@[0]@, answers@[1]@, answers@[2]@),
                salt@,
                recovery_wrapped@,
                recovery_aad(),
            ) matches Ok(k) ==> final(self).pending_key() == Some(k)),
            r is Err ==> final(self).pending_key() == old(self).pending_key(),
            final(self).key() == old(self).key(),
    {
        if answers.len() != 3 {
            return Err(String::from_str("恢复答案数量错误"));
        }
        let code_t = trim(code);
        let secret = recovery_secret(code_t.as_str(), answers);
        match open_key(secret.as_str(), salt, recovery_wrapped, recovery_aad_bytes()) {
            Ok(d) => {
                drop_key(&mut self.recovery_pending_dek);
                self.recovery_pending_dek = Some(d);
                Ok(())
            },
            Err(f) => Err(fault_text(f, "recovery auth failed", "invalid recovery key")),
        }
    }

    /// The checks of a recovery password reset that come before any file is
    /// touched: the password rules, the confirmation, and a passed recovery
    /// check.
    pub fn recovery_set_master_check(&self, new_password: &str, confirm: &str) -> (r: Result<(), String>)
        ensures
            match master_password_problem(new_password@) {
                Some(m) => r matches Err(e) && e@ == m,
                None => if new_password@ != confirm@ {
                    r matches Err(e) && e@ == "两次输入的新主密码不一致"@
                } else if self.pending_key() is None {
                    r matches Err(e) && e@ == "请先完成恢复验证"@
                } else {
                    r is Ok
                },
            },
    {
        check_new_master(new_password, confirm, "两次输入的新主密码不一致")?;
        if self.recovery_pending_dek.is_none() {
            return Err(String::from_str("请先完成恢复验证"));
        }
        Ok(())
    }

    /// The data key recovered by `recovery_verify`, wrapped under a new
    /// master password, which must not open the old wrapped key. The
    /// result opens with the new password to the recovered key.
    pub fn recovery_set_master(
        &self,
        new_password: &str,
        confirm: &str,
        salt: &[u8; 16],
        old_wrapped: &[u8],
    ) -> (r: Result<Vec<u8>, String>)
        ensures
            match master_password_problem(new_password@) {
                Some(m) => r matches Err(e) && e@ == m,
                None => if new_password@ != confirm@ {
                    r matches Err(e) && e@ == "两次输入的新主密码不一致"@
                } else if self.pending_key() is None {
                    r matches Err(e) && e@ == "请先完成恢复验证"@
                } else if new_password.spec_bytes().len() > 0xFFFF_FFFF {
                    r is Err
                } else if spec_dec(spec_derive(new_password@, salt@), old_wrapped@, wrapped_dek_aad()) is Ok {
                    r matches Err(e) && e@ == "新主密码不能与旧主密码相同"@
                } else {
                    r is Ok
                },
            },
            r matches Ok(w) ==> self.pending_key() matches Some(k) && key_outcome(
                new_password@,
                salt@,
                w@,
                wrapped_dek_aad(),
            ) == Ok::<Seq<u8>, KeyFault>(k),
    {
        self.recovery_set_master_check(new_password, confirm)?;
        let kek = derive_key(new_password, salt)?;
        proof {
            assert(new_password.spec_bytes() == encode_utf8(new_password@));
        }
        if open_sealed(&kek, old_wrapped, wrapped_dek_aad_bytes()).is_ok() {
            return Err(String::from_str("新主密码不能与旧主密码相同"));
        }
        match &self.recovery_pending_dek {
            Some(d) => Ok(wrap_key(&kek, d, wrapped_dek_aad_bytes())),
            None => Err(String::from_str("请先完成恢复验证")),
        }
    }

    /// After a recovery reset is written: both keys are dropped and wiped;
    /// the vault is locked until the new password opens it.
    pub fn finish_recovery(&mut self)
        ensures
            final(self).key() is None,
            final(self).pending_key() is None,
    {
        self.lock();
    }

    /// The check of a backup before it replaces the vault: a password must
    /// be given, it must open the backup's data key, and that key must open
    /// every entry of the backup. Nothing of the vault changes here,
    /// whatever the outcome; on success the backup's key and entries are
    /// handed back for `finish_restore`.
    pub fn restore(&mut self, pass: &str, salt: &[u8; 16], wrapped_dek: &[u8], rows: &Vec<SealedRow>) -> (r:
        Result<RestoredBackup, String>)
        ensures
            final(self).key() == old(self).key(),
            final(self).pending_key() == old(self).pending_key(),
            pass@.len() == 0 ==> (r matches Err(e) && e@ == "请输入备份对应的 Vault 主密码"@),
            pass@.len() > 0 ==> match key_outcome(pass@, salt@, wrapped_dek@, wrapped_dek_aad()) {
                Err(KeyFault::KdfFailed) => r is Err,
                Err(KeyFault::Rejected) => r matches Err(e) && e@
                    == "备份验证失败：主密码不正确，原 Vault 未被替换"@,
                Err(KeyFault::BadLength) => r matches Err(e) && e@
                    == "备份中的 Vault 密钥无效，原 Vault 未被替换"@,
                Ok(k) => match rows_open(k, rows@) {
                    Err(m) => r matches Err(e) && e@ == restore_failure_text(m),
                    Ok(ps) => r matches Ok(b) && b.key@ == k && plains_view(b.plains@) == ps,
                },
            },
    {
        require_backup_password(pass)?;
        let key = restore_key(pass, salt, wrapped_dek)?;
        match open_all_rows(&key, rows) {
            Ok(plains) => Ok(RestoredBackup { key, plains }),
            Err(m) => Err(restore_failure(m.as_str())),
        }
    }

    /// After a checked restore: when the backup replaced the vault file,
    /// its key becomes the vault's key; otherwise the key stays as it was
    /// and the failure is answered (a failed replacement says that the
    /// vault was kept).
    pub fn finish_restore(&mut self, key: DataKey, swap: Result<(), SwapFailure>) -> (r: Result<(), String>)
        ensures
            final(self).pending_key() == old(self).pending_key(),
            swap is Ok ==> r is Ok && final(self).key() == Some(key@),
            swap is Err ==> final(self).key() == old(self).key(),
            swap matches Err(SwapFailure::Prepare(e)) ==> r == Err::<(), String>(e),
            swap matches Err(SwapFailure::Replace(e)) ==> (r matches Err(m) && m@ == "恢复文件替换失败："@ + e@
                + "；原 Vault 已保留"@),
    {
        match swap {
            Ok(()) => {
                self.install_key(key);
                Ok(())
            },
            Err(SwapFailure::Prepare(e)) => Err(e),
            Err(SwapFailure::Replace(e)) => {
                let m = String::from_str("恢复文件替换失败：");
                let m = m.concat(e.as_str());
                Err(m.concat("；原 Vault 已保留"))
            },
        }
    }

}

/// What a full backup holds: the plaintexts of its entries, in row order,
/// and its categories.
pub struct BackupContents {
    pub plains: Vec<Vec<u8>>,
    pub categories: Vec<crate::model::Category>,
}

/// The text of a backup whose entries failed to open or to read.
pub open spec fn backup_failure_text(m: Seq<char>) -> Seq<char> {
    "备份验证失败："@ + m
}

/// See `backup_failure_text`.
pub fn backup_failure(m: &str) -> (r: String)
    ensures
        r@ == backup_failure_text(m@),
{
    let s = String::from_str("备份验证失败：");
    s.concat(m)
}

/// A backup that passed its check: its data key and the plaintexts of its
/// entries, in row order.
pub struct RestoredBackup {
    pub key: DataKey,
    pub plains: Vec<Vec<u8>>,
}

/// Why the vault file could not be replaced by a checked backup: a step
/// before the replacement failed, or the replacement itself.
pub enum SwapFailure {
    Prepare(String),
    Replace(String),
}

pub open spec fn plains_view(v: Seq<Vec<u8>>) -> Seq<Seq<u8>> {
    v.map_values(|x: Vec<u8>| x@)
}

/// The text of a refused sealed record.
pub open spec fn dec_fault_text(f: DecFault) -> Seq<char> {
    match f {
        DecFault::TooShort => "invalid ciphertext"@,
        DecFault::Unauthenticated => "authentication failed"@,
    }
}

/// Opening every stored entry with a key: the plaintexts in row order, or
/// the text of the first refusal.
pub open spec fn rows_open(key: Seq<u8>, rows: Seq<SealedRow>) -> Result<Seq<Seq<u8>>, Seq<char>>
    decreases rows.len(),
{
    if rows.len() == 0 {
        Ok(Seq::empty())
    } else {
        match rows_open(key, rows.drop_last()) {
            Err(m) => Err(m),
            Ok(ps) => match spec_dec(key, rows.last().cipher@, crate::formats::entry_aad(rows.last().id@)) {
                Ok(p) => Ok(ps.push(p)),
                Err(f) => Err(dec_fault_text(f)),
            },
        }
    }
}

fn open_all_rows(key: &DataKey, rows: &Vec<SealedRow>) -> (r: Result<Vec<Vec<u8>>, String>)
    ensures
        match rows_open(key@, rows@) {
            Ok(ps) => r matches Ok(v) && plains_view(v@) == ps,
            Err(m) => r matches Err(e) && e@ == m,
        },
{
    let mut out: Vec<Vec<u8>> = Vec::new();
    let mut i: usize = 0;
    proof {
        assert(rows@.subrange(0, 0) =~= Seq::<SealedRow>::empty());
        assert(plains_view(out@) =~= Seq::<Seq<u8>>::empty());
    }
    while i < rows.len()
        invariant
            i <= rows@.len(),
            rows_open(key@, rows@.subrange(0, i as int)) == Ok::<Seq<Seq<u8>>, Seq<char>>(plains_view(out@)),
        decreases rows@.len() - i,
    {
        proof {
            assert(rows@.subrange(0, i + 1).drop_last() =~= rows@.subrange(0, i as int));
        }
        let aad = crate::formats::entry_aad_text(rows[i].id.as_str());
        match crate::crypto::dec(&key.bytes, rows[i].cipher.as_slice(), aad.as_str().as_bytes()) {
            Ok(p) => {
                let ghost before = out@;
                out.push(p);
                proof {
                    assert(plains_view(out@) =~= plains_view(before).push(p@));
                }
            },
            Err(e) => {
                proof {
                    lemma_rows_open_err(key@, rows@, i as int);
                }
                return Err(e);
            },
        }
        i = i + 1;
    }
    proof {
        assert(rows@.subrange(0, rows@.len() as int) =~= rows@);
    }
    Ok(out)
}

proof fn lemma_rows_open_err(key: Seq<u8>, rows: Seq<SealedRow>, i: int)
    requires
        0 <= i < rows.len(),
        rows_open(key, rows.subrange(0, i + 1)) is Err,
    ensures
        rows_open(key, rows) == rows_open(key, rows.subrange(0, i + 1)),
    decreases rows.len() - i,
{
    if i + 1 < rows.len() {
        assert(rows.drop_last().subrange(0, i + 1) =~= rows.subrange(0, i + 1));
        lemma_rows_open_err(key, rows.drop_last(), i);
    } else {
        assert(rows.subrange(0, i + 1) =~= rows);
    }
}

/// The text of a backup that failed its check before a restore: the vault
/// was left as it was.
pub open spec fn restore_failure_text(m: Seq<char>) -> Seq<char> {
    "备份验证失败："@ + m + "；原 Vault 未被替换"@
}

/// See `restore_failure_text`.
pub fn restore_failure(m: &str) -> (r: String)
    ensures
        r@ == restore_failure_text(m@),
{
    let s = String::from_str("备份验证失败：");
    let s = s.concat(m);
    s.concat("；原 Vault 未被替换")
}


/// What importing an export file gives: the sealed package's plaintext, or
/// the message of the first check that fails (`None` for the key
/// derivation's own error text).
pub open spec fn spec_import(pass: Seq<char>, file: Seq<u8>) -> Result<Seq<u8>, Option<Seq<char>>> {
    if pass.len() < MIN_MASTER_PASSWORD_LEN {
        Err(Some("主密码至少 8 位"@))
    } else {
        match crate::formats::spec_parse_export(file) {
            Err(f) => Err(Some(crate::formats::export_fault_message(f))),
            Ok((salt, wrapped, body)) => match key_outcome(pass, salt, wrapped, wrapped_dek_aad()) {
                Err(KeyFault::KdfFailed) => Err(None),
                Err(KeyFault::Rejected) => Err(Some("原电脑主密码错误，无法解密导入文件"@)),
                Err(KeyFault::BadLength) => Err(Some("导出文件中的密钥无效"@)),
                Ok(dek) => match spec_dec(dek, body, crate::formats::export_aad()) {
                    Ok(p) => Ok(p),
                    Err(_) => Err(Some("导出文件认证失败：文件可能被篡改或损坏"@)),
                },
            },
        }
    }
}

pub open spec fn import_reports(o: Result<Seq<u8>, Option<Seq<char>>>, r: Result<Vec<u8>, String>) -> bool {
    match o {
        Ok(p) => r matches Ok(q) && q@ == p,
        Err(Some(m)) => r matches Err(e) && e@ == m,
        Err(None) => r is Err,
    }
}

/// The export package is sealed under the exporting vault's data key; the
/// export file carries that key wrapped under the exporting vault's master
/// password.
pub open spec fn spec_export_ok(
    key: Seq<u8>,
    pass: Seq<char>,
    salt: Seq<u8>,
    wrapped: Seq<u8>,
    payload: Seq<u8>,
    out: Seq<u8>,
) -> bool {
    let body = out.subrange(20 + wrapped.len() as int, out.len() as int);
    &&& out == crate::formats::spec_export_frame(salt, wrapped, body)
    &&& body == spec_sealed(key, body.subrange(0, 24), payload, crate::formats::export_aad())
}

impl VaultManager {
    /// Reads an export file (see `spec_import`): the serialized package it
    /// carries, after the master password of the exporting vault opened its
    /// key and the key opened the package.
    pub fn import_entries(source_master_password: &str, file: &[u8]) -> (r: Result<Vec<u8>, String>)
        ensures
            import_reports(spec_import(source_master_password@, file@), r),
    {
        crate::password::require_min_master_len(source_master_password)?;
        let parts = match crate::formats::parse_export(file) {
            Ok(p) => p,
            Err(f) => return Err(crate::formats::export_fault_text(f)),
        };
        let dek = match open_key(
            source_master_password,
            &parts.salt,
            parts.wrapped.as_slice(),
            wrapped_dek_aad_bytes(),
        ) {
            Ok(d) => d,
            Err(f) => return Err(
                fault_text(f, "原电脑主密码错误，无法解密导入文件", "导出文件中的密钥无效"),
            ),
        };
        match open_sealed(&dek.bytes, parts.body.as_slice(), crate::formats::export_aad_bytes()) {
            Ok(p) => Ok(p),
            Err(_) => Err(String::from_str("导出文件认证失败：文件可能被篡改或损坏")),
        }
    }

    /// The entries of an imported package, whose version must be 2.
    pub fn export_package_entries(version: u32, entries: Vec<crate::model::Entry>) -> (r: Result<
        Vec<crate::model::Entry>,
        String,
    >)
        ensures
            version == 2 ==> r == Ok::<Vec<crate::model::Entry>, String>(entries),
            version != 2 ==> (r matches Err(e) && e@ == "不支持的导出数据版本"@),
    {
        if version != 2 {
            return Err(String::from_str("不支持的导出数据版本"));
        }
        Ok(entries)
    }

    /// Writes an export file for a serialized package. The master password
    /// must open the stored wrapped key to the key in use. What it returns
    /// imports again, with the same password, to the same package.
    pub fn export_entries(
        &self,
        master_password: &str,
        salt: &[u8; 16],
        wrapped_dek: &[u8],
        payload: &[u8],
    ) -> (r: Result<Vec<u8>, String>)
        ensures
            master_password@.len() < MIN_MASTER_PASSWORD_LEN ==> (r matches Err(e) && e@
                == "主密码至少 8 位"@),
            master_password@.len() >= MIN_MASTER_PASSWORD_LEN ==> match self.key() {
                None => r matches Err(e) && e@ == "Vault locked"@,
                Some(k) => match key_outcome(master_password@, salt@, wrapped_dek@, wrapped_dek_aad()) {
                    Err(KeyFault::KdfFailed) => r is Err,
                    Err(KeyFault::Rejected) => r matches Err(e) && e@ == "原 Vault 主密码错误，导出已取消"@,
                    Err(KeyFault::BadLength) => r matches Err(e) && e@ == "原 Vault 密钥无效"@,
                    Ok(d) => if d != k {
                        r matches Err(e) && e@ == "当前 Vault 密钥校验失败，导出已取消"@
                    } else {
                        (r is Ok <==> aead_len_ok(payload@.len())) && (r matches Ok(out) ==> spec_export_ok(
                            k,
                            master_password@,
                            salt@,
                            wrapped_dek@,
                            payload@,
                            out@,
                        ))
                    },
                },
            },
            r matches Ok(out) ==> spec_import(master_password@, out@) == Ok::<Seq<u8>, Option<Seq<char>>>(
                payload@,
            ),
    {
        crate::password::require_min_master_len(master_password)?;
        let current = match &self.dek {
            Some(d) => d,
            None => return Err(String::from_str("Vault locked")),
        };
        let raw = match open_key(master_password, salt, wrapped_dek, wrapped_dek_aad_bytes()) {
            Ok(d) => d,
            Err(f) => return Err(
                fault_text(f, "原 Vault 主密码错误，导出已取消", "原 Vault 密钥无效"),
            ),
        };
        if !same_key(&raw, current) {
            return Err(String::from_str("当前 Vault 密钥校验失败，导出已取消"));
        }
        let ct = enc(&current.bytes, payload, crate::formats::export_aad_bytes())?;
        let out = crate::formats::export_frame(salt, wrapped_dek, ct.as_slice());
        proof {
            let body = out@.subrange(20 + wrapped_dek@.len() as int, out@.len() as int);
            assert(body =~= ct@);
            crate::formats::lemma_export_roundtrip(salt@, wrapped_dek@, ct@);
            assert(out@.subrange(0, 4 + 16 + wrapped_dek@.len() as int) + ct@ =~= out@);
        }
        Ok(out)
    }
}


/// Fails unless a password for a backup was typed.
pub fn require_backup_password(pass: &str) -> (r: Result<(), String>)
    ensures
        r is Ok <==> pass@.len() > 0,
        r matches Err(e) ==> e@ == "请输入备份对应的 Vault 主密码"@,
{
    if pass.is_empty() {
        Err(String::from_str("请输入备份对应的 Vault 主密码"))
    } else {
        Ok(())
    }
}

/// Opens the data key of a backup file to read it.
pub fn backup_file_key(pass: &str, salt: &[u8; 16], wrapped_dek: &[u8]) -> (r: Result<DataKey, String>)
    ensures
        match key_outcome(pass@, salt@, wrapped_dek@, wrapped_dek_aad()) {
            Ok(k) => r matches Ok(d) && d@ == k,
            Err(KeyFault::KdfFailed) => r is Err,
            Err(KeyFault::Rejected) => r matches Err(e) && e@ == "备份验证失败：主密码不正确"@,
            Err(KeyFault::BadLength) => r matches Err(e) && e@ == "备份中的 Vault 密钥无效"@,
        },
{
    match open_key(pass, salt, wrapped_dek, wrapped_dek_aad_bytes()) {
        Ok(d) => Ok(d),
        Err(f) => Err(fault_text(f, "备份验证失败：主密码不正确", "备份中的 Vault 密钥无效")),
    }
}

/// Opens the data key of a backup that is about to replace the vault; the
/// texts say that the vault was left as it was.
pub fn restore_key(pass: &str, salt: &[u8; 16], wrapped_dek: &[u8]) -> (r: Result<DataKey, String>)
    ensures
        match key_outcome(pass@, salt@, wrapped_dek@, wrapped_dek_aad()) {
            Ok(k) => r matches Ok(d) && d@ == k,
            Err(KeyFault::KdfFailed) => r is Err,
            Err(KeyFault::Rejected) => r matches Err(e) && e@ == "备份验证失败：主密码不正确，原 Vault 未被替换"@,
            Err(KeyFault::BadLength) => r matches Err(e) && e@ == "备份中的 Vault 密钥无效，原 Vault 未被替换"@,
        },
{
    match open_key(pass, salt, wrapped_dek, wrapped_dek_aad_bytes()) {
        Ok(d) => Ok(d),
        Err(f) => Err(
            fault_text(
                f,
                "备份验证失败：主密码不正确，原 Vault 未被替换",
                "备份中的 Vault 密钥无效，原 Vault 未被替换",
            ),
        ),
    }
}

impl VaultManager {
    /// Reads a full backup for a preview or a merge: a password must be
    /// given, the file must be a `.vault` file, the password must open the
    /// backup's data key and that key every entry of the backup. The result
    /// holds the entries' plaintexts, in row order, and the backup's
    /// categories (see `backup_listing`). Nothing of the vault is touched.
    pub fn backup_preview(
        pass: &str,
        ext: Option<&str>,
        salt: &[u8; 16],
        wrapped_dek: &[u8],
        rows: &Vec<SealedRow>,
        categories: Vec<crate::categories::BackupCategoryRow>,
        has_icon: bool,
        has_parent: bool,
    ) -> (r: Result<BackupContents, String>)
        ensures
            pass@.len() == 0 ==> (r matches Err(e) && e@ == "请输入备份对应的 Vault 主密码"@),
            pass@.len() > 0 && !(ext matches Some(x) && eq_ignore_ascii_case_chars(x@, "vault"@)) ==> (
            r matches Err(e) && e@ == "只允许导入 .vault 加密备份"@),
            pass@.len() > 0 && (ext matches Some(x) && eq_ignore_ascii_case_chars(x@, "vault"@)) ==> match key_outcome(
                pass@,
                salt@,
                wrapped_dek@,
                wrapped_dek_aad(),
            ) {
                Err(KeyFault::KdfFailed) => r is Err,
                Err(KeyFault::Rejected) => r matches Err(e) && e@ == "备份验证失败：主密码不正确"@,
                Err(KeyFault::BadLength) => r matches Err(e) && e@ == "备份中的 Vault 密钥无效"@,
                Ok(k) => match rows_open(k, rows@) {
                    Err(m) => r matches Err(e) && e@ == backup_failure_text(m),
                    Ok(ps) => r matches Ok(c) && plains_view(c.plains@) == ps
                        && crate::categories::backup_listing(c.categories@, categories@, has_icon, has_parent),
                },
            },
    {
        require_backup_password(pass)?;
        crate::importer::require_vault_backup_source(ext)?;
        let key = backup_file_key(pass, salt, wrapped_dek)?;
        let plains = match open_all_rows(&key, rows) {
            Ok(p) => p,
            Err(m) => return Err(backup_failure(m.as_str())),
        };
        let cats = crate::categories::backup_categories(categories, has_icon, has_parent);
        Ok(BackupContents { plains, categories: cats })
    }

    /// The checks of enabling recovery that come before any file is
    /// touched.
    pub fn enable_recovery_check(&self, code: &str, questions: &[String], answers: &[String]) -> (r: Result<(), String>)
        ensures
            r is Ok <==> recovery_setup_ok(self.key(), code@, questions@.len(), answers@),
            r matches Err(e) ==> e@ == recovery_setup_problem(self.key(), code@, questions@.len(), answers@),
            r is Ok ==> answers@.len() == 3 && trim_chars(answers@[0]@).len() > 0 && trim_chars(answers@[1]@).len()
                > 0 && trim_chars(answers@[2]@).len() > 0,
            self.key() is Some && trim_chars(code@).len() >= 20 && questions@.len() == 3 && answers@.len() == 3
                && (trim_chars(answers@[0]@).len() == 0 || trim_chars(answers@[1]@).len() == 0 || trim_chars(
                answers@[2]@,
            ).len() == 0) ==> (r matches Err(e) && e@ == "每个密保答案不能为空"@),
            self.key() is None ==> (r matches Err(e) && e@ == "Vault locked"@),
            self.key() is Some && trim_chars(code@).len() < 20 ==> (r matches Err(e) && e@ == "恢复码太短"@),
            self.key() is Some && trim_chars(code@).len() >= 20 && (questions@.len() != 3 || answers@.len() != 3)
                ==> (r matches Err(e) && e@ == "必须有 3 组问题/答案"@),
    {
        if self.dek.is_none() {
            return Err(String::from_str("Vault locked"));
        }
        let code_t = trim(code);
        if code_t.as_str().unicode_len() < 20 {
            return Err(String::from_str("恢复码太短"));
        }
        if questions.len() != 3 || answers.len() != 3 {
            return Err(String::from_str("必须有 3 组问题/答案"));
        }
        let mut i: usize = 0;
        while i < 3
            invariant
                answers@.len() == 3,
                questions@.len() == 3,
                self.key() is Some,
                code_t@ == trim_chars(code@),
                code_t@.len() >= 20,
                i <= 3,
                forall|k: int| 0 <= k < i ==> trim_chars((#[trigger] answers@[k])@).len() > 0,
            decreases 3 - i,
        {
            let a = trim(answers[i].as_str());
            if a.as_str().unicode_len() == 0 {
                return Err(String::from_str("每个密保答案不能为空"));
            }
            i = i + 1;
        }
        Ok(())
    }

    /// The data key wrapped under the recovery secret (the trimmed code and
    /// the three trimmed answers). The result opens with that secret to the
    /// vault's key, as `recovery_verify` opens it.
    pub fn enable_recovery(
        &self,
        code: &str,
        questions: &[String],
        answers: &[String],
        salt: &[u8; 16],
    ) -> (r: Result<Vec<u8>, String>)
        ensures
            !recovery_setup_ok(self.key(), code@, questions@.len(), answers@) ==> (r matches Err(e)
                && e@ == recovery_setup_problem(self.key(), code@, questions@.len(), answers@)),
            r is Ok ==> answers@.len() == 3 && trim_chars(answers@[0]@).len() > 0 && trim_chars(answers@[1]@).len()
                > 0 && trim_chars(answers@[2]@).len() > 0,
            self.key() is Some && trim_chars(code@).len() >= 20 && questions@.len() == 3 && answers@.len() == 3
                && (trim_chars(answers@[0]@).len() == 0 || trim_chars(answers@[1]@).len() == 0 || trim_chars(
                answers@[2]@,
            ).len() == 0) ==> (r matches Err(e) && e@ == "每个密保答案不能为空"@),
            recovery_setup_ok(self.key(), code@, questions@.len(), answers@) ==> (r is Ok
                <==> encode_utf8(
                spec_recovery_secret(trim_chars(code@), answers@[0]@, answers@[1]@, answers@[2]@),
            ).len() <= 0xFFFF_FFFF),
            r matches Ok(w) ==> self.key() matches Some(k) && key_outcome(
                spec_recovery_secret(trim_chars(code@), answers@[0]@, answers@[1]@, answers@[2]@),
                salt@,
                w@,
                recovery_aad(),
            ) == Ok::<Seq<u8>, KeyFault>(k),
    {
        self.enable_recovery_check(code, questions, answers)?;
        let code_t = trim(code);
        let secret = recovery_secret(code_t.as_str(), answers);
        let secret_str = secret.as_str();
        let rk = derive_key(secret_str, salt)?;
        proof {
            assert(secret_str.spec_bytes() == encode_utf8(secret_str@));
        }
        match &self.dek {
            Some(d) => Ok(wrap_key(&rk, d, recovery_aad_bytes())),
            None => Err(String::from_str("Vault locked")),
        }
    }
}

/// Recovery ignores surrounding whitespace: a recovery key that opens with
/// a code and three answers also opens with any code and answers that are
/// the same once trimmed, to the same data key.
pub proof fn lemma_recovery_trim_insensitive(
    code1: Seq<char>,
    answers1: Seq<String>,
    code2: Seq<char>,
    answers2: Seq<String>,
    salt: Seq<u8>,
    wrapped: Seq<u8>,
)
    requires
        answers1.len() == 3,
        answers2.len() == 3,
        trim_chars(code1) == trim_chars(code2),
        forall|i: int| 0 <= i < 3 ==> trim_chars((#[trigger] answers1[i])@) == trim_chars(answers2[i]@),
    ensures
        key_outcome(
            spec_recovery_secret(trim_chars(code1), answers1[0]@, answers1[1]@, answers1[2]@),
            salt,
            wrapped,
            recovery_aad(),
        ) == key_outcome(
            spec_recovery_secret(trim_chars(code2), answers2[0]@, answers2[1]@, answers2[2]@),
            salt,
            wrapped,
            recovery_aad(),
        ),
{
    assert(trim_chars(answers1[0]@) == trim_chars(answers2[0]@));
    assert(trim_chars(answers1[1]@) == trim_chars(answers2[1]@));
    assert(trim_chars(answers1[2]@) == trim_chars(answers2[2]@));
    assert(spec_recovery_secret(trim_chars(code1), answers1[0]@, answers1[1]@, answers1[2]@)
        == spec_recovery_secret(trim_chars(code2), answers2[0]@, answers2[1]@, answers2[2]@));
}

/// Recovery is enabled only with three answers that are all filled: when
/// the vault is unlocked, the code long enough and there are three
/// questions and three answers, any answer that is blank once trimmed
/// refuses it with "每个密保答案不能为空"; and whenever it can be enabled,
/// each of the three answers is filled.
pub proof fn lemma_blank_answer_refuses_recovery(
    key: Option<Seq<u8>>,
    code: Seq<char>,
    n_questions: nat,
    answers: Seq<String>,
    k: int,
)
    ensures
        recovery_setup_ok(key, code, n_questions, answers) ==> answers.len() == 3 && trim_chars(answers[0]@).len()
            > 0 && trim_chars(answers[1]@).len() > 0 && trim_chars(answers[2]@).len() > 0,
        key is Some && trim_chars(code).len() >= 20 && n_questions == 3 && answers.len() == 3 && 0 <= k < 3
            && trim_chars(answers[k]@).len() == 0 ==> !recovery_setup_ok(key, code, n_questions, answers)
            && recovery_setup_problem(key, code, n_questions, answers) == "每个密保答案不能为空"@,
{
    if recovery_setup_ok(key, code, n_questions, answers) {
        assert(trim_chars(answers[0]@).len() > 0);
        assert(trim_chars(answers[1]@).len() > 0);
        assert(trim_chars(answers[2]@).len() > 0);
    }
}

/// New recovery questions are refused with "密保问题和答案不能为空" when,
/// with three questions and three answers, any question or answer (the
/// last ones included) is blank once trimmed; when they are accepted,
/// every question and answer is filled.
pub proof fn lemma_blank_question_refuses_change(questions: Seq<String>, answers: Seq<String>, k: int)
    ensures
        questions.len() == 3 && answers.len() == 3 && 0 <= k < 3 && (trim_chars(questions[k]@).len() == 0
            || trim_chars(answers[k]@).len() == 0) ==> question_change_problem(questions, Some(answers))
            == Some("密保问题和答案不能为空"@),
        (questions.len() != 3 || answers.len() != 3) ==> question_change_problem(questions, Some(answers)) == Some(
            "必须有 3 组问题/答案"@,
        ),
        question_change_problem(questions, None) == Some("缺少密保答案"@),
        question_change_problem(questions, Some(answers)) is None ==> questions.len() == 3 && answers.len() == 3
            && (forall|j: int| 0 <= j < 3 ==> trim_chars((#[trigger] questions[j])@).len() > 0) && (forall|j: int|
            0 <= j < 3 ==> trim_chars((#[trigger] answers[j])@).len() > 0),
{
    if questions.len() == 3 && answers.len() == 3 && 0 <= k < 3 {
        if trim_chars(questions[k]@).len() == 0 {
            assert(!all_filled(questions));
        }
        if trim_chars(answers[k]@).len() == 0 {
            assert(!all_filled(answers));
        }
    }
}

/// The first thing that keeps recovery from being enabled, as its message.
pub open spec fn recovery_setup_problem(
    key: Option<Seq<u8>>,
    code: Seq<char>,
    n_questions: nat,
    answers: Seq<String>,
) -> Seq<char> {
    if key is None {
        "Vault locked"@
    } else if trim_chars(code).len() < 20 {
        "恢复码太短"@
    } else if n_questions != 3 || answers.len() != 3 {
        "必须有 3 组问题/答案"@
    } else {
        "每个密保答案不能为空"@
    }
}

/// Recovery can be enabled: unlocked, a code of at least 20 characters
/// (trimmed), three questions and three answers, none blank.
pub open spec fn recovery_setup_ok(
    key: Option<Seq<u8>>,
    code: Seq<char>,
    n_questions: nat,
    answers: Seq<String>,
) -> bool {
    &&& key is Some
    &&& trim_chars(code).len() >= 20
    &&& n_questions == 3
    &&& answers.len() == 3
    &&& forall|k: int| 0 <= k < 3 ==> trim_chars((#[trigger] answers[k])@).len() > 0
}


/// The outcome of checking a master password against the stored wrapped
/// key while the vault holds `key`: the opened key, or the message of the
/// failed check (`None` for the key derivation's own error text).
pub open spec fn master_check(
    key: Option<Seq<u8>>,
    pass: Seq<char>,
    salt: Seq<u8>,
    wrapped: Seq<u8>,
) -> Result<Seq<u8>, Option<Seq<char>>> {
    if pass.len() < MIN_MASTER_PASSWORD_LEN {
        Err(Some("主密码至少 8 位"@))
    } else {
        match key_outcome(pass, salt, wrapped, wrapped_dek_aad()) {
            Ok(k) => match key {
                Some(c) => if c == k {
                    Ok(k)
                } else {
                    Err(Some("当前 Vault 密钥校验失败"@))
                },
                None => Ok(k),
            },
            Err(KeyFault::KdfFailed) => Err(None),
            Err(KeyFault::Rejected) => Err(Some("主密码错误"@)),
            Err(KeyFault::BadLength) => Err(Some("Vault 密钥无效"@)),
        }
    }
}

/// What is wrong with a requested change of master password, if anything.
pub open spec fn password_change_problem(current: Seq<char>, p: Seq<char>, confirm: Seq<char>) -> Option<
    Seq<char>,
> {
    match master_password_problem(p) {
        Some(m) => Some(m),
        None => if p == current {
            Some("新主密码不能与旧主密码相同"@)
        } else if p != confirm {
            Some("两次输入的新主密码不一致"@)
        } else {
            None
        },
    }
}

pub open spec fn all_filled(s: Seq<String>) -> bool {
    forall|k: int| 0 <= k < s.len() ==> trim_chars((#[trigger] s[k])@).len() > 0
}

/// What is wrong with requested new recovery questions, if anything.
pub open spec fn question_change_problem(questions: Seq<String>, answers: Option<Seq<String>>) -> Option<
    Seq<char>,
> {
    match answers {
        None => Some("缺少密保答案"@),
        Some(a) => if questions.len() != 3 || a.len() != 3 {
            Some("必须有 3 组问题/答案"@)
        } else if !all_filled(questions) || !all_filled(a) {
            Some("密保问题和答案不能为空"@)
        } else {
            None
        },
    }
}

pub open spec fn opt_chars(s: Option<&str>) -> Option<Seq<char>> {
    match s {
        Some(x) => Some(x@),
        None => None,
    }
}

pub open spec fn opt_strings(s: Option<&[String]>) -> Option<Seq<String>> {
    match s {
        Some(x) => Some(x@),
        None => None,
    }
}

fn filled(s: &[String]) -> (r: bool)
    ensures
        r == all_filled(s@),
        r <==> forall|k: int| 0 <= k < s@.len() ==> trim_chars((#[trigger] s@[k])@).len() > 0,
{
    let mut i: usize = 0;
    while i < s.len()
        invariant
            i <= s@.len(),
            forall|k: int| 0 <= k < i ==> trim_chars((#[trigger] s@[k])@).len() > 0,
        decreases s@.len() - i,
    {
        let t = trim(s[i].as_str());
        if t.as_str().unicode_len() == 0 {
            return false;
        }
        i = i + 1;
    }
    true
}

impl VaultManager {
    /// Changes the master password, the recovery questions, or both, after
    /// the current master password checks out. A new password must meet the
    /// rules, differ from the current one and match its confirmation; new
    /// questions need three filled questions and answers and get a fresh
    /// recovery code. Every wrapped key returned opens, with its password or
    /// its code and answers, to the vault's data key.
    pub fn update_security_settings(
        &self,
        current_password: &str,
        new_password: Option<&str>,
        new_confirm: Option<&str>,
        questions: Option<&[String]>,
        answers: Option<&[String]>,
        salt: &[u8; 16],
        wrapped_dek: &[u8],
    ) -> (r: Result<SecurityUpdate, String>)
        ensures
            match master_check(self.key(), current_password@, salt@, wrapped_dek@) {
                Err(Some(m)) => r matches Err(e) && e@ == m,
                Err(None) => r is Err,
                Ok(d) => if new_password is None && questions is None {
                    r matches Err(e) && e@ == "至少选择一项修改"@
                } else if new_password is Some && password_change_problem(
                    current_password@,
                    opt_chars(new_password)->0,
                    match opt_chars(new_confirm) {
                        Some(c) => c,
                        None => Seq::empty(),
                    },
                ) is Some {
                    r matches Err(e) && Some(e@) == password_change_problem(
                        current_password@,
                        opt_chars(new_password)->0,
                        match opt_chars(new_confirm) {
                            Some(c) => c,
                            None => Seq::empty(),
                        },
                    )
                } else if new_password matches Some(p) && p.spec_bytes().len() > 0xFFFF_FFFF {
                    r is Err
                } else if questions is Some && question_change_problem(
                    opt_strings(questions)->0,
                    opt_strings(answers),
                ) is Some {
                    r matches Err(e) && Some(e@) == question_change_problem(
                        opt_strings(questions)->0,
                        opt_strings(answers),
                    )
                } else {
                    r is Ok || (questions is Some && (answers matches Some(a) && exists|b: Seq<u8>|
                        b.len() == 24 && encode_utf8(
                            spec_recovery_secret(
                                #[trigger] crate::formats::spec_recovery_code(b),
                                a@[0]@,
                                a@[1]@,
                                a@[2]@,
                            ),
                        ).len() > 0xFFFF_FFFF))
                },
            },
            r matches Ok(u) ==> master_check(self.key(), current_password@, salt@, wrapped_dek@)
                == Ok::<Seq<u8>, Option<Seq<char>>>(u.key@),
            r matches Ok(u) ==> (new_password is None <==> u.wrapped_dek is None),
            r matches Ok(u) ==> (new_password matches Some(p) ==> u.wrapped_dek matches Some(w)
                && key_outcome(p@, salt@, w@, wrapped_dek_aad()) == Ok::<Seq<u8>, KeyFault>(u.key@)),
            r matches Ok(u) ==> (questions is None <==> u.recovery is None),
            r is Ok ==> (questions matches Some(q) ==> q@.len() == 3 && (forall|k: int|
                0 <= k < 3 ==> trim_chars((#[trigger] q@[k])@).len() > 0) && (answers matches Some(a) && a@.len()
                == 3 && forall|k: int| 0 <= k < 3 ==> trim_chars((#[trigger] a@[k])@).len() > 0)),
            r matches Ok(u) ==> (answers matches Some(a) ==> (u.recovery matches Some((w, code))
                ==> a@.len() == 3 && (exists|bytes: Seq<u8>| bytes.len() == 24 && code@ == crate::formats::spec_recovery_code(bytes))
                && key_outcome(
                spec_recovery_secret(code@, a@[0]@, a@[1]@, a@[2]@),
                salt@,
                w@,
                recovery_aad(),
            ) == Ok::<Seq<u8>, KeyFault>(u.key@))),
    {
        let d = self.verify_master_dek(current_password, salt, wrapped_dek)?;
        if new_password.is_none() && questions.is_none() {
            return Err(String::from_str("至少选择一项修改"));
        }
        let mut new_wrapped: Option<Vec<u8>> = None;
        if let Some(p) = new_password {
            let confirm = match new_confirm {
                Some(c) => c,
                None => "",
            };
            proof {
                reveal_strlit("");
            }
            validate_new_master_password(p)?;
            if str_eq(p, current_password) {
                return Err(String::from_str("新主密码不能与旧主密码相同"));
            }
            if !str_eq(p, confirm) {
                return Err(String::from_str("两次输入的新主密码不一致"));
            }
            let kek = derive_key(p, salt)?;
            proof {
                assert(p.spec_bytes() == encode_utf8(p@));
            }
            new_wrapped = Some(wrap_key(&kek, &d, wrapped_dek_aad_bytes()));
        }
        let mut recovery: Option<(Vec<u8>, String)> = None;
        if let Some(qs) = questions {
            let ans = match answers {
                Some(a) => a,
                None => return Err(String::from_str("缺少密保答案")),
            };
            if qs.len() != 3 || ans.len() != 3 {
                return Err(String::from_str("必须有 3 组问题/答案"));
            }
            if !filled(qs) || !filled(ans) {
                return Err(String::from_str("密保问题和答案不能为空"));
            }
            let (code, Ghost(bytes)) = crate::formats::new_recovery_code();
            let secret = recovery_secret(code.as_str(), ans);
            let secret_str = secret.as_str();
            proof {
                assert(secret_str.spec_bytes() == encode_utf8(secret_str@));
            }
            let rk = match derive_key(secret_str, salt) {
                Ok(k) => k,
                Err(e) => {
                    proof {
                        assert(crate::formats::spec_recovery_code(bytes) == code@);
                    }
                    return Err(e);
                },
            };
            let w = wrap_key(&rk, &d, recovery_aad_bytes());
            recovery = Some((w, code));
        }
        Ok(SecurityUpdate { wrapped_dek: new_wrapped, recovery, key: d })
    }
}


impl VaultManager {
    /// A new recovery code: 24 random bytes spelled as four groups of six
    /// code characters (see `spec_recovery_code`).
    pub fn generate_recovery_code(&self) -> (r: Result<String, String>)
        ensures
            r matches Ok(c) && exists|b: Seq<u8>| b.len() == 24 && c@ == crate::formats::spec_recovery_code(b),
    {
        let (code, Ghost(bytes)) = crate::formats::new_recovery_code();
        Ok(code)
    }

    /// The questions offered before any are stored.
    pub open spec fn default_questions() -> Seq<Seq<char>> {
        seq![
            "我最喜欢的一本童年读物是什么？"@,
            "我自己定义的长期不变短语是什么？"@,
            "我记得的第一个特别地点是什么？"@,
        ]
    }

    /// The recovery questions to ask: the stored ones, or the default
    /// three when none are stored.
    pub fn recovery_questions(stored: Option<Vec<String>>) -> (r: Vec<String>)
        ensures
            stored matches Some(q) ==> r == q,
            stored is None ==> r.deep_view() == Self::default_questions(),
    {
        match stored {
            Some(q) => q,
            None => {
                let mut v: Vec<String> = Vec::new();
                v.push(String::from_str("我最喜欢的一本童年读物是什么？"));
                v.push(String::from_str("我自己定义的长期不变短语是什么？"));
                v.push(String::from_str("我记得的第一个特别地点是什么？"));
                proof {
                    assert(v.deep_view() =~= Self::default_questions());
                }
                v
            },
        }
    }

    /// Merges a backup into the vault: only while unlocked. Entries of the
    /// backup whose ids are new are appended (see `spec_merge`); then the
    /// backup's categories are added (see `merge_rounds`), whose created
    /// rows stay even when the merge fails on a category whose parent can
    /// never be found. The pair is the category table to store and the
    /// merged entries to save, or the error.
    pub fn merge_backup(
        &self,
        current: Vec<crate::model::Entry>,
        incoming: Vec<crate::model::Entry>,
        table: Vec<crate::categories::CategoryRow>,
        pending: Vec<crate::model::Category>,
        now_ms: i64,
        now_secs: i64,
    ) -> (r: (Vec<crate::categories::CategoryRow>, Result<Vec<crate::model::Entry>, String>))
        requires
            crate::model::merge_fits(current@, incoming@, now_ms),
            pending@.len() <= i64::MAX,
            crate::categories::orders_at_most(crate::categories::table_view(table@), i64::MAX - pending@.len()),
        ensures
            self.key() is None ==> crate::categories::table_view(r.0@) == crate::categories::table_view(table@)
                && (r.1 matches Err(e) && e@ == "Vault locked"@),
            self.key() is Some ==> crate::categories::table_view(r.0@) == crate::categories::merge_rounds(
                crate::categories::table_view(table@),
                pending@,
                now_secs,
            ).0,
            self.key() is Some ==> match crate::categories::merge_rounds(
                crate::categories::table_view(table@),
                pending@,
                now_secs,
            ).1 {
                Some(m) => r.1 matches Err(e) && e@ == m,
                None => r.1 matches Ok(v) && v@ == crate::model::spec_merge(
                    current@,
                    incoming@,
                    crate::model::max_seq(current@),
                    now_ms,
                ),
            },
    {
        if self.dek.is_none() {
            return (table, Err(String::from_str("Vault locked")));
        }
        let merged = crate::model::merge_entries(current, incoming, now_ms);
        let (t, failed) = crate::categories::merge_categories(table, pending, now_secs);
        match failed {
            Some(e) => (t, Err(e)),
            None => (t, Ok(merged)),
        }
    }

    /// The trash listing: only while unlocked; the time before which
    /// deleted entries are purged.
    pub fn list_trash(&self, now_ms: i64, retention_days: i64) -> (r: Result<i64, String>)
        requires
            now_ms >= i64::MIN + 30 * crate::model::DAY_MS,
        ensures
            self.key() is None ==> (r matches Err(e) && e@ == "Vault locked"@),
            self.key() is Some ==> (r matches Ok(c) && c == now_ms - crate::model::clamp_trash_days(
                retention_days,
            ) * crate::model::DAY_MS),
    {
        self.require_unlocked()?;
        Ok(crate::model::trash_cutoff(now_ms, retention_days))
    }

    /// Opens the trash row of an entry: only while unlocked, and the entry
    /// must be in the trash (its first row with that id is opened, under
    /// the associated data of the id).
    pub fn open_trash_row(&self, trash: &Vec<SealedRow>, entry_id: &str) -> (r: Result<Vec<u8>, String>)
        ensures
            self.key() is None ==> (r matches Err(e) && e@ == "Vault locked"@),
            self.key() is Some && !in_trash(trash@, entry_id@) ==> (r matches Err(e) && e@
                == "回收站中不存在该条目"@),
            self.key() matches Some(k) ==> (in_trash(trash@, entry_id@) ==> dec_reports(
                k,
                trash@[trash_index(trash@, entry_id@)].cipher@,
                crate::formats::entry_aad(entry_id@),
                r,
            )),
    {
        self.require_unlocked()?;
        match find_trash_row(trash, entry_id) {
            Some(i) => self.open_entry(entry_id, trash[i].cipher.as_slice()),
            None => Err(String::from_str("回收站中不存在该条目")),
        }
    }

    /// Opens the stored row of an entry that goes to the trash: only while
    /// unlocked, and the row must exist (`cipher` is what the vault holds
    /// for the id, if anything).
    pub fn open_entry_row(&self, entry_id: &str, cipher: Option<Vec<u8>>) -> (r: Result<Vec<u8>, String>)
        ensures
            self.key() is None ==> (r matches Err(e) && e@ == "Vault locked"@),
            self.key() is Some && cipher is None ==> (r matches Err(e) && e@ == "密码条目不存在"@),
            self.key() matches Some(k) ==> (cipher matches Some(c) ==> dec_reports(
                k,
                c@,
                crate::formats::entry_aad(entry_id@),
                r,
            )),
    {
        self.require_unlocked()?;
        match cipher {
            Some(c) => self.open_entry(entry_id, c.as_slice()),
            None => Err(String::from_str("密码条目不存在")),
        }
    }

    /// An entry comes back from the trash: only while unlocked, it must be
    /// in the trash and no entry of the vault may have its id. It is then
    /// numbered after all entries and stamped `now` (see `spec_restored`),
    /// the entries are ordered by `seq` with it, and its rows leave the
    /// trash. The entries and the trash change together or not at all: on
    /// a refusal both are handed back as they were. The result is the
    /// entries (the restored one last, to be listed with `sort_by_seq`),
    /// the trash, and whether the entry came back.
    pub fn restore_trash(
        &self,
        entries: Vec<crate::model::Entry>,
        trash: Vec<SealedRow>,
        restored: crate::model::Entry,
        now: i64,
    ) -> (r: (Vec<crate::model::Entry>, Vec<SealedRow>, Result<(), String>))
        ensures
            self.key() is None ==> (r.2 matches Err(e) && e@ == "Vault locked"@),
            self.key() is Some && !in_trash(trash@, restored.id@) ==> (r.2 matches Err(e) && e@
                == "回收站中不存在该条目"@),
            self.key() is Some && in_trash(trash@, restored.id@) && crate::model::has_id(entries@, restored.id@)
                ==> (r.2 matches Err(e) && e@ == "当前 Vault 已存在同一条目"@),
            self.key() is Some && in_trash(trash@, restored.id@) && !crate::model::has_id(entries@, restored.id@)
                && crate::model::max_seq(entries@) == i64::MAX ==> (r.2 matches Err(e) && e@
                == "entry position overflow"@),
            r.2 is Ok <==> (self.key() is Some && in_trash(trash@, restored.id@) && !crate::model::has_id(
                entries@,
                restored.id@,
            ) && crate::model::max_seq(entries@) < i64::MAX),
            r.2 is Err ==> r.0@ == entries@ && r.1@ == trash@,
            r.2 is Ok ==> r.0@ == entries@.push(crate::model::spec_restored(entries@, restored, now))
                && r.1@ == trash_without(trash@, restored.id@),
    {
        if self.dek.is_none() {
            return (entries, trash, Err(String::from_str("Vault locked")));
        }
        if find_trash_row(&trash, restored.id.as_str()).is_none() {
            return (entries, trash, Err(String::from_str("回收站中不存在该条目")));
        }
        if crate::model::contains_id(&entries, &restored.id) {
            return (entries, trash, Err(String::from_str("当前 Vault 已存在同一条目")));
        }
        if crate::model::highest_seq(&entries) == i64::MAX {
            return (entries, trash, Err(String::from_str("entry position overflow")));
        }
        let e = crate::model::restored_entry(&entries, restored, now);
        let kept = drop_trash_rows(trash, e.id.as_str());
        let mut list = entries;
        list.push(e);
        (list, kept, Ok(()))
    }
}

} // verus!
