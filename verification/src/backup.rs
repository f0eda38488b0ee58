//! Settings and decisions of the automatic versioned backups.
use crate::order::{is_stable_sort_of, stable_sort, Order};
use crate::categories::names_view;
use crate::text::{eq_ignore_ascii_case, eq_ignore_ascii_case_chars, has_prefix_chars, starts_with, trim, trim_chars};
use crate::vault::VaultManager;
use vstd::prelude::*;
use vstd::string::*;

verus! {

pub const BACKUP_MAX_RETENTION: usize = 50;

pub const BACKUP_DEFAULT_RETENTION: usize = 10;

/// The automatic backup settings and the record of the last backup.
#[derive(Clone, Debug)]
pub struct BackupSettings {
    pub enabled: bool,
    pub directory: Option<String>,
    pub retention: usize,
    pub last_backup_at: Option<i64>,
    pub last_error: Option<String>,
    pub last_backup_fingerprint: Option<String>,
}

impl Default for BackupSettings {
    /// Off, no folder, ten versions kept, nothing recorded.
    fn default() -> (r: Self)
        ensures
            !r.enabled,
            r.directory is None,
            r.retention == BACKUP_DEFAULT_RETENTION,
            r.last_backup_at is None,
            r.last_error is None,
            r.last_backup_fingerprint is None,
    {
        BackupSettings {
            enabled: false,
            directory: None,
            retention: BACKUP_DEFAULT_RETENTION,
            last_backup_at: None,
            last_error: None,
            last_backup_fingerprint: None,
        }
    }
}

/// The number of versions kept: between 1 and 50.
pub open spec fn clamp_retention(n: usize) -> usize {
    if n < 1 {
        1
    } else if n > BACKUP_MAX_RETENTION {
        BACKUP_MAX_RETENTION
    } else {
        n
    }
}

pub fn retention_keep(n: usize) -> (r: usize)
    ensures
        r == clamp_retention(n),
        1 <= r <= BACKUP_MAX_RETENTION,
{
    if n < 1 {
        1
    } else if n > BACKUP_MAX_RETENTION {
        BACKUP_MAX_RETENTION
    } else {
        n
    }
}

/// A backup folder as typed: trimmed, and `None` when blank.
pub open spec fn normalized_directory(d: Option<String>) -> Option<Seq<char>> {
    match d {
        Some(s) => if trim_chars(s@).len() > 0 {
            Some(trim_chars(s@))
        } else {
            None
        },
        None => None,
    }
}

pub open spec fn opt_view(d: Option<String>) -> Option<Seq<char>> {
    match d {
        Some(s) => Some(s@),
        None => None,
    }
}

impl VaultManager {
    /// The settings that are read at start: what was stored, or the defaults.
    pub fn backup_settings(stored: Option<BackupSettings>) -> (r: BackupSettings)
        ensures
            stored matches Some(s) ==> r == s,
            stored is None ==> (r == (BackupSettings {
                enabled: false,
                directory: None,
                retention: BACKUP_DEFAULT_RETENTION,
                last_backup_at: None,
                last_error: None,
                last_backup_fingerprint: None,
            })),
    {
        match stored {
            Some(s) => s,
            None => BackupSettings::default(),
        }
    }

    /// A backup asked for now, once the backup work is done: `made` is the
    /// time and fingerprint of the backup that was written, if one was;
    /// `error` is what went wrong, if anything. The backup is recorded, then
    /// the error; whether automatic backups are on, the folder and the
    /// retention stay as they were. The pair is what to store and what to
    /// answer.
    pub fn backup_now(settings: BackupSettings, made: Option<(i64, String)>, error: Option<String>) -> (r: (
        BackupSettings,
        Result<BackupSettings, String>,
    ))
        ensures
            r.0.enabled == settings.enabled,
            r.0.directory == settings.directory,
            r.0.retention == settings.retention,
            made matches Some((t, f)) ==> r.0.last_backup_at == Some(t) && r.0.last_backup_fingerprint == Some(f),
            made is None ==> r.0.last_backup_at == settings.last_backup_at && r.0.last_backup_fingerprint
                == settings.last_backup_fingerprint,
            error matches Some(e) ==> r.0.last_error == Some(e) && r.1 == Err::<BackupSettings, String>(e),
            error is None ==> r.0.last_error == (if made is Some {
                None
            } else {
                settings.last_error
            }) && r.1 == Ok::<BackupSettings, String>(r.0),
    {
        let mut s = settings;
        if let Some((t, f)) = made {
            record_backup_success(&mut s, t, f);
        }
        match error {
            Some(e) => {
                let e2 = e.clone();
                record_backup_error(&mut s, e2);
                (s, Err(e))
            },
            None => {
                let copy = copy_settings(&s);
                (s, Ok(copy))
            },
        }
    }
}

fn copy_opt_string(o: &Option<String>) -> (r: Option<String>)
    ensures
        r == *o,
{
    match o {
        Some(s) => Some(s.clone()),
        None => None,
    }
}

/// A copy of the settings.
pub fn copy_settings(s: &BackupSettings) -> (r: BackupSettings)
    ensures
        r == *s,
{
    BackupSettings {
        enabled: s.enabled,
        directory: copy_opt_string(&s.directory),
        retention: s.retention,
        last_backup_at: s.last_backup_at,
        last_error: copy_opt_string(&s.last_error),
        last_backup_fingerprint: copy_opt_string(&s.last_backup_fingerprint),
    }
}

/// A backup folder as typed must not be blank; the result is trimmed.
pub fn backup_directory_text(directory: &str) -> (r: Result<String, String>)
    ensures
        trim_chars(directory@).len() > 0 <==> r is Ok,
        r matches Ok(d) ==> d@ == trim_chars(directory@),
        r matches Err(e) ==> e@ == "备份目录不能为空"@,
{
    let t = trim(directory);
    if t.as_str().unicode_len() == 0 {
        Err(String::from_str("备份目录不能为空"))
    } else {
        Ok(t)
    }
}

impl VaultManager {
    /// New backup settings as requested: only while unlocked; the folder
    /// trimmed (blank means none); between 1 and 50 versions. Turning
    /// backups on needs a folder that exists and lies outside the vault's
    /// folder (`dir_is_folder` and `dir_inside_vault` are those facts of the
    /// trimmed folder). The time of the last backup is kept from the stored
    /// settings, and its fingerprint while backups stay on in the same folder.
    pub fn set_backup_settings(
        &self,
        enabled: bool,
        directory: Option<String>,
        retention: usize,
        stored: &BackupSettings,
        dir_is_folder: bool,
        dir_inside_vault: bool,
    ) -> (r: Result<BackupSettings, String>)
        ensures
            self.key() is None ==> (r matches Err(e) && e@ == "Vault locked"@),
            self.key() is Some && enabled && normalized_directory(directory) is None ==> (r matches Err(e)
                && e@ == "启用自动备份前请选择备份目录"@),
            self.key() is Some && enabled && normalized_directory(directory) is Some && !dir_is_folder ==> (
            r matches Err(e) && e@ == "备份目录不存在或不是文件夹"@),
            self.key() is Some && enabled && normalized_directory(directory) is Some && dir_is_folder
                && dir_inside_vault ==> (r matches Err(e) && e@
                == "备份目录不能位于 LocalVault 数据目录内部；否则无法抵御同目录文件被一起删除或加密"@),
            r is Ok <==> (self.key() is Some && (enabled ==> normalized_directory(directory) is Some
                && dir_is_folder && !dir_inside_vault)),
            r matches Ok(s) ==> s.enabled == enabled && opt_view(s.directory) == normalized_directory(
                directory,
            ) && s.retention == clamp_retention(retention) && s.last_error is None && s.last_backup_at
                == stored.last_backup_at && s.last_backup_fingerprint == (if stored.enabled && opt_view(
                stored.directory,
            ) == normalized_directory(directory) {
                stored.last_backup_fingerprint
            } else {
                None
            }),
    {
        self.require_unlocked()?;
        let dir = requested_directory(directory);
        if enabled {
            if dir.is_none() {
                return Err(String::from_str("启用自动备份前请选择备份目录"));
            }
            backup_directory_check(dir_is_folder, dir_inside_vault)?;
        }
        let fresh = BackupSettings {
            enabled,
            directory: dir,
            retention: retention_keep(retention),
            last_backup_at: None,
            last_error: None,
            last_backup_fingerprint: None,
        };
        Ok(carry_backup_state(fresh, stored))
    }
}

/// A backup folder as typed: trimmed, `None` when blank.
pub fn requested_directory(directory: Option<String>) -> (r: Option<String>)
    ensures
        opt_view(r) == normalized_directory(directory),
{
    match directory {
        Some(d) => {
            let t = trim(d.as_str());
            if t.as_str().unicode_len() == 0 {
                None
            } else {
                Some(t)
            }
        },
        None => None,
    }
}

/// A backup folder must be an existing folder outside the vault's own
/// folder.
pub fn backup_directory_check(is_dir: bool, inside_vault_folder: bool) -> (r: Result<(), String>)
    ensures
        !is_dir ==> (r matches Err(e) && e@ == "备份目录不存在或不是文件夹"@),
        is_dir && inside_vault_folder ==> (r matches Err(e) && e@
            == "备份目录不能位于 LocalVault 数据目录内部；否则无法抵御同目录文件被一起删除或加密"@),
        is_dir && !inside_vault_folder ==> r is Ok,
{
    if !is_dir {
        return Err(String::from_str("备份目录不存在或不是文件夹"));
    }
    if inside_vault_folder {
        return Err(
            String::from_str("备份目录不能位于 LocalVault 数据目录内部；否则无法抵御同目录文件被一起删除或加密"),
        );
    }
    Ok(())
}

/// A full backup file must be written outside the vault's folder, into a
/// folder that exists. `parent_is_dir` is `None` when the destination has
/// no parent folder.
pub fn backup_destination_check(inside_vault_folder: bool, parent_is_dir: Option<bool>) -> (r: Result<
    (),
    String,
>)
    ensures
        inside_vault_folder ==> (r matches Err(e) && e@ == "备份文件不能保存到 LocalVault 数据目录内部"@),
        !inside_vault_folder && parent_is_dir is None ==> (r matches Err(e) && e@ == "备份目标无效"@),
        !inside_vault_folder && parent_is_dir == Some(false) ==> (r matches Err(e) && e@
            == "备份目标文件夹不存在"@),
        !inside_vault_folder && parent_is_dir == Some(true) ==> r is Ok,
{
    if inside_vault_folder {
        return Err(String::from_str("备份文件不能保存到 LocalVault 数据目录内部"));
    }
    match parent_is_dir {
        None => Err(String::from_str("备份目标无效")),
        Some(false) => Err(String::from_str("备份目标文件夹不存在")),
        Some(true) => Ok(()),
    }
}

/// `target` is `base` or lies below it, comparing path components; with
/// `fold_case` the components compare ignoring ASCII case, as paths do on
/// Windows.
pub open spec fn within_components(base: Seq<Seq<char>>, target: Seq<Seq<char>>, fold_case: bool) -> bool {
    &&& base.len() <= target.len()
    &&& forall|i: int|
        0 <= i < base.len() ==> if fold_case {
            eq_ignore_ascii_case_chars(#[trigger] base[i], target[i])
        } else {
            base[i] == target[i]
        }
}

/// Whether the path with components `target` is the vault's folder (with
/// components `base`) or inside it (see `within_components`).
pub fn path_is_inside(base: &Vec<String>, target: &Vec<String>, fold_case: bool) -> (r: bool)
    ensures
        r == within_components(names_view(base@), names_view(target@), fold_case),
{
    if base.len() > target.len() {
        return false;
    }
    let mut i: usize = 0;
    while i < base.len()
        invariant
            i <= base@.len(),
            base@.len() <= target@.len(),
            forall|k: int|
                0 <= k < i ==> if fold_case {
                    eq_ignore_ascii_case_chars(#[trigger] names_view(base@)[k], names_view(target@)[k])
                } else {
                    names_view(base@)[k] == names_view(target@)[k]
                },
        decreases base@.len() - i,
    {
        let same = if fold_case {
            eq_ignore_ascii_case(base[i].as_str(), target[i].as_str())
        } else {
            base[i] == target[i]
        };
        proof {
            assert(names_view(base@)[i as int] == base@[i as int]@);
            assert(names_view(target@)[i as int] == target@[i as int]@);
        }
        if !same {
            return false;
        }
        i = i + 1;
    }
    true
}

/// Keeps what was recorded of earlier backups when settings change: the
/// time of the last backup, and its fingerprint while backups stay on in
/// the same folder.
pub fn carry_backup_state(new: BackupSettings, old: &BackupSettings) -> (r: BackupSettings)
    ensures
        r.enabled == new.enabled,
        r.directory == new.directory,
        r.retention == new.retention,
        r.last_error == new.last_error,
        r.last_backup_at == old.last_backup_at,
        old.enabled && opt_view(old.directory) == opt_view(new.directory) ==> r.last_backup_fingerprint
            == old.last_backup_fingerprint,
        !(old.enabled && opt_view(old.directory) == opt_view(new.directory))
            ==> r.last_backup_fingerprint == new.last_backup_fingerprint,
{
    let mut s = new;
    s.last_backup_at = old.last_backup_at;
    let same_dir = match (&old.directory, &s.directory) {
        (Some(a), Some(b)) => *a == *b,
        (None, None) => true,
        _ => false,
    };
    if old.enabled && same_dir {
        s.last_backup_fingerprint = copy_opt_string(&old.last_backup_fingerprint);
    }
    s
}

/// Whether a versioned backup is due, and where: `Ok(None)` when backups
/// are off and none was asked for, the folder otherwise, an error when
/// there is no folder.
pub fn backup_target(settings: &BackupSettings, force: bool) -> (r: Result<Option<String>, String>)
    ensures
        !settings.enabled && !force ==> r matches Ok(None),
        (settings.enabled || force) && settings.directory is None ==> (r matches Err(e) && e@
            == "尚未设置自动备份目录"@),
        settings.enabled || force ==> (settings.directory matches Some(d) ==> (r matches Ok(Some(t))
            && t@ == d@)),
{
    if !settings.enabled && !force {
        return Ok(None);
    }
    match &settings.directory {
        Some(d) => Ok(Some(d.clone())),
        None => Err(String::from_str("尚未设置自动备份目录")),
    }
}

/// An automatic backup is skipped when nothing changed since the last one
/// (same fingerprint); one that was asked for is always made.
pub fn backup_unchanged(settings: &BackupSettings, fingerprint: &String, force: bool) -> (r: bool)
    ensures
        r == (!force && (settings.last_backup_fingerprint matches Some(f) && f@ == fingerprint@)),
{
    if force {
        return false;
    }
    match &settings.last_backup_fingerprint {
        Some(f) => *f == *fingerprint,
        None => false,
    }
}

/// Records a backup made at `stamp` of contents with this fingerprint.
pub fn record_backup_success(settings: &mut BackupSettings, stamp: i64, fingerprint: String)
    ensures
        final(settings).last_backup_at == Some(stamp),
        final(settings).last_error is None,
        final(settings).last_backup_fingerprint == Some(fingerprint),
        final(settings).enabled == old(settings).enabled,
        final(settings).directory == old(settings).directory,
        final(settings).retention == old(settings).retention,
{
    settings.last_backup_at = Some(stamp);
    settings.last_error = None;
    settings.last_backup_fingerprint = Some(fingerprint);
}

/// Records why a backup failed; nothing else changes.
pub fn record_backup_error(settings: &mut BackupSettings, error: String)
    ensures
        final(settings).last_error == Some(error),
        final(settings).last_backup_at == old(settings).last_backup_at,
        final(settings).last_backup_fingerprint == old(settings).last_backup_fingerprint,
        final(settings).enabled == old(settings).enabled,
        final(settings).directory == old(settings).directory,
        final(settings).retention == old(settings).retention,
{
    settings.last_error = Some(error);
}

/// A file in the backup folder: its name, its extension as the path gives
/// it, and when it was last modified (nanoseconds from the Unix epoch, if
/// known).
#[derive(Clone, Debug)]
pub struct BackupFile {
    pub name: String,
    pub extension: Option<String>,
    pub modified: Option<i128>,
}

/// Versioned backups are `.vault` files named `LocalVault-…`.
pub open spec fn is_versioned_backup(f: BackupFile) -> bool {
    &&& f.extension matches Some(e) && e@ == "vault"@
    &&& has_prefix_chars(f.name@, "LocalVault-"@)
}

pub fn is_versioned_backup_file(f: &BackupFile) -> (r: bool)
    ensures
        r == is_versioned_backup(*f),
{
    let ext_ok = match &f.extension {
        Some(e) => crate::vault::str_eq(e.as_str(), "vault"),
        None => false,
    };
    ext_ok && starts_with(f.name.as_str(), "LocalVault-")
}

/// Oldest first; a file without a time counts as oldest.
pub struct ModifiedOrder;

pub open spec fn modified_le(a: Option<i128>, b: Option<i128>) -> bool {
    match (a, b) {
        (None, _) => true,
        (Some(_), None) => false,
        (Some(x), Some(y)) => x <= y,
    }
}

impl Order<BackupFile> for ModifiedOrder {
    open spec fn le(&self, a: BackupFile, b: BackupFile) -> bool {
        modified_le(a.modified, b.modified)
    }

    fn le_exec(&self, a: &BackupFile, b: &BackupFile) -> (r: bool) {
        match (a.modified, b.modified) {
            (None, _) => true,
            (Some(_), None) => false,
            (Some(x), Some(y)) => x <= y,
        }
    }

    proof fn le_total(&self, a: BackupFile, b: BackupFile) {
    }

    proof fn le_trans(&self, a: BackupFile, b: BackupFile, c: BackupFile) {
    }
}

pub open spec fn versioned(s: Seq<BackupFile>) -> Seq<BackupFile> {
    s.filter(|f: BackupFile| is_versioned_backup(f))
}

/// The versioned backups to delete so that at most `keep` stay: the
/// oldest ones, by modification time (files of equal time in listing
/// order).
pub fn backups_to_prune(files: Vec<BackupFile>, keep: usize) -> (r: Vec<BackupFile>)
    ensures
        exists|sorted: Seq<BackupFile>|
            {
                &&& is_stable_sort_of(&ModifiedOrder, sorted, versioned(files@))
                &&& r@ == if sorted.len() > keep {
                    sorted.subrange(0, sorted.len() - keep)
                } else {
                    Seq::<BackupFile>::empty()
                }
            },
{
    let mut rest = files;
    let ghost all = rest@;
    let mut i: usize = 0;
    let n = rest.len();
    let mut taken: Vec<BackupFile> = Vec::new();
    while rest.len() > 0
        invariant
            n == all.len(),
            rest@.len() + i == n,
            rest@ == all.subrange(i as int, n as int),
            taken@ == versioned(all.subrange(0, i as int)),
        decreases rest.len(),
    {
        let f = rest.remove(0);
        proof {
            assert(all.subrange(0, i + 1).drop_last() =~= all.subrange(0, i as int));
            assert(all.subrange(0, i + 1).last() == f);
            reveal(Seq::filter);
        }
        if is_versioned_backup_file(&f) {
            taken.push(f);
        }
        i = i + 1;
        proof {
            assert(rest@ =~= all.subrange(i as int, n as int));
        }
    }
    proof {
        assert(all.subrange(0, n as int) =~= all);
    }
    let sorted = stable_sort(taken, &ModifiedOrder);
    let ghost sw = sorted@;
    assert(is_stable_sort_of(&ModifiedOrder, sw, versioned(files@)));
    if sorted.len() > keep {
        let cut = sorted.len() - keep;
        let mut out: Vec<BackupFile> = Vec::new();
        let mut s = sorted;
        let ghost sv = s@;
        let mut j: usize = 0;
        while j < cut
            invariant
                j <= cut,
                cut <= sv.len(),
                s@ == sv.subrange(j as int, sv.len() as int),
                out@ == sv.subrange(0, j as int),
            decreases cut - j,
        {
            let f = s.remove(0);
            out.push(f);
            j = j + 1;
            proof {
                assert(s@ =~= sv.subrange(j as int, sv.len() as int));
                assert(out@ =~= sv.subrange(0, j as int));
            }
        }
        assert(out@ == sw.subrange(0, sw.len() - keep));
        out
    } else {
        let none: Vec<BackupFile> = Vec::new();
        assert(none@ =~= Seq::<BackupFile>::empty());
        none
    }
}

} // verus!
