# localvault

The core of LocalVault, a local-first password manager, written in Verus:
every rule of the vault is an executable function with a contract that
Verus proves.

- A master password is stretched with Argon2id (128 MiB, 3 passes, 2 lanes)
  into a key-encryption key, which wraps a random 32-byte data key with
  XChaCha20-Poly1305; the data key seals every entry and history record,
  bound to the record's id by the associated data. Both primitives come from
  the `argon2` and `chacha20poly1305` crates, behind small trusted wrappers
  whose contracts name their results (`src/crypto.rs`).
- `src/vault.rs` holds the key state (`VaultManager`): unlock, lock, the
  master password check, recovery with a code and three answers, password
  and question changes, export and import between computers.
- `src/formats.rs` lays out and parses the export file, stored metadata,
  recovery codes, backup file names and the change fingerprint.
- `src/model.rs`, `src/categories.rs` and `src/backup.rs` hold the rules on
  entries (ordering, history, trash, merging), on the category forest, and
  on automatic versioned backups.
- `src/importer.rs` decodes bulk-import CSV files (UTF-8, UTF-16, GB18030).

`app/` is ordinary Rust around the library: the SQLite vault file, the
backup folder, the settings file and the Windows file attributes.
