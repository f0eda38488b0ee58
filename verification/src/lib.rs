//! LocalVault core: the key hierarchy, the byte formats and the record
//! rules of a local-first password vault, stated and proved with Verus.
//!
//! The modules:
//! - `crypto`: Argon2id key derivation and XChaCha20-Poly1305 sealing;
//! - `vault`: the data key, how it is wrapped, opened, checked and dropped;
//! - `formats`: the export file, stored metadata, associated data, recovery
//!   codes, backup file names, the change fingerprint, file attributes;
//! - `model`: entries and the rules on lists of them;
//! - `categories`: the category table and its operations;
//! - `backup`: automatic backup settings and decisions;
//! - `importer`: bulk import checks and text decoding;
//! - `password`: the master password rules;
//! - `order`, `text`: stable sorting and string helpers.
pub mod backup;
pub mod categories;
pub mod crypto;
pub mod formats;
pub mod importer;
pub mod model;
pub mod order;
pub mod password;
pub mod text;
pub mod vault;

pub use backup::{BackupFile, BackupSettings};
pub use categories::CategoryRow;
pub use model::{BackupData, BootstrapStatus, Category, Entry, HistoryRecord};
pub use vault::{DataKey, VaultManager};
