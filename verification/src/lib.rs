//! The verified core of a per-user sandboxed file-storage service.
//!
//! Three subsystems carry the interesting invariants: credential
//! verification against a flat hash store, session issuance and lookup
//! under opaque 64-bit identifiers, and a per-user file vault whose every
//! operation re-validates path confinement before anything is touched. A
//! fixed-window rate limiter guards the login surface. The byte-level path
//! model in `paths` underpins the vault's sandboxing guarantees.

mod credentials;
mod paths;
mod rate_limiter;
mod session;
mod vault;

pub use credentials::{is_valid_credentials, load_users_from_csv, User};
pub use paths::{check_rel_path, lemma_absolute_never_valid, lemma_dotdot_never_valid};
pub use rate_limiter::{RateEntry, RateLimiter};
pub use session::{
    authenticate, generate_session_id, get_session_id_from_cookie_value, AuthenticatedSession,
    SessionStore,
};
pub use vault::{
    lemma_trash_delete_idempotent, lemma_write_round_trip, sanitize_path, user_root,
    DeleteOutcome, FileName, FileVault, MoveOutcome, VaultFile, VaultStatus,
};
