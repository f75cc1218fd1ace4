//! Pure path-string semantics: decomposition, normalisation, joining,
//! resolution and comparison of filesystem path strings, in two dialects
//! (POSIX-style `/` paths, and drive-letter/UNC-aware `\` paths).
//!
//! Nothing here touches the filesystem: every operation is a total,
//! deterministic function over strings. The one point of contact with the
//! outside world, the process working directory, is passed in explicitly
//! by the caller where resolution needs a base.

mod laws;
mod model;
mod scan;
mod shared;

pub mod posix;
pub mod utils;
pub mod win32;

pub use laws::canonical_posix;
pub use laws::lemma_dir_starts_with_root;
pub use laws::lemma_name_ext_base;
pub use laws::lemma_normalize_idempotent;
pub use laws::lemma_parse_format_round_trip;
pub use laws::lemma_relative_resolves_back;
pub use laws::lemma_resolve_absolute;
pub use shared::Parsed;
