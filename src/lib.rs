//! State management for mod profiles: installed versions, ignored updates,
//! version changes driven by an external installer, and a persisted document.

mod codec;
mod error;
mod manager;
mod profile;
mod update;

pub use manager::ModManager;
pub use profile::{ignore_result, ignore_twice_same_as_once, installed_map, unique_packages, ModEntry, ModId, Profile};
pub use error::{CmdError, InstallFailure};
pub use update::{change_mod_version, ignore_update, skipped, update_mods, BatchUpdate};
pub use codec::{
    bytes_words, decode_state, doc_bytes, doc_words, encode_state, entry_words, manager_view, parse_bytes,
    parse_doc, parse_profile, parse_profiles, prepend, profile_view, profile_words, profiles_words,
    save_then_load, saved_manager_reloads, word_bytes, ManagerView, ProfileView,
};
