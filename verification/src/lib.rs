//! Verified core of the elio file manager's duplicate finder, its invoking-user
//! helper protocol and its elevation rules.

pub mod batches;
pub mod browsing_laws;
pub mod check;
pub mod check_laws;
pub mod choice_laws;
pub mod count_laws;
pub mod digest;
pub mod digest_classes;
pub mod duplicate_pool;
pub mod duplicates;
pub mod environment;
pub mod file_reading;
pub mod finder;
pub mod finder_actions;
pub mod finder_input;
pub mod finder_laws;
pub mod finder_model;
pub mod hash_cache;
pub mod helper_credentials;
pub mod helper_laws;
pub mod identity_laws;
pub mod ids;
pub mod invoking_user;
pub mod invoking_user_command;
pub mod invoking_user_fs;
pub mod list_laws;
pub mod listing_laws;
pub mod loading;
pub mod natural;
pub mod order;
pub mod order_laws;
pub mod ownership;
pub mod path;
pub mod path_laws;
pub mod path_set;
pub mod place_laws;
pub mod platform;
pub mod positions;
pub mod protocol_laws;
pub mod rename_laws;
pub mod restore;
pub mod restore_laws;
pub mod result_laws;
pub mod scan;
pub mod scan_laws;
pub mod scan_progress;
pub mod search_laws;
pub mod size_groups;
pub mod text;
pub mod text_laws;
pub mod tree_laws;
pub mod user_fs_helper;
pub mod user_groups;
pub mod utf16;
pub mod visit_laws;
pub mod walk;
pub mod walk_laws;
pub mod wire;
pub mod worker;
