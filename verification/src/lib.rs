//! Finds duplicate ROM files: catalog records that share a canonical game
//! name but point at different files. The pipeline groups catalog records by
//! name, keeps the groups with at least two filenames present on disk, and
//! plans which files to move into a quarantine directory once the operator
//! has chosen the copy to keep.
//!
//! File reads, directory scans and the interactive prompt live outside this
//! crate; the functions here work on plain values (paths and names as
//! strings, existence as booleans) and state exactly what they compute.
mod catalog;
mod choice;
mod groups;
mod moves;
mod paths;
mod resolve;

pub use catalog::CatalogRecord;
pub use catalog::DedupeError;
pub use choice::choice_spec;
pub use choice::parse_choice;
pub use choice::trimmed;
pub use choice::valid_choice_str;
pub use groups::GroupView;
pub use groups::NameGroup;
pub use groups::RecordView;
pub use groups::all_paths_ok;
pub use groups::distinct_names;
pub use groups::filenames_for;
pub use groups::group;
pub use groups::group_views;
pub use groups::groups_of;
pub use groups::insert_filename;
pub use groups::lemma_group_deterministic;
pub use groups::lemma_groups_characterize;
pub use groups::record_views;
pub use groups::str_views;
pub use moves::MovePlan;
pub use moves::lemma_choice_out_of_range;
pub use moves::lemma_choice_partition;
pub use moves::lemma_default_keep;
pub use moves::move_dests;
pub use moves::move_sources;
pub use moves::move_views;
pub use moves::moves_for_choice;
pub use moves::moves_spec;
pub use paths::after_last_slash;
pub use paths::filename_of;
pub use paths::filename_spec;
pub use paths::has_filename;
pub use paths::join_path;
pub use paths::join_spec;
pub use paths::lemma_filename_of_join;
pub use paths::lemma_filename_well_formed;
pub use paths::stripped;
pub use resolve::ResolvedDuplicateSet;
pub use resolve::candidate_paths;
pub use resolve::joined_views;
pub use resolve::kept;
pub use resolve::lemma_kept_join_commutes;
pub use resolve::resolve_existing;
