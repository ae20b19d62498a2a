//! Snapshots of file systems that can be stored, compared and browsed.
pub mod backup;
pub mod build_laws;
pub mod build_option_laws;
pub mod cancellation;
pub mod cleanup;
pub mod diff;
pub mod diff_laws;
pub mod dyn_int;
pub mod edirstat_snapshot;
pub mod file_type;
pub mod fs_build;
pub mod fs_builder;
pub mod fs_cursor;
pub mod fs_export;
pub mod fs_index;
pub mod fs_lookup;
pub mod fs_places;
pub mod fs_qdirstat;
pub mod fs_tree;
pub mod gzip;
pub mod laws;
pub mod logging;
pub mod memfs_laws;
pub mod metadata;
pub mod metadata_bytes;
pub mod mft;
pub mod mft_laws;
pub mod mft_tree;
pub mod mft_volume;
pub mod mount;
pub mod mount_laws;
pub mod output;
pub mod qdirstat_laws;
pub mod qdirstat_open;
pub mod restore_laws;
pub mod rsyncable;
pub mod sorting;
pub mod text;
pub mod text_format;
pub mod text_lines;
pub mod timestamp;
pub mod winfsp_memfs;
pub mod wiztree;
pub mod wiztree_csv;
