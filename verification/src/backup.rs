//! Scanning file systems.
use vstd::prelude::*;

use crate::build_laws::{
    has_totals, is_sorted, law_built_indexes_have_totals, law_resorting_keeps_records,
};
use crate::fs_build::{built_tree, FsIndexBuildOptions};
use crate::fs_builder::record_views;
use crate::fs_index::FsIndex;
use crate::fs_tree::FsNode;
use crate::logging::CommonOpt;
use crate::metadata::FsEntryMetadata;
use crate::output::OutputOpts;
use crate::text::{ends_with_separator, text_ends_with_separator};
use crate::text_lines::ascii_lower;
use crate::timestamp::Timestamp;
use crate::wiztree_csv::{RecordView, WizTreeCsvRecord};

verus! {

/// How a file system is scanned.
#[derive(Debug, Clone, Copy, PartialEq, Eq, Structural)]
pub enum ScanMethod {
    /// Read the master file table.
    Mft,
    /// Visit all folders.
    Walk,
    /// Visit all folders because the rights to do better are missing.
    WalkWithoutRights,
}

/// How a file system is scanned, `None` if that is not allowed: the slower way
/// because of missing rights has to be allowed, unless it is preferred anyway.
pub open spec fn scan_method_for(
    has_rights: bool,
    allow_slow: bool,
    prefer_slow: bool,
) -> Option<ScanMethod> {
    if has_rights {
        if prefer_slow {
            Some(ScanMethod::Walk)
        } else {
            Some(ScanMethod::Mft)
        }
    } else if prefer_slow {
        Some(ScanMethod::Walk)
    } else if allow_slow {
        Some(ScanMethod::WalkWithoutRights)
    } else {
        None
    }
}

/// Decides how a file system is scanned.
pub fn choose_scan_method(has_rights: bool, allow_slow: bool, prefer_slow: bool) -> (method: Option<
    ScanMethod,
>)
    ensures
        method == scan_method_for(has_rights, allow_slow, prefer_slow),
{
    if !has_rights && !prefer_slow {
        return if allow_slow {
            Some(ScanMethod::WalkWithoutRights)
        } else {
            None
        };
    }
    if has_rights && !prefer_slow {
        Some(ScanMethod::Mft)
    } else {
        Some(ScanMethod::Walk)
    }
}

/// Options for scanning a file system.
#[derive(Debug)]
pub struct BackupOpts {
    pub common: CommonOpt,
    pub output: OutputOpts,
    /// The root path to store instead of the scanned one.
    pub custom_root: Option<String>,
    /// Scan in the slower way if the rights to do better are missing.
    pub allow_non_admin_scan: bool,
    /// Scan in the slower way in any case.
    pub prefer_non_admin_scan: bool,
    /// Run with normal instead of low priority.
    pub normal_priority: bool,
}

impl BackupOpts {
    /// How to scan, `None` if that is not allowed.
    pub fn scan_method(&self, has_rights: bool) -> (method: Option<ScanMethod>)
        ensures
            method == scan_method_for(
                has_rights,
                self.allow_non_admin_scan,
                self.prefer_non_admin_scan,
            ),
    {
        choose_scan_method(has_rights, self.allow_non_admin_scan, self.prefer_non_admin_scan)
    }
}

/// Options for scanning a file system with eDirStat.
#[derive(Debug)]
pub struct EDirStatBackupOpts {
    pub common: CommonOpt,
    pub output: OutputOpts,
    pub custom_root: Option<String>,
    /// Do not leave the file system that the scan starts in.
    pub same_filesystem: bool,
    pub allow_non_admin_scan: bool,
    pub prefer_non_admin_scan: bool,
    pub normal_priority: bool,
}

/// Why a path cannot be scanned.
#[derive(Debug, Clone, Copy, PartialEq, Eq, Structural)]
pub enum ScanPathError {
    DoesNotExist,
    NotADirectory,
    /// Rights are missing and the slower way is not allowed.
    MissingRights,
}

/// The name of the file with the master file table, in any case.
pub open spec fn is_mft_name(name: Seq<char>) -> bool {
    &&& name.len() == 4
    &&& name[0] == '$'
    &&& name[1] == 'm' || name[1] == 'M'
    &&& name[2] == 'f' || name[2] == 'F'
    &&& name[3] == 't' || name[3] == 'T'
}

/// Whether a file name is the one of the master file table.
pub fn name_is_mft(name: &str) -> (result: bool)
    ensures
        result == is_mft_name(name@),
{
    let chars = crate::text::chars_of(name);
    chars.len() == 4 && chars[0] == '$' && (chars[1] == 'm' || chars[1] == 'M') && (chars[2] == 'f'
        || chars[2] == 'F') && (chars[3] == 't' || chars[3] == 'T')
}

impl EDirStatBackupOpts {
    pub open spec fn checked(
        self,
        exists: bool,
        is_dir: bool,
        is_mft: bool,
        can_scan_mft: bool,
    ) -> Result<ScanMethod, ScanPathError> {
        if !exists {
            Err(ScanPathError::DoesNotExist)
        } else if !is_dir && !is_mft {
            Err(ScanPathError::NotADirectory)
        } else {
            match scan_method_for(
                can_scan_mft,
                self.allow_non_admin_scan,
                self.prefer_non_admin_scan,
            ) {
                Some(method) => Ok(method),
                None => Err(ScanPathError::MissingRights),
            }
        }
    }

    /// Decides whether and how a path is scanned: only folders and files with a
    /// master file table can be.
    pub fn check_path(
        &self,
        exists: bool,
        is_dir: bool,
        file_name: Option<&str>,
        can_scan_mft: bool,
    ) -> (result: Result<ScanMethod, ScanPathError>)
        ensures
            result == self.checked(
                exists,
                is_dir,
                file_name is Some && is_mft_name(file_name->0@),
                can_scan_mft,
            ),
    {
        if !exists {
            return Err(ScanPathError::DoesNotExist);
        }
        let is_mft: bool = match file_name {
            Some(name) => name_is_mft(name),
            None => false,
        };
        if !is_mft && !is_dir {
            return Err(ScanPathError::NotADirectory);
        }
        match choose_scan_method(
            can_scan_mft,
            self.allow_non_admin_scan,
            self.prefer_non_admin_scan,
        ) {
            Some(method) => Ok(method),
            None => Err(ScanPathError::MissingRights),
        }
    }
}

/// Whether the master file table of a path can be read: the path is on an NTFS
/// volume, and either that volume or the file with the table can be opened.
pub fn can_scan_using_mft(
    is_ntfs: bool,
    can_open_volume: Option<bool>,
    can_open_mft_file: Option<bool>,
) -> (result: bool)
    ensures
        result == (is_ntfs && (can_open_volume == Some(true) || can_open_mft_file == Some(true))),
{
    let volume: bool = match can_open_volume {
        Some(open) => open,
        None => false,
    };
    let file: bool = match can_open_mft_file {
        Some(open) => open,
        None => false,
    };
    is_ntfs && (volume || file)
}

/// The Windows attributes of something on another system: read-only, and directory
/// or archive.
pub open spec fn attributes_of(readonly: bool, is_dir: bool) -> u32 {
    let kind = if is_dir {
        0x10u32
    } else {
        0x20u32
    };
    if readonly {
        (kind + 1) as u32
    } else {
        kind
    }
}

/// The Windows attributes of something on another system.
pub fn synthesize_attributes(readonly: bool, is_dir: bool) -> (attributes: u32)
    ensures
        attributes == attributes_of(readonly, is_dir),
{
    let kind: u32 = if is_dir {
        0x10
    } else {
        0x20
    };
    if readonly {
        kind + 1
    } else {
        kind
    }
}

/// A file or a folder that was found.
#[derive(Debug)]
pub struct ScannedEntry {
    pub path: String,
    pub is_dir: bool,
    pub size: u64,
    /// The number of allocated blocks, if that is known.
    pub blocks: Option<u64>,
    pub modified: Option<Timestamp>,
    pub attributes: u32,
}

/// The size of an allocated block.
pub const BLOCK_SIZE: u64 = 512;

pub open spec fn entry_allocated(entry: ScannedEntry) -> int {
    match entry.blocks {
        Some(blocks) => blocks * BLOCK_SIZE,
        None => entry.size as int,
    }
}

/// The record of a file or a folder that was found. Paths of folders end with a
/// separator.
pub open spec fn entry_record(entry: ScannedEntry) -> RecordView {
    RecordView {
        file_name: if entry.is_dir && !ends_with_separator(entry.path@) {
            entry.path@.push('/')
        } else {
            entry.path@
        },
        size: entry.size,
        allocated: entry_allocated(entry) as u64,
        modified: match entry.modified {
            Some(modified) => modified,
            None => Timestamp { year: 1970, ordinal: 1, secs: 0, nanos: 0 },
        },
        attributes: entry.attributes as u64,
        files: 0,
        folders: 0,
        drive_capacity: None,
        free_space: None,
        used_space: None,
        reserved_space: None,
    }
}

impl ScannedEntry {
    /// The record of the entry. `None` if its allocated size is too large.
    pub fn into_record(self) -> (record: Option<WizTreeCsvRecord>)
        ensures
            record is Some <==> entry_allocated(self) <= u64::MAX,
            record matches Some(record) ==> record@ == entry_record(self),
            record matches Some(record) ==> (self.modified matches Some(modified) ==> record.modified
                == modified),
            record matches Some(record) ==> record.size == self.size && record.attributes
                == self.attributes,
    {
        let allocated: u64 = match self.blocks {
            Some(blocks) => match blocks.checked_mul(BLOCK_SIZE) {
                Some(allocated) => allocated,
                None => {
                    return None;
                },
            },
            None => self.size,
        };
        let mut path: String = self.path;
        if self.is_dir && !text_ends_with_separator(path.as_str()) {
            path.push('/');
        }
        Some(
            WizTreeCsvRecord {
                file_name: path,
                size: self.size,
                allocated,
                modified: match self.modified {
                    Some(modified) => modified,
                    None => Timestamp::default(),
                },
                attributes: self.attributes as u64,
                files: 0,
                folders: 0,
                drive_capacity: None,
                free_space: None,
                used_space: None,
                reserved_space: None,
            },
        )
    }
}

/// How an index is built from a scan: everything that a scan cannot know is counted
/// and summed up, and entries are sorted.
pub open spec fn scan_options<'a>(custom_root: Option<&'a str>) -> FsIndexBuildOptions<'a> {
    FsIndexBuildOptions {
        recount_children: true,
        recalculate_folder_size: true,
        resort: true,
        custom_root,
    }
}

/// How an index is built from a scan.
pub fn scan_build_options<'a>(custom_root: Option<&'a str>) -> (options: FsIndexBuildOptions<'a>)
    ensures
        options == scan_options(custom_root),
{
    FsIndexBuildOptions {
        recount_children: true,
        recalculate_folder_size: true,
        resort: true,
        custom_root,
    }
}

/// The index of everything that a scan found, the scanned folder first. `None` if
/// nothing was found, entries are not in order or they do not fit in an index.
pub fn index_of_scan(records: &Vec<WizTreeCsvRecord>, custom_root: Option<&str>) -> (result: Option<
    FsIndex,
>)
    ensures
        result is Some <==> records@.len() > 0 && built_tree(
            records@[0]@,
            record_views(records@),
            scan_options(custom_root),
        ) is Some,
        result matches Some(index) ==> {
            &&& index.wf()
            &&& index.rooted()
            &&& built_tree(records@[0]@, record_views(records@), scan_options(custom_root))
                == Some(index.root_tree())
        },
{
    if records.len() == 0 {
        return None;
    }
    FsIndex::checked_from_csv_records_with_root(
        records,
        &records[0],
        scan_build_options(custom_root),
    )
}

/// The record of an entry has exactly the time at which the entry was modified. Only if
/// that is not known it has the start of 1970.
pub proof fn law_known_times_are_recorded(entry: ScannedEntry)
    ensures
        entry.modified matches Some(modified) ==> entry_record(entry).modified == modified,
        entry.modified is None ==> {
            &&& entry_record(entry).modified.spec_unix_seconds() == 0
            &&& entry_record(entry).modified.nanos == 0
        },
{
}

/// A record has the size, the attributes and the path of the entry. One separator is
/// added to the path of a folder that does not end with one, all other paths stay the
/// same, so that an index that is built from the record has a folder exactly for a folder.
pub proof fn law_scanned_facts_are_recorded(entry: ScannedEntry)
    requires
        entry_allocated(entry) <= u64::MAX,
    ensures
        entry_record(entry).size == entry.size,
        entry_record(entry).attributes == entry.attributes,
        entry_record(entry).file_name.take(entry.path@.len() as int) == entry.path@,
        entry_record(entry).file_name.len() <= entry.path@.len() + 1,
        ends_with_separator(entry.path@) || !entry.is_dir ==> entry_record(entry).file_name
            == entry.path@,
        entry.is_dir || !ends_with_separator(entry.path@) ==> FsEntryMetadata::of_record(
            entry_record(entry),
        ).is_dir == entry.is_dir,
        entry.blocks matches Some(blocks) ==> entry_record(entry).allocated / 512 == blocks
            && entry_record(entry).allocated % 512 == 0,
        entry.blocks is None ==> entry_record(entry).allocated == entry.size,
{
    let name = entry_record(entry).file_name;
    assert(name.take(entry.path@.len() as int) == entry.path@);
    assert(entry.path@.push('/').last() == '/');
}

/// Entries with the same record were modified at the same time if both times are known,
/// and they have the same size, attributes and number of blocks.
pub proof fn law_records_tell_entries_apart(a: ScannedEntry, b: ScannedEntry)
    requires
        entry_allocated(a) <= u64::MAX,
        entry_allocated(b) <= u64::MAX,
        entry_record(a) == entry_record(b),
    ensures
        a.modified is Some && b.modified is Some ==> a.modified == b.modified,
        a.size == b.size,
        a.attributes == b.attributes,
        a.blocks is Some && b.blocks is Some ==> a.blocks == b.blocks,
        a.is_dir == b.is_dir ==> a.path@ == b.path@ || a.path@.push('/') == b.path@ || b.path@.push(
            '/',
        ) == a.path@,
{
    assert(a.path@.push('/').drop_last() == a.path@);
    assert(b.path@.push('/').drop_last() == b.path@);
}

/// A scan is refused exactly if rights are missing and the slower way is neither allowed
/// nor preferred. The master file table is read exactly with rights and without that
/// preference.
pub proof fn law_scans_need_rights(has_rights: bool, allow_slow: bool, prefer_slow: bool)
    ensures
        scan_method_for(has_rights, allow_slow, prefer_slow) is None <==> !(has_rights
            || allow_slow || prefer_slow),
        scan_method_for(has_rights, allow_slow, prefer_slow) == Some(ScanMethod::Mft) <==> has_rights
            && !prefer_slow,
        prefer_slow ==> scan_method_for(has_rights, allow_slow, prefer_slow) == Some(
            ScanMethod::Walk,
        ),
        has_rights ==> scan_method_for(has_rights, allow_slow, prefer_slow) == scan_method_for(
            has_rights,
            !allow_slow,
            prefer_slow,
        ),
{
}

/// A path is scanned exactly if it exists, it is a folder or the file with the master
/// file table, and the options allow a way to scan. That way does not depend on what the
/// path is.
pub proof fn law_only_folders_and_tables_are_scanned(
    options: EDirStatBackupOpts,
    exists: bool,
    is_dir: bool,
    is_mft: bool,
    can_scan_mft: bool,
)
    ensures
        options.checked(exists, is_dir, is_mft, can_scan_mft) is Ok <==> exists && (is_dir || is_mft)
            && (can_scan_mft || options.allow_non_admin_scan || options.prefer_non_admin_scan),
        options.checked(exists, is_dir, is_mft, can_scan_mft) matches Ok(method) ==> Some(method)
            == scan_method_for(
            can_scan_mft,
            options.allow_non_admin_scan,
            options.prefer_non_admin_scan,
        ),
        options.checked(exists, is_dir, is_mft, can_scan_mft) == Err::<ScanMethod, _>(
            ScanPathError::DoesNotExist,
        ) <==> !exists,
        options.checked(exists, is_dir, is_mft, can_scan_mft) == Err::<ScanMethod, _>(
            ScanPathError::NotADirectory,
        ) <==> exists && !is_dir && !is_mft,
{
}

/// The bits of attributes tell whether something is read-only and whether it is a folder.
pub proof fn law_attributes_have_separate_bits(readonly: bool, is_dir: bool)
    ensures
        attributes_of(readonly, is_dir) & 1 != 0 <==> readonly,
        attributes_of(readonly, is_dir) & 0x10 != 0 <==> is_dir,
        attributes_of(readonly, is_dir) & 0x20 != 0 <==> !is_dir,
        attributes_of(readonly, is_dir) & !0x31u32 == 0,
{
    let attributes = attributes_of(readonly, is_dir);
    assert(attributes == 0x10 || attributes == 0x11 || attributes == 0x20 || attributes == 0x21);
    assert(0x10u32 & 1 == 0 && 0x10u32 & 0x10 != 0 && 0x10u32 & 0x20 == 0 && 0x10u32 & !0x31u32 == 0)
        by (bit_vector);
    assert(0x11u32 & 1 != 0 && 0x11u32 & 0x10 != 0 && 0x11u32 & 0x20 == 0 && 0x11u32 & !0x31u32 == 0)
        by (bit_vector);
    assert(0x20u32 & 1 == 0 && 0x20u32 & 0x10 == 0 && 0x20u32 & 0x20 != 0 && 0x20u32 & !0x31u32 == 0)
        by (bit_vector);
    assert(0x21u32 & 1 != 0 && 0x21u32 & 0x10 == 0 && 0x21u32 & 0x20 != 0 && 0x21u32 & !0x31u32 == 0)
        by (bit_vector);
}

/// The file with the master file table is found by its name in any case, and by no other
/// name.
pub proof fn law_table_names_ignore_case(name: Seq<char>)
    ensures
        is_mft_name(name) <==> name.map_values(|c: char| ascii_lower(c)) == "$mft"@,
{
    reveal_strlit("$mft");
    let lower = name.map_values(|c: char| ascii_lower(c));
    if is_mft_name(name) {
        assert(lower == "$mft"@);
    }
    if lower == "$mft"@ {
        assert(name.len() == lower.len());
        assert(lower[0] == '$' && lower[1] == 'm' && lower[2] == 'f' && lower[3] == 't');
        assert forall|i: int| 0 <= i < 4 implies lower[i] == ascii_lower(#[trigger] name[i]) by {}
        assert(ascii_lower(name[0]) == '$');
        assert(ascii_lower(name[1]) == 'm');
        assert(ascii_lower(name[2]) == 'f');
        assert(ascii_lower(name[3]) == 't');
    }
}

/// In an index of a scan every folder counts the files and folders in it and has the sum of
/// their sizes, whatever the records of the scan say, and all entries are sorted.
pub proof fn law_scans_are_counted_and_sorted(
    root: RecordView,
    records: Seq<RecordView>,
    custom_root: Option<&str>,
    totals: FsIndexBuildOptions<'_>,
)
    requires
        totals.recount_children,
        totals.recalculate_folder_size,
        totals.custom_root == custom_root,
    ensures
        built_tree(root, records, scan_options(custom_root)) matches Some(tree) ==> {
            &&& has_totals(tree, totals)
            &&& is_sorted(tree)
        },
{
    let options = scan_options(custom_root);
    law_built_indexes_have_totals(root, records, options);
    let unsorted = FsIndexBuildOptions { resort: false, ..options };
    law_resorting_keeps_records(root, records, options, unsorted, None, '/', false);
    if let Some(tree) = built_tree(root, records, options) {
        lemma_same_totals(tree, options, totals);
    }
}

/// Totals are the same for options that ask for the same totals.
proof fn lemma_same_totals(
    node: FsNode,
    a: FsIndexBuildOptions<'_>,
    b: FsIndexBuildOptions<'_>,
)
    requires
        a.recount_children,
        a.recalculate_folder_size,
        has_totals(node, a),
    ensures
        has_totals(node, b),
    decreases node,
{
    assert forall|i: int| 0 <= i < node.children.len() implies has_totals(
        #[trigger] node.children[i],
        b,
    ) by {
        assert(has_totals(node.children[i], a));
        lemma_same_totals(node.children[i], a, b);
    }
}

} // verus!
