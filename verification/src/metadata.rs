//! Metadata of files and folders and how it is stored inside a byte buffer.
use vstd::prelude::*;

use crate::dyn_int::int_bytes;
use crate::text::{ends_with_separator, text_ends_with_separator};
use crate::timestamp::Timestamp;
use crate::wiztree_csv::{RecordView, WizTreeCsvRecord};

verus! {

/// Metadata for a file or folder.
#[derive(Debug, Clone, Copy, PartialEq, Eq, PartialOrd, Ord, Structural)]
pub struct FsEntryMetadata {
    pub size: u64,
    pub allocated: u64,
    /// Note: nanoseconds won't be saved when this is stored in a
    /// [`FsIndex`](crate::fs_index::FsIndex), nanoseconds is always 0 when read from a
    /// CSV file anyway.
    pub modified: Timestamp,
    pub attributes: u64,
    pub files: u64,
    pub folders: u64,
    pub is_dir: bool,
    /// Direct child entries, i.e. files and folders inside this folder, not
    /// counting recursively.
    pub children: Option<u32>,
    pub drive_capacity: Option<u64>,
    pub free_space: Option<u64>,
    pub used_space: Option<u64>,
    pub reserved_space: Option<u64>,
}

/// Why stored metadata could not be replaced by other metadata.
#[derive(Debug, Clone, Copy, PartialEq, Eq, PartialOrd, Ord, Structural)]
pub enum MetadataUpdateError {
    ChangedIsDrive,
    ChangedIsFolder,
    ChangedDriveInfo,
    ChangedChildren,
    TooLargeSize,
    TooLargeAllocated,
    TooLargeAttributes,
    TooLargeFileCount,
    TooLargeFolderCount,
    TooLargeModified,
    TooLargeDriveInfo,
}

/// Day and year as a single number: the year in the upper 19 bits and the day in
/// the lower 13 bits of a 32 bit number.
pub open spec fn date_code(year: int, ordinal: int) -> int {
    let code = year * 8192 + ordinal;
    if code < 0 {
        code + 0x1_0000_0000
    } else {
        code
    }
}

/// The year of a [`date_code`], only its lower 32 bits count.
pub open spec fn code_year(code: int) -> int {
    let low = code % 0x1_0000_0000;
    low / 8192 - if low >= 0x8000_0000 {
        0x8_0000int
    } else {
        0
    }
}

/// The day of a [`date_code`].
pub open spec fn code_ordinal(code: int) -> int {
    code % 8192
}

/// An optional number as one or two numbers: 1 and the number or just 0.
pub open spec fn option_ints(info: Option<u64>) -> Seq<int> {
    match info {
        Some(value) => seq![1, value as int],
        None => seq![0],
    }
}

/// The encodings of some numbers, one after the other.
pub open spec fn concat_ints(values: Seq<int>) -> Seq<u8>
    decreases values.len(),
{
    if values.len() == 0 {
        seq![]
    } else {
        concat_ints(values.drop_last()) + int_bytes(values.last())
    }
}

impl FsEntryMetadata {
    pub open spec fn spec_has_drive_info(self) -> bool {
        self.drive_capacity is Some || self.free_space is Some || self.used_space is Some
            || self.reserved_space is Some
    }

    /// Whether this can be stored: the time exists and the number of children
    /// leaves room for the two numbers that tell files and folders with an
    /// unknown number of children apart.
    pub open spec fn storable(self) -> bool {
        &&& self.modified.valid()
        &&& self.is_dir ==> (self.children matches Some(n) ==> n < 0xffff_fffe)
    }

    /// What is read back after this was stored: parts of seconds are not kept
    /// and files have no children.
    pub open spec fn stored(self) -> FsEntryMetadata {
        FsEntryMetadata {
            modified: self.modified.whole(),
            files: if self.is_dir {
                self.files
            } else {
                0
            },
            folders: if self.is_dir {
                self.folders
            } else {
                0
            },
            children: if self.is_dir {
                self.children
            } else {
                None
            },
            ..self
        }
    }

    /// 0 for files, 1 for folders with an unknown number of children, otherwise
    /// the number of children plus 2.
    pub open spec fn children_code(self) -> int {
        if self.is_dir {
            match self.children {
                Some(n) => n + 2,
                None => 1,
            }
        } else {
            0
        }
    }

    pub open spec fn main_ints(self) -> Seq<int> {
        seq![
            self.children_code(),
            self.size as int,
            self.allocated as int,
            date_code(self.modified.year as int, self.modified.ordinal as int),
            self.modified.secs as int,
            self.attributes as int,
        ]
    }

    pub open spec fn count_ints(self) -> Seq<int> {
        if self.is_dir {
            seq![self.files as int, self.folders as int]
        } else {
            seq![]
        }
    }

    pub open spec fn drive_ints(self) -> Seq<int> {
        if self.spec_has_drive_info() {
            option_ints(self.drive_capacity) + option_ints(self.free_space) + option_ints(
                self.used_space,
            ) + option_ints(self.reserved_space)
        } else {
            seq![]
        }
    }

    /// All numbers that are stored, in order.
    pub open spec fn ints(self) -> Seq<int> {
        self.main_ints() + self.count_ints() + self.drive_ints()
    }

    /// The bytes that represent this metadata: the number of bytes with the
    /// highest bit set for drives and then all numbers.
    pub open spec fn encoded(self) -> Seq<u8> {
        let body = concat_ints(self.ints());
        let header = body.len() + 1 + if self.spec_has_drive_info() {
            128int
        } else {
            0
        };
        seq![header as u8] + body
    }

    pub open spec fn of_record(record: RecordView) -> FsEntryMetadata {
        FsEntryMetadata {
            size: record.size,
            allocated: record.allocated,
            modified: record.modified,
            attributes: record.attributes,
            files: record.files,
            folders: record.folders,
            is_dir: ends_with_separator(record.file_name),
            children: None,
            drive_capacity: record.drive_capacity,
            free_space: record.free_space,
            used_space: record.used_space,
            reserved_space: record.reserved_space,
        }
    }

    /// The record for an entry with this metadata.
    pub open spec fn record(self, file_name: Seq<char>) -> RecordView {
        RecordView {
            file_name,
            size: self.size,
            allocated: self.allocated,
            modified: self.modified,
            attributes: self.attributes,
            files: self.files,
            folders: self.folders,
            drive_capacity: self.drive_capacity,
            free_space: self.free_space,
            used_space: self.used_space,
            reserved_space: self.reserved_space,
        }
    }
}

/// Only folders contain files and folders.
pub open spec fn record_counts_ok(record: RecordView) -> bool {
    !ends_with_separator(record.file_name) ==> record.files == 0 && record.folders == 0
}

impl FsEntryMetadata {
    /// Metadata of the entry that a record is about. A file name that ends with a
    /// path separator belongs to a folder.
    pub fn from_csv_record(record: &WizTreeCsvRecord) -> (info: Self)
        requires
            record_counts_ok(record@),
        ensures
            info == FsEntryMetadata::of_record(record@),
    {
        FsEntryMetadata {
            size: record.size,
            allocated: record.allocated,
            modified: record.modified,
            attributes: record.attributes,
            files: record.files,
            folders: record.folders,
            is_dir: text_ends_with_separator(record.file_name.as_str()),
            children: None,
            drive_capacity: record.drive_capacity,
            free_space: record.free_space,
            used_space: record.used_space,
            reserved_space: record.reserved_space,
        }
    }

    /// A record with this metadata and an empty file name.
    pub fn to_csv_record_without_filename(&self) -> (record: WizTreeCsvRecord)
        ensures
            record@ == self.record(seq![]),
    {
        WizTreeCsvRecord {
            file_name: String::new(),
            size: self.size,
            allocated: self.allocated,
            modified: self.modified,
            attributes: self.attributes,
            files: self.files,
            folders: self.folders,
            drive_capacity: self.drive_capacity,
            free_space: self.free_space,
            used_space: self.used_space,
            reserved_space: self.reserved_space,
        }
    }

    /// Folders lose their size.
    pub fn into_dir_without_size(self) -> (info: Self)
        ensures
            info == (if self.is_dir {
                FsEntryMetadata { size: 0, allocated: 0, ..self }
            } else {
                self
            }),
    {
        if self.is_dir {
            FsEntryMetadata { size: 0, allocated: 0, ..self }
        } else {
            self
        }
    }

    pub fn into_entry_with_0_files_and_folders(self) -> (info: Self)
        ensures
            info == (FsEntryMetadata { files: 0, folders: 0, ..self }),
    {
        FsEntryMetadata { files: 0, folders: 0, ..self }
    }

    pub fn into_entry_with_0_children(self) -> (info: Self)
        ensures
            info == (FsEntryMetadata {
                files: 0,
                folders: 0,
                children: if self.is_dir {
                    Some(0)
                } else {
                    None
                },
                ..self
            }),
    {
        FsEntryMetadata {
            files: 0,
            folders: 0,
            children: if self.is_dir {
                Some(0)
            } else {
                None
            },
            ..self
        }
    }

    pub fn has_drive_info(&self) -> (result: bool)
        ensures
            result == self.spec_has_drive_info(),
    {
        self.drive_capacity.is_some() || self.free_space.is_some() || self.used_space.is_some()
            || self.reserved_space.is_some()
    }

    fn push_option(values: &mut Vec<u64>, info: Option<u64>)
        ensures
            final(values)@.map_values(|v: u64| v as int) == old(values)@.map_values(
                |v: u64| v as int,
            ) + option_ints(info),
    {
        match info {
            Some(value) => {
                values.push(1);
                values.push(value);
            },
            None => {
                values.push(0);
            },
        }
        assert(values@.map_values(|v: u64| v as int) =~= old(values)@.map_values(|v: u64| v as int)
            + option_ints(info));
    }

    pub(crate) fn int_values(&self) -> (values: Vec<u64>)
        requires
            self.storable(),
        ensures
            values@.map_values(|v: u64| v as int) == self.ints(),
    {
        let mut values: Vec<u64> = Vec::new();
        let children: u64 = if self.is_dir {
            match self.children {
                Some(n) => n as u64 + 2,
                None => 1,
            }
        } else {
            0
        };
        values.push(children);
        values.push(self.size);
        values.push(self.allocated);
        let code: i64 = self.modified.year as i64 * 8192 + self.modified.ordinal as i64;
        let code: u64 = if code < 0 {
            (code + 0x1_0000_0000) as u64
        } else {
            code as u64
        };
        values.push(code);
        values.push(self.modified.secs as u64);
        values.push(self.attributes);
        assert(values@.map_values(|v: u64| v as int) =~= self.main_ints());
        if self.is_dir {
            values.push(self.files);
            values.push(self.folders);
        }
        assert(values@.map_values(|v: u64| v as int) =~= self.main_ints() + self.count_ints());
        if self.has_drive_info() {
            Self::push_option(&mut values, self.drive_capacity);
            Self::push_option(&mut values, self.free_space);
            Self::push_option(&mut values, self.used_space);
            Self::push_option(&mut values, self.reserved_space);
        }
        assert(values@.map_values(|v: u64| v as int) =~= self.ints());
        values
    }
}

/// Metadata that goes into a record is read from the record again: the number of direct
/// entries is not in it, and the name tells whether it belongs to a folder. A record that
/// was read can be made again.
pub proof fn law_records_keep_metadata(
    info: FsEntryMetadata,
    file_name: Seq<char>,
    record: RecordView,
)
    ensures
        FsEntryMetadata::of_record(info.record(file_name)) == (FsEntryMetadata {
            is_dir: ends_with_separator(file_name),
            children: None,
            ..info
        }),
        FsEntryMetadata::of_record(record).record(record.file_name) == record,
{
}

/// What is stored of metadata is everything but parts of a second. Files have no numbers
/// of entries.
pub proof fn law_everything_is_stored(info: FsEntryMetadata)
    ensures
        ({
            let stored = info.stored();
            &&& stored.size == info.size
            &&& stored.allocated == info.allocated
            &&& stored.modified.year == info.modified.year
            &&& stored.modified.ordinal == info.modified.ordinal
            &&& stored.modified.secs == info.modified.secs
            &&& stored.attributes == info.attributes
            &&& stored.is_dir == info.is_dir
            &&& stored.drive_capacity == info.drive_capacity
            &&& stored.free_space == info.free_space
            &&& stored.used_space == info.used_space
            &&& stored.reserved_space == info.reserved_space
            &&& info.is_dir ==> stored.files == info.files && stored.folders == info.folders
                && stored.children == info.children
            &&& stored.stored() == stored
        }),
{
}

} // verus!
