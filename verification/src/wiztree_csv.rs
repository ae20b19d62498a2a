//! Records of the CSV files that WizTree exports.
use vstd::prelude::*;

use crate::timestamp::Timestamp;

verus! {

/// One line of a WizTree CSV file, with the file name as a sequence of
/// characters.
#[verifier::ext_equal]
pub struct RecordView {
    pub file_name: Seq<char>,
    pub size: u64,
    pub allocated: u64,
    pub modified: Timestamp,
    pub attributes: u64,
    pub files: u64,
    pub folders: u64,
    pub drive_capacity: Option<u64>,
    pub free_space: Option<u64>,
    pub used_space: Option<u64>,
    pub reserved_space: Option<u64>,
}

/// One line of a WizTree CSV file.
#[derive(Clone, Debug, PartialEq, Eq, PartialOrd, Ord)]
pub struct WizTreeCsvRecord {
    pub file_name: String,
    pub size: u64,
    pub allocated: u64,
    pub modified: Timestamp,
    pub attributes: u64,
    pub files: u64,
    pub folders: u64,
    pub drive_capacity: Option<u64>,
    pub free_space: Option<u64>,
    pub used_space: Option<u64>,
    pub reserved_space: Option<u64>,
}

impl View for WizTreeCsvRecord {
    type V = RecordView;

    open spec fn view(&self) -> RecordView {
        RecordView {
            file_name: self.file_name@,
            size: self.size,
            allocated: self.allocated,
            modified: self.modified,
            attributes: self.attributes,
            files: self.files,
            folders: self.folders,
            drive_capacity: self.drive_capacity,
            free_space: self.free_space,
            used_space: self.used_space,
            reserved_space: self.reserved_space,
        }
    }
}

impl Default for WizTreeCsvRecord {
    /// An empty file without a name that was modified at the start of 1970.
    fn default() -> (record: Self)
        ensures
            record.modified.valid(),
            record@ == (RecordView {
                file_name: seq![],
                size: 0,
                allocated: 0,
                modified: Timestamp { year: 1970, ordinal: 1, secs: 0, nanos: 0 },
                attributes: 0,
                files: 0,
                folders: 0,
                drive_capacity: None,
                free_space: None,
                used_space: None,
                reserved_space: None,
            }),
    {
        WizTreeCsvRecord {
            file_name: String::new(),
            size: 0,
            allocated: 0,
            modified: Timestamp::default(),
            attributes: 0,
            files: 0,
            folders: 0,
            drive_capacity: None,
            free_space: None,
            used_space: None,
            reserved_space: None,
        }
    }
}

} // verus!
