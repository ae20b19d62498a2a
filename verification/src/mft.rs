//! Entries of the master file table of an NTFS volume.

use vstd::prelude::*;

use crate::metadata::FsEntryMetadata;
use crate::timestamp::Timestamp;

verus! {

/// The time between the start of 1601 and the start of 1970, in steps of 100
/// nanoseconds: 369 years with 89 leap days.
pub const EPOCH_DIFF: u64 = 116_444_736_000_000_000;

/// Converts an NT timestamp, the number of 100 nanosecond steps since the start of
/// 1601. `None` for times before 1970.
pub fn nt_time_to_timestamp(nt: u64) -> (result: Option<Timestamp>)
    ensures
        nt < EPOCH_DIFF ==> result is None,
        nt >= EPOCH_DIFF ==> {
            let steps = nt - EPOCH_DIFF;
            match result {
                Some(t) => t.valid() && t.spec_unix_seconds() == steps / 10_000_000 && t.nanos
                    == (steps % 10_000_000) * 100,
                None => forall|t: Timestamp|
                    #![trigger t.spec_unix_seconds()]
                    t.valid() ==> t.spec_unix_seconds() != steps / 10_000_000,
            }
        },
{
    if nt < EPOCH_DIFF {
        return None;
    }
    let steps: u64 = nt - EPOCH_DIFF;
    let secs: u64 = steps / 10_000_000;
    let nanos: u64 = (steps % 10_000_000) * 100;
    match Timestamp::from_unix_timestamp(secs as i64) {
        Some(time) => Some(Timestamp { nanos: nanos as u32, ..time }),
        None => None,
    }
}

/// How the contents of a file are stored.
pub enum MftValue {
    /// Inside the record.
    Resident,
    /// Outside of the table, with the allocated sizes of the pieces.
    DataRuns(Vec<u64>),
    /// In several attributes.
    AttributeList,
}

/// What a record says about the contents of a file.
pub struct MftData {
    pub size: u64,
    pub value: MftValue,
}

/// The standard information of a record.
#[derive(Clone, Copy, PartialEq, Eq, Structural)]
pub struct MftInfo {
    /// An NT timestamp.
    pub modified: u64,
    pub attributes: u32,
}

/// A record of a file or a folder that is in use and has a name.
pub struct MftRecord {
    pub number: u64,
    pub name: String,
    /// The number of the record of the folder.
    pub parent: u64,
    pub is_dir: bool,
    /// The contents, `None` if they could not be found.
    pub data: Option<MftData>,
    /// The size that is stored with the name, which can be stale.
    pub cached_size: u64,
    pub cached_allocated: u64,
    pub info: Option<MftInfo>,
}

/// What is known about a file or a folder.
#[verifier::ext_equal]
pub struct EntryView {
    pub metadata: FsEntryMetadata,
    pub name: Seq<char>,
    pub parent: u64,
    pub size_success: bool,
    pub info_success: bool,
}

/// What is known about a file or a folder.
pub struct MftEntry {
    pub metadata: FsEntryMetadata,
    pub name: String,
    /// The number of the record of the folder.
    pub parent: u64,
    /// Whether the size is the one of the contents.
    pub size_success: bool,
    /// Whether the record had standard information.
    pub info_success: bool,
}

impl View for MftEntry {
    type V = EntryView;

    open spec fn view(&self) -> EntryView {
        EntryView {
            metadata: self.metadata,
            name: self.name@,
            parent: self.parent,
            size_success: self.size_success,
            info_success: self.info_success,
        }
    }
}

/// The sum of some numbers.
pub open spec fn total(numbers: Seq<u64>) -> nat
    decreases numbers.len(),
{
    if numbers.len() == 0 {
        0
    } else {
        total(numbers.drop_last()) + numbers.last() as nat
    }
}

/// The sum of some numbers, `None` if it is too large.
pub fn checked_total(numbers: &Vec<u64>) -> (sum: Option<u64>)
    ensures
        sum is Some <==> total(numbers@) <= u64::MAX,
        sum matches Some(sum) ==> sum == total(numbers@),
{
    let mut sum: u64 = 0;
    let mut i: usize = 0;
    assert(numbers@.take(0) == Seq::<u64>::empty());
    while i < numbers.len()
        invariant
            i <= numbers@.len(),
            sum == total(numbers@.take(i as int)),
        decreases numbers@.len() - i,
    {
        proof {
            assert(numbers@.take(i + 1).drop_last() == numbers@.take(i as int));
            lemma_total_grows(numbers@, i + 1);
        }
        sum = match sum.checked_add(numbers[i]) {
            Some(sum) => sum,
            None => {
                return None;
            },
        };
        i = i + 1;
    }
    assert(numbers@.take(i as int) == numbers@);
    Some(sum)
}

proof fn lemma_total_grows(numbers: Seq<u64>, n: int)
    requires
        0 <= n <= numbers.len(),
    ensures
        total(numbers.take(n)) <= total(numbers),
    decreases numbers.len(),
{
    if n == numbers.len() {
        assert(numbers.take(n) == numbers);
    } else {
        assert(numbers.drop_last().take(n) == numbers.take(n));
        lemma_total_grows(numbers.drop_last(), n);
    }
}

/// The size, the allocated size and whether they are those of the contents. A
/// folder has none. If the contents could not be found then the sizes that are
/// stored with the name are used.
pub open spec fn record_sizes(record: MftRecord) -> (nat, nat, bool) {
    if record.is_dir {
        (0, 0, true)
    } else {
        match record.data {
            Some(data) => {
                let allocated = match data.value {
                    MftValue::DataRuns(runs) => total(runs@),
                    _ => data.size as nat,
                };
                (data.size as nat, allocated, true)
            },
            None => if record.cached_size > 0 {
                let allocated = if record.cached_allocated > record.cached_size {
                    record.cached_allocated
                } else {
                    record.cached_size
                };
                (record.cached_size as nat, allocated as nat, false)
            } else {
                (0, 0, false)
            },
        }
    }
}

/// Whether a time is the one of a record, or the start of 1970 if that one cannot
/// be represented.
pub open spec fn is_record_time(record: MftRecord, time: Timestamp) -> bool {
    let epoch = Timestamp { year: 1970, ordinal: 1, secs: 0, nanos: 0 };
    match record.info {
        Some(info) => {
            let steps = info.modified - EPOCH_DIFF;
            if steps >= 0 && exists|t: Timestamp|
                #![trigger t.spec_unix_seconds()]
                t.valid() && t.spec_unix_seconds() == steps / 10_000_000 {
                &&& time.valid()
                &&& time.spec_unix_seconds() == steps / 10_000_000
                &&& time.nanos == (steps % 10_000_000) * 100
            } else {
                time == epoch
            }
        },
        None => time == epoch,
    }
}

/// The attributes of a record, by default those of a folder or of a normal file.
pub open spec fn record_attributes(record: MftRecord) -> u64 {
    match record.info {
        Some(info) => info.attributes as u64,
        None => if record.is_dir {
            0x10
        } else {
            0x20
        },
    }
}

/// Whether an entry says what a record says.
pub open spec fn is_entry_of(entry: EntryView, record: MftRecord) -> bool {
    let sizes = record_sizes(record);
    &&& is_record_time(record, entry.metadata.modified)
    &&& entry.metadata == (FsEntryMetadata {
        size: sizes.0 as u64,
        allocated: sizes.1 as u64,
        modified: entry.metadata.modified,
        attributes: record_attributes(record),
        files: 0,
        folders: 0,
        is_dir: record.is_dir,
        children: None,
        drive_capacity: None,
        free_space: None,
        used_space: None,
        reserved_space: None,
    })
    &&& entry.name == record.name@
    &&& entry.parent == record.parent
    &&& entry.size_success == sizes.2
    &&& entry.info_success == (record.info is Some)
}

impl MftEntry {
    /// What a record says. `None` if the allocated size is too large.
    pub fn from_record(record: MftRecord) -> (entry: Option<Self>)
        ensures
            entry is Some <==> record_sizes(record).1 <= u64::MAX,
            entry matches Some(entry) ==> is_entry_of(entry@, record),
    {
        let mut size: u64 = 0;
        let mut allocated: u64 = 0;
        let mut size_success: bool = true;
        if !record.is_dir {
            match &record.data {
                Some(data) => {
                    size = data.size;
                    allocated = match &data.value {
                        MftValue::DataRuns(runs) => match checked_total(runs) {
                            Some(sum) => sum,
                            None => {
                                return None;
                            },
                        },
                        _ => data.size,
                    };
                },
                None => {
                    size_success = false;
                    if record.cached_size > 0 {
                        size = record.cached_size;
                        allocated = if record.cached_allocated > record.cached_size {
                            record.cached_allocated
                        } else {
                            record.cached_size
                        };
                    }
                },
            }
        }
        let mut modified = Timestamp::default();
        let mut attributes: u64 = if record.is_dir {
            0x10
        } else {
            0x20
        };
        if let Some(info) = record.info {
            attributes = info.attributes as u64;
            if let Some(time) = nt_time_to_timestamp(info.modified) {
                assert(time.spec_unix_seconds() == (info.modified - EPOCH_DIFF) / 10_000_000);
                modified = time;
            }
        }
        let metadata = FsEntryMetadata {
            size,
            allocated,
            modified,
            attributes,
            files: 0,
            folders: 0,
            is_dir: record.is_dir,
            children: None,
            drive_capacity: None,
            free_space: None,
            used_space: None,
            reserved_space: None,
        };
        Some(
            MftEntry {
                metadata,
                name: record.name,
                parent: record.parent,
                size_success,
                info_success: record.info.is_some(),
            },
        )
    }
}

} // verus!
