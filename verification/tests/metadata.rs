use file_system_backup::dyn_int::{read_dyn_sized_int, update_dyn_sized_int, write_dyn_sized_int};
use file_system_backup::metadata::{FsEntryMetadata, MetadataUpdateError};
use file_system_backup::timestamp::Timestamp;
use file_system_backup::wiztree_csv::WizTreeCsvRecord;

fn file(size: u64) -> FsEntryMetadata {
    FsEntryMetadata {
        size,
        allocated: 4096,
        modified: Timestamp::default(),
        attributes: 32,
        files: 0,
        folders: 0,
        is_dir: false,
        children: None,
        drive_capacity: None,
        free_space: None,
        used_space: None,
        reserved_space: None,
    }
}

fn drive() -> FsEntryMetadata {
    FsEntryMetadata {
        size: 1,
        allocated: 2,
        modified: Timestamp::default(),
        attributes: 4,
        files: 10_011,
        folders: 23456,
        is_dir: true,
        children: Some(10),
        drive_capacity: Some(1357),
        free_space: Some(5432),
        used_space: Some(4321),
        reserved_space: None,
    }
}

#[test]
fn serialize_and_deserialize_entry_metadata() {
    let original = FsEntryMetadata {
        size: 1,
        allocated: 2,
        modified: Timestamp::default(),
        attributes: 4,
        files: 10_011,
        folders: 23456,
        is_dir: true,
        children: Some(10),
        drive_capacity: Some(1357),
        free_space: Some(5432),
        used_space: Some(4321),
        reserved_space: None,
    };
    let (buffer, len) = original.to_ne_bytes();
    let buffer = &buffer[..len];
    let (restored, size) = FsEntryMetadata::from_ne_bytes(buffer);
    assert_eq!(size, buffer.len());
    assert_eq!(original, restored);
}

#[test]
fn files_need_less_space_than_drives() {
    let (buffer, len) = file(5).to_ne_bytes();
    let (restored, size) = FsEntryMetadata::from_ne_bytes(&buffer[..len]);
    assert_eq!(size, len);
    assert_eq!(restored, file(5));
    assert!(len < drive().to_ne_bytes().1);
}

#[test]
fn largest_metadata_fits() {
    let original = FsEntryMetadata {
        size: u64::MAX,
        allocated: u64::MAX,
        modified: Timestamp::new(2024, 60, 86399, 0).unwrap(),
        attributes: u64::MAX,
        files: u64::MAX,
        folders: u64::MAX,
        is_dir: true,
        children: Some(u32::MAX - 2),
        drive_capacity: Some(u64::MAX),
        free_space: Some(u64::MAX),
        used_space: Some(u64::MAX),
        reserved_space: Some(u64::MAX),
    };
    let (buffer, len) = original.to_ne_bytes();
    assert!(len <= 101);
    let (restored, size) = FsEntryMetadata::from_ne_bytes(&buffer[..len]);
    assert_eq!(size, len);
    assert_eq!(restored, original);
}

#[test]
fn times_are_stored_in_whole_seconds() {
    let mut info = file(5);
    info.modified = Timestamp::new(2024, 60, 10, 123_456_789).unwrap();
    let (buffer, len) = info.to_ne_bytes();
    let (restored, _) = FsEntryMetadata::from_ne_bytes(&buffer[..len]);
    assert_eq!(restored.modified, Timestamp::new(2024, 60, 10, 0).unwrap());
}

#[test]
fn number_of_children_can_be_read_alone() {
    let (buffer, len) = drive().to_ne_bytes();
    let (children, size) = FsEntryMetadata::read_children_from_ne_bytes(&buffer[..len]);
    assert_eq!(children, Some(10));
    assert_eq!(size, len);
    let (buffer, len) = file(7).to_ne_bytes();
    assert_eq!(FsEntryMetadata::read_children_from_ne_bytes(&buffer[..len]), (None, len));
}

#[test]
fn smaller_numbers_can_be_updated() {
    let (mut buffer, len) = file(70_000).to_ne_bytes();
    let smaller = file(3);
    assert_eq!(smaller.update_ne_bytes(&mut buffer[..len]), Ok(len));
    let (restored, size) = FsEntryMetadata::from_ne_bytes(&buffer[..len]);
    assert_eq!(size, len);
    assert_eq!(restored, smaller);
}

#[test]
fn numbers_that_do_not_fit_are_not_updated() {
    let (mut buffer, len) = file(3).to_ne_bytes();
    let larger = file(70_000);
    assert_eq!(
        larger.update_ne_bytes(&mut buffer[..len]),
        Err(MetadataUpdateError::TooLargeSize)
    );

    let mut other = file(3);
    other.allocated = u64::MAX;
    assert_eq!(
        other.update_ne_bytes(&mut buffer[..len]),
        Err(MetadataUpdateError::TooLargeAllocated)
    );

    let mut other = file(3);
    other.attributes = u64::MAX;
    assert_eq!(
        other.update_ne_bytes(&mut buffer[..len]),
        Err(MetadataUpdateError::TooLargeAttributes)
    );
}

#[test]
fn kind_of_entry_cannot_be_updated() {
    let (mut buffer, len) = file(3).to_ne_bytes();
    let mut folder = file(3);
    folder.is_dir = true;
    folder.children = Some(0);
    assert_eq!(
        folder.update_ne_bytes(&mut buffer[..len]),
        Err(MetadataUpdateError::ChangedIsFolder)
    );

    let (mut buffer, len) = drive().to_ne_bytes();
    let mut other = drive();
    other.drive_capacity = None;
    other.free_space = None;
    other.used_space = None;
    assert_eq!(
        other.update_ne_bytes(&mut buffer[..len]),
        Err(MetadataUpdateError::ChangedIsDrive)
    );
    let mut other = drive();
    other.children = Some(11);
    assert_eq!(
        other.update_ne_bytes(&mut buffer[..len]),
        Err(MetadataUpdateError::ChangedChildren)
    );
    let mut other = drive();
    other.reserved_space = Some(1);
    assert_eq!(
        other.update_ne_bytes(&mut buffer[..len]),
        Err(MetadataUpdateError::ChangedDriveInfo)
    );
    let mut other = drive();
    other.files = u64::MAX;
    assert_eq!(
        other.update_ne_bytes(&mut buffer[..len]),
        Err(MetadataUpdateError::TooLargeFileCount)
    );
    let mut other = drive();
    other.folders = u64::MAX;
    assert_eq!(
        other.update_ne_bytes(&mut buffer[..len]),
        Err(MetadataUpdateError::TooLargeFolderCount)
    );
    let mut other = drive();
    other.free_space = Some(u64::MAX);
    assert_eq!(
        other.update_ne_bytes(&mut buffer[..len]),
        Err(MetadataUpdateError::TooLargeDriveInfo)
    );
    let mut other = drive();
    other.modified = Timestamp::new(1970, 1, 86399, 0).unwrap();
    assert_eq!(
        other.update_ne_bytes(&mut buffer[..len]),
        Err(MetadataUpdateError::TooLargeModified)
    );
}

#[test]
fn numbers_are_stored_with_their_size() {
    for value in [0, 1, 127, 128, 254, 255, 256, 65_535, 65_536, 1 << 40, u64::MAX] {
        let mut buffer = [0u8; 16];
        let used = write_dyn_sized_int(&mut buffer, 2, value);
        assert_eq!(read_dyn_sized_int(&buffer, 2), (value, used));
        assert_eq!(update_dyn_sized_int(&mut buffer, 2, 0), Some(used));
        assert_eq!(read_dyn_sized_int(&buffer, 2), (0, used));
    }
}

#[test]
fn records_become_metadata_and_records() {
    let record = WizTreeCsvRecord {
        file_name: "C:\\folder\\".to_string(),
        size: 10,
        allocated: 20,
        modified: Timestamp::new(2020, 366, 1, 0).unwrap(),
        attributes: 17,
        files: 3,
        folders: 4,
        ..WizTreeCsvRecord::default()
    };
    let info = FsEntryMetadata::from_csv_record(&record);
    assert!(info.is_dir);
    assert_eq!(info.children, None);
    assert_eq!((info.size, info.allocated, info.files, info.folders), (10, 20, 3, 4));
    assert!(!info.has_drive_info());
    let again = info.to_csv_record_without_filename();
    assert_eq!(again.file_name, "");
    assert_eq!(WizTreeCsvRecord { file_name: record.file_name.clone(), ..again }, record);
}

#[test]
fn folders_can_be_emptied() {
    let info = drive();
    assert!(info.has_drive_info());
    let empty = info.into_dir_without_size();
    assert_eq!((empty.size, empty.allocated), (0, 0));
    let empty = empty.into_entry_with_0_files_and_folders();
    assert_eq!((empty.files, empty.folders), (0, 0));
    assert_eq!(empty.into_entry_with_0_children().children, Some(0));
    assert_eq!(empty.free_space, Some(5432));
}

#[test]
fn times_have_texts() {
    let time = Timestamp::new(2024, 60, 86341, 0).unwrap();
    assert_eq!(time.to_text(), "2024-02-29 23:59:01");
    assert_eq!(Timestamp::from_text("2024-02-29 23:59:01"), Some(time));
    assert_eq!(Timestamp::from_text("2023-02-29 23:59:01"), None);
    assert_eq!(Timestamp::from_text("yesterday"), None);
}

#[test]
fn times_are_counted_from_1970() {
    assert_eq!(Timestamp::default().unix_timestamp(), 0);
    let time = Timestamp::new(2001, 252, 6400, 0).unwrap();
    assert_eq!(time.unix_timestamp(), 1_000_000_000);
    assert_eq!(Timestamp::from_unix_timestamp(1_000_000_000), Some(time));
    assert_eq!(Timestamp::from_unix_timestamp(-1), Timestamp::new(1969, 365, 86399, 0));
    assert_eq!(Timestamp::from_unix_timestamp(i64::MAX), None);
    let time = Timestamp::new(2001, 252, 6400, 1_500_000).unwrap();
    assert_eq!(time.unix_timestamp_micros(), 1_000_000_000_001_500);
}

#[test]
fn only_existing_times_can_be_made() {
    assert_eq!(Timestamp::new(2023, 366, 0, 0), None);
    assert!(Timestamp::new(2024, 366, 0, 0).is_some());
    assert_eq!(Timestamp::new(2024, 0, 0, 0), None);
    assert_eq!(Timestamp::new(2024, 1, 86400, 0), None);
    assert_eq!(Timestamp::new(2024, 1, 58, 1_000_000_000), None);
    assert!(Timestamp::new(2024, 1, 59, 1_000_000_000).unwrap().is_valid());
}
