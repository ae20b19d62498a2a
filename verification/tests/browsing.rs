use std::sync::Arc;

use file_system_backup::file_type::{BackupFileType, CsvInput, FileSystemType};
use file_system_backup::logging::CommonOpt;
use file_system_backup::metadata::FsEntryMetadata;
use file_system_backup::mount::{
    drive_argument, find_root, mount_place, mounted_drive, mounted_entry, network_path,
    request_path, same_record, server_url, AutoCompressedFsIndex, LoadError, MountOpts, MountPlace,
    MountedDrive, NetUseError, PathPrefix, Recreation,
};
use file_system_backup::timestamp::Timestamp;
use file_system_backup::wiztree_csv::WizTreeCsvRecord;

fn record(path: &str, size: u64, files: u64, folders: u64) -> WizTreeCsvRecord {
    WizTreeCsvRecord {
        file_name: path.to_string(),
        size,
        allocated: size,
        modified: Timestamp::new(2001, 252, 6400, 0).unwrap(),
        attributes: 16,
        files,
        folders,
        ..WizTreeCsvRecord::default()
    }
}

fn records() -> Vec<WizTreeCsvRecord> {
    vec![
        record("D:\\data\\", 30, 2, 1),
        record("D:\\data\\photos\\", 20, 1, 0),
        record("D:\\data\\photos\\a.jpg", 20, 0, 0),
        record("D:\\data\\b.txt", 10, 0, 0),
    ]
}

fn data() -> Arc<Vec<u8>> {
    Arc::new(WizTreeCsvRecord::create_compressed_csv(b"the CSV of a backup"))
}

#[test]
fn backups_can_be_browsed() {
    let (index, recreation) = AutoCompressedFsIndex::from_compressed(&data(), &records()).unwrap();
    assert_eq!(recreation, Recreation::Perfect);
    assert_eq!(index.root_name(), Some("data".to_string()));
    assert_eq!(index.root().size, 30);
    let (info, entries) = index.get_directory_info("/").unwrap();
    assert_eq!(info.size, 30);
    let names: Vec<&str> = entries.iter().map(|entry| entry.name.as_str()).collect();
    assert_eq!(names, ["photos", "b.txt"]);
    assert!(index.get_directory_info("/b.txt").is_none());
    assert!(index.get_directory_info("/missing").is_none());
    assert_eq!(index.get_metadata("/photos/a.jpg", None).unwrap().size, 20);
    assert!(index.get_metadata("/photos", Some(false)).is_none());
    assert!(index.get_metadata("/photos", Some(true)).is_some());
    assert!(index.get_metadata("/b.txt", Some(true)).is_none());
    assert!(index.get_metadata("/nothing", None).is_none());
}

#[test]
fn compressed_backups_can_be_browsed_again() {
    let (mut index, _) = AutoCompressedFsIndex::from_compressed(&data(), &records()).unwrap();
    let listed = index.cached().records_to_compress().unwrap();
    assert_eq!(listed, records());
    assert!(index.cached().csv_to_parse().is_none());
    index.compress(None, b"the records");
    assert!(index.cached().records_to_compress().is_none());
    assert_eq!(index.cached().csv_to_parse(), Some(b"the records".to_vec()));
    index.compress(None, b"ignored");
    assert_eq!(index.cached().csv_to_parse(), Some(b"the records".to_vec()));
    assert!(!index.decompress(None, &Vec::new()));
    assert!(index.decompress(None, &listed));
    assert_eq!(index.get_metadata("/b.txt", None).unwrap().size, 10);
    assert_eq!(index.root().size, 30);
}

#[test]
fn what_is_in_use_is_used_again() {
    let data = data();
    let (mut index, _) = AutoCompressedFsIndex::from_compressed(&data, &records()).unwrap();
    let first = index.cached().index().unwrap().clone();
    index.compress(Some(data.clone()), b"not compressed again");
    assert!(index.cached().index().is_none());
    assert!(Arc::ptr_eq(index.cached().data().unwrap(), &data));
    assert_eq!(index.cached().csv_to_parse(), Some(b"the CSV of a backup".to_vec()));

    assert!(index.decompress(Some(first.clone()), &Vec::new()));
    assert!(Arc::ptr_eq(index.cached().index().unwrap(), &first));
    assert!(index.cached().data().is_none());

    index.compress(None, b"the records");
    assert!(!Arc::ptr_eq(index.cached().data().unwrap(), &data));
    assert!(index.decompress(None, &records()));
    assert!(!Arc::ptr_eq(index.cached().index().unwrap(), &first));
    assert_eq!(index.get_metadata("/b.txt", None).unwrap().size, 10);
}

#[test]
fn compressed_data_is_smaller() {
    let csv = "a very repetitive text ".repeat(100).into_bytes();
    let data = WizTreeCsvRecord::create_compressed_csv(&csv);
    assert!(data.len() < csv.len());
    assert_eq!(WizTreeCsvRecord::parse_compressed_csv(&data), Some(csv.clone()));
    let mut twice = data.clone();
    twice.extend_from_slice(&data);
    assert_eq!(
        WizTreeCsvRecord::parse_compressed_csv(&twice),
        Some([csv.clone(), csv].concat())
    );
    assert_eq!(WizTreeCsvRecord::parse_compressed_csv(b"not compressed"), None);
    assert_eq!(WizTreeCsvRecord::parse_compressed_csv(&data[..data.len() - 1]), None);
}

#[test]
fn root_is_the_folder_with_the_shortest_path() {
    let mut list = records();
    list.rotate_left(1);
    assert_eq!(find_root(&list), Some(3));
    assert_eq!(find_root(&vec![record("D:\\file", 1, 0, 0)]), None);
    assert!(matches!(
        AutoCompressedFsIndex::from_compressed(&data(), &vec![record("D:\\file", 1, 0, 0)]),
        Err(LoadError::NoRoot)
    ));
    let mut long = record("D:\\", 1, 0, 0);
    long.modified = Timestamp { year: 2023, ordinal: 366, secs: 0, nanos: 0 };
    assert!(matches!(
        AutoCompressedFsIndex::from_compressed(&data(), &vec![long]),
        Err(LoadError::NotAnIndex)
    ));
}

#[test]
fn different_records_are_noticed() {
    let list = records();
    assert!(same_record(&list[0], &list[0].clone()));
    assert!(!same_record(&list[0], &list[1]));
    let mut other = list.clone();
    other.rotate_left(1);
    let (_, recreation) = AutoCompressedFsIndex::from_compressed(&data(), &other).unwrap();
    assert_eq!(recreation, Recreation::Different(0));
}

#[test]
fn drive_letters_are_found() {
    let output = "Drive Q: is now connected to http://127.0.0.1:51515.\n\nDone.\n";
    assert_eq!(mounted_drive(output).map(|drive| drive.letter()).ok(), Some('Q'));
    assert_eq!(mounted_drive("").err(), Some(NetUseError::NoOutput));
    assert_eq!(
        mounted_drive("There are no available drive letters left.").err(),
        Some(NetUseError::UnexpectedLine)
    );
    assert_eq!(mounted_drive("Drive ").err(), Some(NetUseError::NoLetter));
    assert_eq!(MountedDrive::new('X').letter(), 'X');
    assert_eq!(drive_argument(Some('X')), "X:");
    assert_eq!(drive_argument(None), "*");
}

#[test]
fn file_systems_are_mounted_to_drives_or_folders() {
    assert_eq!(mount_place(false, None, false), Some(MountPlace::Drive(None)));
    assert_eq!(
        mount_place(true, Some(PathPrefix::Disk('X')), false),
        Some(MountPlace::Drive(Some('X')))
    );
    assert_eq!(
        mount_place(true, Some(PathPrefix::Disk('X')), true),
        Some(MountPlace::Folder)
    );
    assert_eq!(mount_place(true, Some(PathPrefix::Unc), false), None);
    assert_eq!(mount_place(true, Some(PathPrefix::Other), false), Some(MountPlace::Folder));
    assert_eq!(mount_place(true, None, false), Some(MountPlace::Folder));
    assert_eq!(server_url(51515), "http://127.0.0.1:51515");
    assert_eq!(network_path(8080), "//127.0.0.1@8080/DavWWWRoot");
}

#[test]
fn folders_have_no_length() {
    let info = FsEntryMetadata::from_csv_record(&records()[0]);
    let entry = mounted_entry(&info);
    assert_eq!((entry.is_dir, entry.len), (true, 0));
    let info = FsEntryMetadata::from_csv_record(&records()[3]);
    let entry = mounted_entry(&info);
    assert_eq!((entry.is_dir, entry.len), (false, 10));
    assert_eq!(entry.modified, 1_000_000_000_000_000);
}

#[test]
fn request_paths_are_decoded() {
    assert_eq!(request_path(b"/a%20b/%C3%A4"), Some("/a b/\u{e4}".to_string()));
    assert_eq!(request_path(b"/100%"), Some("/100%".to_string()));
    assert_eq!(request_path(b"/%ff"), None);
    assert_eq!(request_path(&[0x2f, 0xff]), None);
}

#[test]
fn only_lists_of_records_are_mounted() {
    let opts = MountOpts {
        common: CommonOpt { verbose: 0, quiet: 0 },
        file_type: BackupFileType::Auto,
        file_system: FileSystemType::WebDav,
    };
    assert!(matches!(
        opts.input(Some(BackupFileType::WizTreeCsvGzip)),
        Ok(CsvInput::Compressed)
    ));
    assert!(matches!(opts.input(Some(BackupFileType::WizTreeCsv)), Ok(CsvInput::Plain)));
    assert!(opts.input(None).is_err());
    assert!(opts.input(Some(BackupFileType::QDirStatCache)).is_err());
}
