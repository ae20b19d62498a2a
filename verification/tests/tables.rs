use file_system_backup::mft::{checked_total, nt_time_to_timestamp, MftData, MftEntry, MftInfo, MftRecord, MftValue};
use file_system_backup::mft_tree::{root_path, root_record, MftTable, MftWalk, RecoveredInfo};
use file_system_backup::mft_volume::{
    after_failed_attempt, ensure_ntfs, find_mount, parse_mounts, records_in_bitmap,
    windows_mft_path, GetMftError, MftCache, RetryDecision,
};
use file_system_backup::timestamp::Timestamp;

const EPOCH: u64 = 116_444_736_000_000_000;

fn record(number: u64, name: &str, parent: u64, is_dir: bool, size: u64) -> MftRecord {
    MftRecord {
        number,
        name: name.to_string(),
        parent,
        is_dir,
        data: Some(MftData { size, value: MftValue::DataRuns(vec![4096, size]) }),
        cached_size: 0,
        cached_allocated: 0,
        info: Some(MftInfo { modified: EPOCH + 10_000_000, attributes: 32 }),
    }
}

#[test]
fn times_start_in_1601() {
    assert_eq!(nt_time_to_timestamp(EPOCH), Some(Timestamp::default()));
    assert_eq!(nt_time_to_timestamp(EPOCH - 1), None);
    assert_eq!(
        nt_time_to_timestamp(EPOCH + 15_000_001),
        Timestamp::new(1970, 1, 1, 500_000_100)
    );
}

#[test]
fn sizes_are_those_of_the_contents() {
    let entry = MftEntry::from_record(record(30, "a", 5, false, 100)).unwrap();
    assert_eq!((entry.metadata.size, entry.metadata.allocated), (100, 4196));
    assert!(entry.size_success && entry.info_success);
    assert_eq!(entry.metadata.modified, Timestamp::new(1970, 1, 1, 0).unwrap());

    let mut resident = record(30, "a", 5, false, 100);
    resident.data = Some(MftData { size: 100, value: MftValue::Resident });
    let entry = MftEntry::from_record(resident).unwrap();
    assert_eq!((entry.metadata.size, entry.metadata.allocated), (100, 100));

    let mut cached = record(30, "a", 5, false, 100);
    cached.data = None;
    cached.cached_size = 70;
    cached.cached_allocated = 60;
    cached.info = None;
    let entry = MftEntry::from_record(cached).unwrap();
    assert_eq!((entry.metadata.size, entry.metadata.allocated), (70, 70));
    assert_eq!(entry.metadata.attributes, 32);
    assert!(!entry.size_success && !entry.info_success);

    let mut broken = record(30, "a", 5, false, 100);
    broken.data = Some(MftData { size: 1, value: MftValue::DataRuns(vec![u64::MAX, 1]) });
    assert!(MftEntry::from_record(broken).is_none());
    assert_eq!(checked_total(&vec![u64::MAX, 1]), None);
    assert_eq!(checked_total(&vec![1, 2, 3]), Some(6));
}

fn table() -> MftTable {
    let mut table = MftTable::new();
    for one in [
        record(5, ".", 5, true, 0),
        record(40, "file", 41, false, 10),
        record(41, "folder", 5, true, 0),
        record(42, "top", 5, false, 20),
        record(43, "lost", 99, false, 20),
    ] {
        assert!(matches!(table.push(one), Ok(None)));
    }
    table
}

#[test]
fn walks_visit_folders_before_their_entries() {
    let (root, mut walk) = MftWalk::new(table()).unwrap();
    assert_eq!(root.name, ".");
    assert_eq!(root_record(&root, "C:").file_name, "C:\\");
    let mut paths = Vec::new();
    while let Some(visit) = walk.next() {
        assert!(!visit.is_incomplete());
        paths.push(visit.to_record("C:\\", None).file_name);
    }
    assert_eq!(paths, ["C:\\folder\\", "C:\\folder\\file", "C:\\top"]);
}

#[test]
fn walks_need_a_root() {
    assert!(MftWalk::new(MftTable::new()).is_none());
}

#[test]
fn later_records_replace_earlier_ones() {
    let mut table = table();
    assert!(matches!(
        table.push(record(42, "renamed", 5, false, 1)),
        Ok(Some(name)) if name == "top"
    ));
    let mut broken = record(60, "broken", 5, false, 1);
    broken.data = Some(MftData { size: 1, value: MftValue::DataRuns(vec![u64::MAX, 1]) });
    assert!(table.push(broken).is_err());
}

#[test]
fn entries_with_the_same_name_are_merged() {
    let mut table = table();
    assert!(table.push(record(50, "top", 5, false, 5)).is_ok());
    let (_, mut walk) = MftWalk::new(table).unwrap();
    let mut found = Vec::new();
    while let Some(visit) = walk.next() {
        if visit.path == "top" {
            assert!(visit.is_incomplete());
            found.push((visit.entry.metadata.size, visit.entry.metadata.allocated));
        }
    }
    assert_eq!(found, [(25, 4096 + 20 + 4096 + 5)]);
}

#[test]
fn incomplete_entries_are_completed() {
    let mut table = table();
    let mut unknown = record(44, "unknown", 41, false, 0);
    unknown.data = None;
    unknown.info = None;
    assert!(table.push(unknown).is_ok());
    let (_, mut walk) = MftWalk::new(table).unwrap();
    let mut visits = Vec::new();
    while let Some(visit) = walk.next() {
        visits.push(visit);
    }
    let visit = visits.iter().find(|visit| visit.number == 44).unwrap();
    assert!(visit.is_incomplete());
    assert_eq!(visit.relative_path(), "folder/unknown");
    let recovered = RecoveredInfo {
        size: 9,
        modified: Timestamp::new(2020, 1, 0, 0),
        attributes: 33,
    };
    let record = visit.to_record("C:\\", Some(recovered));
    assert_eq!((record.size, record.allocated, record.attributes), (9, 9, 33));
    assert_eq!(record.modified, Timestamp::new(2020, 1, 0, 0).unwrap());
    assert_eq!(record.file_name, "C:\\folder\\unknown");
}

#[test]
fn root_paths_end_with_a_separator() {
    assert_eq!(root_path("C:"), "C:\\");
    assert_eq!(root_path("/mnt/"), "/mnt/");
}

const MOUNTS: &str = "/dev/sda1 / ext4 rw 0 0\n/dev/sdb1 /mnt/data fuseblk rw 0 0\nbroken line\n";

#[test]
fn longest_mount_point_wins() {
    let mounts = parse_mounts(MOUNTS);
    assert_eq!(mounts.len(), 2);
    assert_eq!(mounts[1].device, "/dev/sdb1");
    assert_eq!(mounts[1].mount_point, "/mnt/data");
    assert_eq!(mounts[1].file_system, "fuseblk");
    let points: Vec<Option<Vec<u8>>> =
        mounts.iter().map(|mount| Some(mount.mount_point.as_bytes().to_vec())).collect();
    assert_eq!(find_mount(&b"/mnt/data/folder".to_vec(), &points), Some(1));
    assert_eq!(find_mount(&b"/mnt/database".to_vec(), &points), Some(0));
    assert_eq!(find_mount(&b"/mnt/data".to_vec(), &vec![None]), None);
}

#[test]
fn other_file_systems_have_no_table() {
    assert!(ensure_ntfs(MOUNTS, "/dev/sdb1").is_ok());
    assert!(matches!(
        ensure_ntfs(MOUNTS, "/dev/sda1"),
        Err(GetMftError::NotNtfsVolume(_))
    ));
    match ensure_ntfs(MOUNTS, "/dev/sdc1") {
        Err(error) => assert!(error.to_text().contains("Failed to find mount entry")),
        Ok(()) => panic!("the device is not mounted"),
    }
    assert!(GetMftError::InvalidPath("x".to_string()).to_text().contains("x"));
    assert!(GetMftError::VolumeResolutionFailed("y".to_string()).to_text().contains("y"));
}

#[test]
fn volumes_have_devices() {
    assert_eq!(windows_mft_path("\\\\?\\Volume{1}\\"), "\\\\.\\Volume{1}");
    assert_eq!(windows_mft_path("C:\\"), "\\\\.\\C:");
}

#[test]
fn attempts_are_repeated() {
    assert_eq!(after_failed_attempt(0, 2), RetryDecision::Retry);
    assert_eq!(after_failed_attempt(1, 2), RetryDecision::Fail);
    assert_eq!(records_in_bitmap(3), Some(24));
    assert_eq!(records_in_bitmap(u64::MAX), None);
}

#[test]
fn stored_bytes_are_read() {
    let mut cache = MftCache::new();
    cache.store(100, vec![1, 2, 3, 4]);
    cache.store(0, vec![9]);
    assert_eq!(cache.read(101, 2), Some(vec![2, 3]));
    assert_eq!(cache.read(103, 9), Some(vec![4]));
    assert_eq!(cache.read(104, 1), None);
    assert_eq!(cache.read(0, 5), Some(vec![9]));
}
