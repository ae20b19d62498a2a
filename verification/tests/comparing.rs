use file_system_backup::diff::{filter_fs_index, DiffFilter, DiffOpts};
use file_system_backup::file_type::{BackupFileType, CsvInput, CsvInputError};
use file_system_backup::fs_build::FsIndexBuildOptions;
use file_system_backup::fs_index::FsIndex;
use file_system_backup::timestamp::Timestamp;
use file_system_backup::wiztree_csv::WizTreeCsvRecord;

fn record(path: &str, size: u64, files: u64, folders: u64) -> WizTreeCsvRecord {
    WizTreeCsvRecord {
        file_name: path.to_string(),
        size,
        allocated: size,
        modified: Timestamp::default(),
        attributes: 16,
        files,
        folders,
        ..WizTreeCsvRecord::default()
    }
}

fn index(records: Vec<WizTreeCsvRecord>) -> FsIndex {
    FsIndex::from_csv_records(
        &records,
        FsIndexBuildOptions {
            recount_children: false,
            recalculate_folder_size: false,
            resort: false,
            custom_root: None,
        },
    )
}

fn old_records() -> Vec<WizTreeCsvRecord> {
    vec![
        record("C:\\", 300, 3, 2),
        record("C:\\same\\", 100, 1, 0),
        record("C:\\same\\file", 100, 0, 0),
        record("C:\\grown\\", 200, 2, 0),
        record("C:\\grown\\log", 150, 0, 0),
        record("C:\\grown\\other", 50, 0, 0),
    ]
}

fn new_records() -> Vec<WizTreeCsvRecord> {
    vec![
        record("C:\\", 1000, 4, 2),
        record("C:\\same\\", 100, 1, 0),
        record("C:\\same\\file", 100, 0, 0),
        record("C:\\grown\\", 900, 3, 0),
        record("C:\\grown\\log", 550, 0, 0),
        record("C:\\grown\\other", 40, 0, 0),
        record("C:\\grown\\new", 310, 0, 0),
    ]
}

fn listed(index: &FsIndex) -> Vec<(String, u64, u64, u64)> {
    index
        .csv_iter(None, '\\', false)
        .collect()
        .into_iter()
        .map(|record| (record.file_name, record.size, record.files, record.folders))
        .collect()
}

#[test]
fn larger_files_are_kept_with_the_difference() {
    let old = index(old_records());
    let mut new = index(new_records());
    filter_fs_index(&old, &mut new, DiffFilter::NewOrLarger);
    assert_eq!(
        listed(&new),
        [
            ("C:\\".to_string(), 710, 2, 1),
            ("C:\\grown\\".to_string(), 710, 2, 0),
            ("C:\\grown\\log".to_string(), 400, 0, 0),
            ("C:\\grown\\new".to_string(), 310, 0, 0),
        ]
    );
}

#[test]
fn changed_files_are_kept_as_they_are() {
    let old = index(old_records());
    let mut new = index(new_records());
    filter_fs_index(&old, &mut new, DiffFilter::NewOrChanged);
    assert_eq!(
        listed(&new),
        [
            ("C:\\".to_string(), 900, 3, 1),
            ("C:\\grown\\".to_string(), 900, 3, 0),
            ("C:\\grown\\log".to_string(), 550, 0, 0),
            ("C:\\grown\\other".to_string(), 40, 0, 0),
            ("C:\\grown\\new".to_string(), 310, 0, 0),
        ]
    );
}

#[test]
fn nothing_differs_from_itself() {
    for filter in [DiffFilter::NewOrLarger, DiffFilter::NewOrChanged] {
        let old = index(new_records());
        let mut new = index(new_records());
        filter_fs_index(&old, &mut new, filter);
        assert_eq!(listed(&new), [("C:\\".to_string(), 0, 0, 0)]);
    }
}

#[test]
fn changed_folders_are_kept() {
    let old = index(new_records());
    let mut records = new_records();
    records[1].attributes = 18;
    let mut new = index(records);
    filter_fs_index(&old, &mut new, DiffFilter::NewOrChanged);
    assert_eq!(
        listed(&new),
        [("C:\\".to_string(), 0, 0, 1), ("C:\\same\\".to_string(), 0, 0, 0)]
    );
}

#[test]
fn everything_is_new_without_an_old_snapshot() {
    let old = FsIndex::new();
    let mut new = index(new_records());
    filter_fs_index(&old, &mut new, DiffFilter::NewOrLarger);
    assert_eq!(new.csv_iter(None, '\\', false).collect(), new_records());
}

#[test]
fn empty_folders_are_new_once() {
    let old = index(vec![record("C:\\", 0, 0, 1), record("C:\\a\\", 0, 0, 0)]);
    let both = vec![
        record("C:\\", 0, 0, 2),
        record("C:\\a\\", 0, 0, 0),
        record("C:\\b\\", 0, 0, 0),
    ];
    for filter in [DiffFilter::NewOrLarger, DiffFilter::NewOrChanged] {
        let mut new = index(both.clone());
        filter_fs_index(&old, &mut new, filter);
        assert_eq!(
            listed(&new),
            [("C:\\".to_string(), 0, 0, 1), ("C:\\b\\".to_string(), 0, 0, 0)]
        );
    }
}

#[test]
fn only_lists_of_records_are_compared() {
    let csv = BackupFileType::WizTreeCsv;
    let gzip = BackupFileType::WizTreeCsvGzip;
    assert!(matches!(
        DiffOpts::load_backup_file(BackupFileType::Auto, Some(gzip)),
        Ok(CsvInput::Compressed)
    ));
    assert!(matches!(DiffOpts::load_backup_file(csv, Some(gzip)), Ok(CsvInput::Plain)));
    assert!(matches!(
        DiffOpts::load_backup_file(BackupFileType::Auto, None),
        Err(CsvInputError::UnknownType)
    ));
    match DiffOpts::load_backup_file(BackupFileType::EDirStatSnapshot, None) {
        Err(CsvInputError::Unsupported(text)) => assert_eq!(
            text,
            "File type was edirstat-snapshot but only the following formats are supported: \
            wiztree-csv, wiztree-csv-gzip"
        ),
        _ => panic!("snapshots are not supported"),
    }
}
