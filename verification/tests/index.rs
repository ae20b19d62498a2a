use file_system_backup::fs_build::FsIndexBuildOptions;
use file_system_backup::fs_builder::{CsvIndexError, FsIndexBuilder};
use file_system_backup::fs_cursor::FsCursor;
use file_system_backup::fs_index::{FsChildren, FsIndex};
use file_system_backup::metadata::FsEntryMetadata;
use file_system_backup::sorting::sort_entries;
use file_system_backup::timestamp::Timestamp;
use file_system_backup::wiztree_csv::WizTreeCsvRecord;

fn record(path: &str, size: u64, files: u64, folders: u64) -> WizTreeCsvRecord {
    WizTreeCsvRecord {
        file_name: path.to_string(),
        size,
        allocated: size * 2,
        modified: Timestamp::new(2024, 60, 0, 0).unwrap(),
        attributes: 16,
        files,
        folders,
        ..WizTreeCsvRecord::default()
    }
}

fn records() -> Vec<WizTreeCsvRecord> {
    vec![
        record("C:\\", 60, 3, 2),
        record("C:\\sub\\", 50, 2, 1),
        record("C:\\sub\\inner\\", 30, 1, 0),
        record("C:\\sub\\inner\\deep.txt", 30, 0, 0),
        record("C:\\sub\\file.bin", 20, 0, 0),
        record("C:\\a b.txt", 10, 0, 0),
    ]
}

fn options<'a>() -> FsIndexBuildOptions<'a> {
    FsIndexBuildOptions {
        recount_children: false,
        recalculate_folder_size: false,
        resort: false,
        custom_root: None,
    }
}

fn paths(records: &[WizTreeCsvRecord]) -> Vec<&str> {
    records.iter().map(|record| record.file_name.as_str()).collect()
}

#[test]
fn records_are_recreated() {
    let index = FsIndex::from_csv_records(&records(), options());
    assert_eq!(index.csv_iter(None, '\\', false).collect(), records());
}

#[test]
fn root_path_and_separator_can_be_chosen() {
    let index = FsIndex::from_csv_records(&records(), options());
    let listed = index.csv_iter(Some("/mnt"), '/', false).collect();
    assert_eq!(
        paths(&listed),
        [
            "/mnt/",
            "/mnt/sub/",
            "/mnt/sub/inner/",
            "/mnt/sub/inner/deep.txt",
            "/mnt/sub/file.bin",
            "/mnt/a b.txt"
        ]
    );
}

#[test]
fn files_can_get_an_extension() {
    let list = vec![record("C:\\", 1, 1, 0), record("C:\\Makefile", 1, 0, 0)];
    let index = FsIndex::from_csv_records(&list, options());
    let listed = index.csv_iter(None, '\\', true).collect();
    assert_eq!(paths(&listed), ["C:\\", "C:\\Makefile."]);
}

#[test]
fn records_can_be_read_one_by_one() {
    let index = FsIndex::from_csv_records(&records(), options());
    let mut iter = index.csv_iter(None, '\\', false);
    for wanted in records() {
        assert_eq!(iter.next(), Some(wanted));
    }
    assert_eq!(iter.next(), None);
    assert_eq!(iter.next(), None);
}

#[test]
fn custom_root_replaces_the_root_path() {
    let custom = FsIndexBuildOptions { custom_root: Some("D:"), ..options() };
    let index = FsIndex::from_csv_records(&records(), custom);
    let listed = index.csv_iter(None, '\\', false).collect();
    assert_eq!(listed[0].file_name, "D:\\");
    assert_eq!(listed[3].file_name, "D:\\sub\\inner\\deep.txt");
}

#[test]
fn folders_can_be_recounted() {
    let mut wrong = records();
    for i in [0, 1, 2] {
        wrong[i].files = 0;
        wrong[i].folders = 0;
        wrong[i].size = 0;
        wrong[i].allocated = 0;
    }
    let all = FsIndexBuildOptions {
        recount_children: true,
        recalculate_folder_size: true,
        ..options()
    };
    let index = FsIndex::from_csv_records(&wrong, all);
    assert_eq!(index.csv_iter(None, '\\', false).collect(), records());
    let index = FsIndex::from_csv_records(&wrong, options());
    assert_eq!(index.csv_iter(None, '\\', false).collect(), wrong);
}

#[test]
fn entries_can_be_sorted() {
    let list = vec![
        record("C:\\", 0, 3, 2),
        record("C:\\b.txt", 0, 0, 0),
        record("C:\\Zoo\\", 0, 0, 0),
        record("C:\\A.txt", 0, 0, 0),
        record("C:\\apes\\", 0, 0, 0),
        record("C:\\a.txt", 0, 0, 0),
    ];
    let sorted = FsIndexBuildOptions { resort: true, ..options() };
    let index = FsIndex::from_csv_records(&list, sorted);
    let listed = index.csv_iter(None, '\\', false).collect();
    assert_eq!(
        paths(&listed),
        ["C:\\", "C:\\apes\\", "C:\\Zoo\\", "C:\\A.txt", "C:\\a.txt", "C:\\b.txt"]
    );
}

#[test]
fn sorting_keeps_all_records() {
    let list = vec![
        record("C:\\", 1, 4, 2),
        record("C:\\z.txt", 2, 0, 0),
        record("C:\\sub\\", 3, 2, 1),
        record("C:\\sub\\b", 4, 0, 0),
        record("C:\\sub\\a", 5, 0, 0),
        record("C:\\sub\\x\\", 6, 0, 0),
        record("C:\\A.txt", 7, 0, 0),
    ];
    let list_with = |resort: bool| {
        let index = FsIndex::from_csv_records(&list, FsIndexBuildOptions { resort, ..options() });
        index.csv_iter(None, '\\', false).collect()
    };
    let mut sorted = list_with(true);
    assert_eq!(
        paths(&sorted),
        [
            "C:\\",
            "C:\\sub\\",
            "C:\\sub\\x\\",
            "C:\\sub\\a",
            "C:\\sub\\b",
            "C:\\A.txt",
            "C:\\z.txt"
        ]
    );
    let mut unsorted = list_with(false);
    assert_eq!(unsorted, list);
    sorted.sort_by(|a, b| a.file_name.cmp(&b.file_name));
    unsorted.sort_by(|a, b| a.file_name.cmp(&b.file_name));
    assert_eq!(sorted, unsorted);
}

#[test]
fn folders_have_the_totals_of_their_entries() {
    let list = vec![
        record("C:\\", 0, 0, 0),
        record("C:\\one", 1, 0, 0),
        record("C:\\sub\\", 0, 0, 0),
        record("C:\\sub\\two", 2, 0, 0),
        record("C:\\sub\\empty\\", 50, 0, 0),
        record("C:\\four", 4, 0, 0),
    ];
    let all = FsIndexBuildOptions {
        recount_children: true,
        recalculate_folder_size: true,
        resort: true,
        custom_root: None,
    };
    let listed = FsIndex::from_csv_records(&list, all).csv_iter(None, '\\', false).collect();
    let totals: Vec<(&str, u64, u64, u64, u64)> = listed
        .iter()
        .map(|r| (r.file_name.as_str(), r.size, r.allocated, r.files, r.folders))
        .collect();
    assert_eq!(
        totals,
        [
            ("C:\\", 7, 14, 3, 2),
            ("C:\\sub\\", 2, 4, 1, 1),
            ("C:\\sub\\empty\\", 0, 0, 0, 0),
            ("C:\\sub\\two", 2, 4, 0, 0),
            ("C:\\four", 4, 8, 0, 0),
            ("C:\\one", 1, 2, 0, 0),
        ]
    );
}

#[test]
fn listed_indexes_are_restored() {
    let all = FsIndexBuildOptions {
        recount_children: true,
        recalculate_folder_size: true,
        resort: true,
        custom_root: Some("/mnt/drive"),
    };
    for options in [options(), all] {
        let first = FsIndex::from_csv_records(&records(), options);
        let listed = first.csv_iter(None, '\\', false).collect();
        let second = FsIndex::from_csv_records(&listed, FsIndexBuildOptions::default());
        assert_eq!(second.csv_iter(None, '\\', false).collect(), listed);
        let name = |index: &FsIndex| index.root().unwrap().file_name(index).to_string();
        assert_eq!(name(&second), name(&first));
        assert_eq!(second.path_count(), first.path_count());
        assert_eq!(second.length_of_all_paths(), first.length_of_all_paths());
    }
    let odd = FsIndexBuildOptions { custom_root: Some("C:\\"), ..options() };
    let first = FsIndex::from_csv_records(&records(), odd);
    assert_eq!(first.root().unwrap().file_name(&first), "C:\\");
    let listed = first.csv_iter(None, '\\', false).collect();
    let second = FsIndex::from_csv_records(&listed, FsIndexBuildOptions::default());
    assert_eq!(second.root().unwrap().file_name(&second), "C:");
}

#[test]
fn sorting_gives_places() {
    let names = vec![
        ("b".to_string(), false),
        ("C".to_string(), false),
        ("z".to_string(), true),
        ("a".to_string(), false),
    ];
    assert_eq!(sort_entries(&names), [2, 3, 0, 1]);
}

#[test]
fn records_must_start_with_a_folder() {
    let file = record("C:\\file", 1, 0, 0);
    assert!(FsIndexBuilder::new(&file, options()).is_none());
    let list = vec![file];
    assert!(FsIndex::checked_from_csv_records_with_root(&list, &list[0], options()).is_none());
}

#[test]
fn builder_makes_the_same_index() {
    let list = records();
    let mut builder = FsIndexBuilder::new(&list[0], options()).unwrap();
    for one in &list[1..] {
        assert!(builder.push(one));
    }
    let index = builder.finish().unwrap();
    assert_eq!(index.csv_iter(None, '\\', false).collect(), list);
}

#[test]
fn failed_records_are_reported() {
    let none: Vec<Result<WizTreeCsvRecord, u8>> = vec![];
    assert!(matches!(
        FsIndex::try_from_csv_records(none, options()),
        Err(CsvIndexError::NoRecords)
    ));
    let mut list: Vec<Result<WizTreeCsvRecord, u8>> = records().into_iter().map(Ok).collect();
    list.push(Err(7));
    list.push(Err(8));
    assert!(matches!(
        FsIndex::try_from_csv_records(list, options()),
        Err(CsvIndexError::Record(7))
    ));
    let list: Vec<Result<WizTreeCsvRecord, u8>> = vec![Err(9)];
    assert!(matches!(
        FsIndex::try_from_csv_records(list, options()),
        Err(CsvIndexError::Record(9))
    ));
    let list: Vec<Result<WizTreeCsvRecord, u8>> = records().into_iter().map(Ok).collect();
    match FsIndex::try_from_csv_records(list, options()) {
        Ok(index) => assert_eq!(index.csv_iter(None, '\\', false).collect(), records()),
        Err(_) => panic!("no record failed"),
    }
}

#[test]
fn another_root_can_be_given() {
    let all = records();
    let rest: Vec<Result<WizTreeCsvRecord, u8>> = all[1..].iter().cloned().map(Ok).collect();
    match FsIndex::try_from_csv_records_with_root(rest, &all[0], options()) {
        Ok(index) => assert_eq!(index.csv_iter(None, '\\', false).collect(), all),
        Err(_) => panic!("no record failed"),
    }
}

#[test]
fn cache_files_list_folders_with_their_files() {
    let index = FsIndex::from_csv_records(&records(), options());
    let lines = index.qdirstat_iter(None).with_owner(7, 8).collect();
    assert_eq!(
        lines,
        [
            "[qdirstat 2.0 cache file]\n# Type\tpath\tsize\tuid\tgid\tperm\tmtime",
            "D /C%3A\t0\t7\t8\t0755\t0x65dfc900",
            "F\ta%20b.txt\t10\t7\t8\t0644\t0x65dfc900",
            "D /C%3A%2Fsub\t0\t7\t8\t0755\t0x65dfc900",
            "F\tfile.bin\t20\t7\t8\t0644\t0x65dfc900",
            "D /C%3A%2Fsub%2Finner\t0\t7\t8\t0755\t0x65dfc900",
            "F\tdeep.txt\t30\t7\t8\t0644\t0x65dfc900",
        ]
    );
}

#[test]
fn cache_files_have_a_default_owner() {
    let list = vec![record("/home/", 0, 0, 0)];
    let index = FsIndex::from_csv_records(&list, options());
    let mut iter = index.qdirstat_iter(None);
    assert!(iter.next().unwrap().starts_with("[qdirstat 2.0"));
    assert_eq!(iter.next().unwrap(), "D /home\t0\t1000\t1000\t0755\t0x65dfc900");
    assert_eq!(iter.next(), None);
}

#[test]
fn owners_can_be_changed_between_lines() {
    let index = FsIndex::from_csv_records(&records(), options());
    let mut iter = index.qdirstat_iter(None);
    assert!(iter.next().unwrap().starts_with("[qdirstat 2.0"));
    assert_eq!(iter.next().unwrap(), "D /C%3A\t0\t1000\t1000\t0755\t0x65dfc900");
    let mut iter = iter.with_owner(7, 8);
    assert_eq!(iter.next().unwrap(), "F\ta%20b.txt\t10\t7\t8\t0644\t0x65dfc900");
    let mut iter = iter.with_owner(9, 10);
    assert_eq!(iter.next().unwrap(), "D /C%3A%2Fsub\t0\t9\t10\t0755\t0x65dfc900");
    assert_eq!(iter.collect().len(), 3);
}

#[test]
fn cursor_finds_paths() {
    let index = FsIndex::from_csv_records(&records(), options());
    let mut cursor = FsCursor::new('/');
    let root = index.root().unwrap();
    assert!(cursor.set_root(root, Some("/"), &index));
    assert!(cursor.go_to_path("/sub/file.bin", &index));
    assert_eq!(cursor.current_path(), "/sub/file.bin");
    let entry = cursor.current_id().unwrap().load_metadata(&index).unwrap();
    assert_eq!(entry.metadata().size, 20);
    assert!(cursor.go_to_path("/sub/inner", &index));
    assert_eq!(cursor.current_path(), "/sub/inner/");
    assert!(!cursor.go_to_path("/sub/missing", &index));
    assert!(cursor.go_to_path("/", &index));
    assert_eq!(cursor.current_id(), Some(root));
}

#[test]
fn cursor_selects_the_closest_folder() {
    let index = FsIndex::from_csv_records(&records(), options());
    let mut cursor = FsCursor::new('/');
    cursor.set_root(index.root().unwrap(), Some("/"), &index);
    assert!(!cursor.go_to_path("/sub/file.bin/x", &index));
    assert_eq!(cursor.current_path(), "/sub/");
    assert!(!cursor.go_to_path("/a b.txt/x/y", &index));
    assert_eq!(cursor.current_path(), "/");
    assert!(cursor.go_to_path("/a b.txt", &index));
    assert!(!cursor.go_to_path("elsewhere", &index));
    assert_eq!(cursor.current_path(), "/");
    cursor.advance(&index);
    cursor.advance(&index);
    assert_eq!(cursor.current_path(), "/sub/inner/");
    assert!(cursor.go_to_path("/sub/file.bin", &index));
    assert_eq!(cursor.current_path(), "/sub/file.bin");
    assert_eq!(cursor.root(), index.root());
}

#[test]
fn cursor_can_ignore_case() {
    let index = FsIndex::from_csv_records(&records(), options());
    let mut cursor = FsCursor::new('/');
    cursor.set_root(index.root().unwrap(), Some("/"), &index);
    cursor.set_case_sensitivity(true);
    assert!(!cursor.go_to_path("/SUB/File.bin", &index));
    cursor.set_case_sensitivity(false);
    assert!(cursor.go_to_path("/SUB/File.bin", &index));
    assert_eq!(cursor.current_path(), "/sub/file.bin");
}

#[test]
fn cursor_visits_all_entries() {
    let index = FsIndex::from_csv_records(&records(), options());
    let mut cursor = FsCursor::new('\\');
    cursor.set_root(index.root().unwrap(), None, &index);
    let mut visited = Vec::new();
    while let Some(id) = cursor.current_id() {
        visited.push((cursor.current_path().to_string(), cursor.parent_count()));
        assert!(id.metadata_id(&index).is_some());
        cursor.advance(&index);
    }
    let wanted: Vec<(String, usize)> = vec![
        ("C:\\".to_string(), 1),
        ("C:\\sub\\".to_string(), 2),
        ("C:\\sub\\inner\\".to_string(), 3),
        ("C:\\sub\\inner\\deep.txt".to_string(), 3),
        ("C:\\sub\\file.bin".to_string(), 2),
        ("C:\\a b.txt".to_string(), 1),
    ];
    assert_eq!(visited, wanted);
}

#[test]
fn cursor_selects_children() {
    let index = FsIndex::from_csv_records(&records(), options());
    let mut cursor = FsCursor::new('/');
    cursor.set_root(index.root().unwrap(), Some("/"), &index);
    assert_eq!(cursor.root(), index.root());
    assert!(cursor.select_child_by_name("sub", &index));
    let names: Vec<String> = cursor
        .current_folder_children(&index)
        .unwrap()
        .iter()
        .map(|id| id.file_name(&index).to_string())
        .collect();
    assert_eq!(names, ["inner", "file.bin"]);
    assert!(!cursor.select_child_by_name("nothing", &index));
    cursor.clear();
    assert_eq!(cursor.current_id(), None);
}

#[test]
fn cursor_goes_back_to_folders() {
    let index = FsIndex::from_csv_records(&records(), options());
    let mut cursor = FsCursor::new('/');
    cursor.set_root(index.root().unwrap(), Some("/"), &index);
    assert!(cursor.go_to_path("/sub/inner/deep.txt", &index));
    assert_eq!(cursor.parent_count(), 3);
    cursor.go_to_parent_at_index(1);
    assert_eq!(cursor.current_path(), "/sub/");
    cursor.go_to_parent_at_index(7);
    assert_eq!(cursor.current_path(), "/sub/");
}

#[test]
fn cursor_can_add_an_extension() {
    let list = vec![record("C:\\", 1, 1, 0), record("C:\\Makefile", 1, 0, 0)];
    let index = FsIndex::from_csv_records_with_root(&list, &list[0], options());
    let mut cursor = FsCursor::new('\\');
    cursor.set_force_file_extension(true);
    cursor.set_root(index.root().unwrap(), None, &index);
    cursor.advance(&index);
    assert_eq!(cursor.current_path(), "C:\\Makefile.");
}

#[test]
fn entries_can_be_stored_with_their_children() {
    let info = FsEntryMetadata::from_csv_record(&record("a", 5, 0, 0));
    let mut folder_info = FsEntryMetadata::from_csv_record(&record("a\\", 6, 1, 0));
    folder_info.children = Some(1);
    let mut index = FsIndex::new();
    let root = index.add_root("top", None);
    let file = index.add_entry(info, None);
    let folder = index.add_entry(folder_info, Some(vec![("child".to_string(), file)]));
    root.set_metadata_id(Some(folder), &mut index);
    let ids = root.children(&index).unwrap().iter(&index);
    assert_eq!(ids.len(), 1);
    assert_eq!(ids[0].file_name(&index), "child");
    assert_eq!(ids[0].load_metadata(&index).unwrap().metadata().size, 5);
}

#[test]
fn index_counts_what_it_stores() {
    let index = FsIndex::from_csv_records(&records(), options());
    assert_eq!(index.metadata_count(), 6);
    assert_eq!(index.path_count(), 6);
    let names = ["C:", "sub", "inner", "deep.txt", "file.bin", "a b.txt"];
    let len: usize = names.iter().map(|name| name.len()).sum();
    assert_eq!(index.length_of_all_paths(), len as u64);
    assert!(index.estimated_size() > len);
}

#[test]
fn entries_can_be_stored_by_hand() {
    let info = FsEntryMetadata::from_csv_record(&record("a", 5, 0, 0));
    let mut folder_info = FsEntryMetadata::from_csv_record(&record("a\\", 6, 1, 0));
    folder_info.children = Some(1);
    let mut index = FsIndex::new();
    assert!(index.root().is_none());
    let root = index.add_root("top", None);
    assert!(root.load_metadata(&index).is_none());
    let file = index.add_file(info);
    let mut writer = index.add_folder(folder_info);
    assert_eq!(writer.remaining_children(), 1);
    writer.add_child("child", Some(file));
    let folder = writer.finish();
    root.set_metadata_id(Some(folder), &mut index);
    assert_eq!(index.root(), Some(root));
    assert_eq!(root.file_name(&index), "top");
    let children = root.children(&index).unwrap();
    assert_eq!(children.len(), 1);
    assert!(!children.is_empty());
    let ids = children.iter(&index);
    assert_eq!(ids[0].file_name(&index), "child");
    assert_eq!(ids[0].metadata_id(&index), Some(file));
    assert_eq!(ids[0].load_metadata(&index).unwrap().metadata().size, 5);
    ids[0].set_metadata_id(None, &mut index);
    assert!(ids[0].load_metadata(&index).is_none());
    assert!(FsChildren::empty().is_empty());
    index.shrink_to_fit();
    assert_eq!(root.file_name(&index), "top");
}

#[test]
fn stored_metadata_can_be_updated() {
    let list = records();
    let mut index = FsIndex::from_csv_records(&list, options());
    let root = index.root().unwrap();
    let entry = root.load_metadata(&index).unwrap();
    let mut info = *entry.metadata();
    info.size = 1;
    assert_eq!(entry.update_metadata(info, &mut index), Ok(()));
    let listed = index.csv_iter(None, '\\', false).collect();
    assert_eq!(listed[0].size, 1);
    assert_eq!(listed[1..], list[1..]);
}
