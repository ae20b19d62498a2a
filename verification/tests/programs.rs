use std::sync::Arc;

use edirstat_core::arena::{
    precompute_dir_counts, FileArenaSnapshot, FileNode, NodeStorage, StringPool,
};
use file_system_backup::backup::{
    can_scan_using_mft, choose_scan_method, index_of_scan, name_is_mft, synthesize_attributes,
    BackupOpts, EDirStatBackupOpts, ScanMethod, ScanPathError, ScannedEntry,
};
use file_system_backup::edirstat_snapshot::{
    edirstat_snapshot_to_fs_index, index_of_nodes, node_record, SnapshotError, SnapshotNode,
    SnapshotWalk, NO_NODE,
};
use file_system_backup::file_type::{
    resolve_file_type, wiz_tree_type_of_extension, BackupFileType,
};
use file_system_backup::fs_build::FsIndexBuildOptions;
use file_system_backup::logging::{
    default_filter, level_padding, verbosity_level, CommonOpt, LogLevel, VerbosityWarning,
};
use file_system_backup::output::{
    create_options, output_description, OutputOpts, OutputStages, RsyncableOpts,
};
use file_system_backup::qdirstat_open::{CacheError, CachePlan, QDirStatOpenOpts};
use file_system_backup::rsyncable::Rsyncable;
use file_system_backup::text_format::{append_decimal, append_hex, replace_char, trim_matches};
use file_system_backup::text_lines::{
    split_lines, split_words, text_ends_with, text_has_inside, text_is_blank,
};
use file_system_backup::timestamp::Timestamp;
use file_system_backup::wiztree::{
    classify_first_line, export_argument, first_output, is_64bit_architecture, is_missing_library,
    is_size_limit, possible_wiz_tree_paths, should_reset_estimate, should_update_progress,
    wiz_tree_exe_name, AdminCheck, FirstLine, InstallVariables, OpenError, OpenPlan, ProcessInfo,
    RunAction, RunEvent, RunResult, RunSettings, WizTreeBackupOpts, WizTreeOpenOpts, WizTreeRun,
};

const COMMON: CommonOpt = CommonOpt { verbose: 0, quiet: 0 };

fn output() -> OutputOpts {
    OutputOpts {
        uncompressed: false,
        rsyncable: RsyncableOpts { rsyncable: false },
        compression: None,
        overwrite: false,
        no_file_extension: false,
    }
}

#[test]
fn file_types_are_guessed_from_names() {
    let guess = BackupFileType::from_file_name;
    assert_eq!(guess("C.CSV.GZ"), Some(BackupFileType::WizTreeCsvGzip));
    assert_eq!(guess("c.csv"), Some(BackupFileType::WizTreeCsv));
    assert_eq!(guess("home.cache.gz"), Some(BackupFileType::QDirStatCacheGzip));
    assert_eq!(guess("home.cache"), Some(BackupFileType::QDirStatCache));
    assert_eq!(guess("x.edst.zst"), Some(BackupFileType::EDirStatSnapshotZstd));
    assert_eq!(guess("x.edst"), Some(BackupFileType::EDirStatSnapshot));
    assert_eq!(guess("x.gz"), None);
    assert_eq!(BackupFileType::from_file_path(None), None);
    assert_eq!(BackupFileType::from_file_path(Some("a.csv")), Some(BackupFileType::WizTreeCsv));
    assert_eq!(BackupFileType::from_lowercase_name("a.CSV"), None);
}

#[test]
fn file_types_have_names() {
    let all = BackupFileType::all();
    assert_eq!(all.len(), 7);
    for one in all {
        assert_eq!(BackupFileType::from_str(one.as_str()), Ok(one));
        assert_eq!(BackupFileType::from_str(&one.as_str().to_uppercase()), Ok(one));
    }
    assert_eq!(
        BackupFileType::from_str("zip"),
        Err("\"zip\" is not a valid backup file type".to_string())
    );
    assert_eq!(
        BackupFileType::Auto.ensure_valid_type(&vec![BackupFileType::WizTreeCsv]),
        Err("File type was auto but only the following formats are supported: wiztree-csv"
            .to_string())
    );
    assert_eq!(BackupFileType::Auto.ensure_valid_type(&BackupFileType::all()), Ok(()));
}

#[test]
fn given_file_types_win() {
    let csv = BackupFileType::WizTreeCsv;
    assert_eq!(resolve_file_type(csv, Some(BackupFileType::QDirStatCache)), Some(csv));
    assert_eq!(resolve_file_type(BackupFileType::Auto, Some(csv)), Some(csv));
    assert_eq!(resolve_file_type(BackupFileType::Auto, None), None);
    assert_eq!(wiz_tree_type_of_extension(Some("GZ")), Some(BackupFileType::WizTreeCsvGzip));
    assert_eq!(wiz_tree_type_of_extension(Some("csv")), Some(csv));
    assert_eq!(wiz_tree_type_of_extension(Some("txt")), None);
    assert_eq!(wiz_tree_type_of_extension(None), None);
}

#[test]
fn verbosity_has_levels() {
    assert_eq!(verbosity_level(0), None);
    assert_eq!(verbosity_level(3), Some(LogLevel::Info));
    assert_eq!(verbosity_level(9), Some(LogLevel::Trace));
    let plan = COMMON.configure_logging();
    assert_eq!((plan.level, plan.warning), (Some(LogLevel::Info), None));
    let plan = CommonOpt { verbose: 4, quiet: 0 }.configure_logging();
    assert_eq!(plan.warning, Some(VerbosityWarning::TooHigh));
    assert_eq!((plan.number, plan.reported), (7, 5));
    let plan = CommonOpt { verbose: 0, quiet: 4 }.configure_logging();
    assert_eq!((plan.level, plan.warning), (None, Some(VerbosityWarning::TooLow)));
    assert_eq!(default_filter(Some(LogLevel::Warn)), "warn");
    assert_eq!(default_filter(None), "off");
    assert_eq!(LogLevel::Warn.as_str().len() + level_padding(LogLevel::Warn).len(), 5);
    assert_eq!(LogLevel::Debug.as_str().len() + level_padding(LogLevel::Debug).len(), 5);
}

#[test]
fn output_paths_get_an_extension() {
    assert_eq!(output().extension(false), Some("csv.gz"));
    assert_eq!(output().extension(true), None);
    assert_eq!(OutputOpts { uncompressed: true, ..output() }.extension(false), Some("csv"));
    assert_eq!(OutputOpts { no_file_extension: true, ..output() }.extension(false), None);
    assert_eq!(output_description(None), "stdout");
    assert_eq!(output_description(Some("x.csv")), "a file at \"x.csv\"");
}

#[test]
fn output_goes_through_stages() {
    assert_eq!(output().stages(), OutputStages::Compressed(None));
    let level = OutputOpts { compression: Some(12), ..output() };
    assert_eq!(level.unusual_level(), Some(12));
    assert_eq!(OutputOpts { compression: Some(9), ..output() }.unusual_level(), None);
    let split = OutputOpts { rsyncable: RsyncableOpts { rsyncable: true }, ..level };
    assert_eq!(split.stages(), OutputStages::SplitAndCompressed(Some(12)));
    let plain = OutputOpts { uncompressed: true, ..level };
    assert_eq!(plain.stages(), OutputStages::Plain);
    assert_eq!(plain.unusual_level(), None);
}

#[test]
fn files_are_overwritten_on_request() {
    assert!(create_options(false).create_new);
    assert!(!create_options(false).truncate);
    let options = OutputOpts { overwrite: true, ..output() }.create_options();
    assert!(options.truncate && options.create && !options.create_new);
}

#[test]
fn similar_data_is_split_at_the_same_places() {
    let mut seed: u32 = 1;
    let mut data = Vec::new();
    for _ in 0..40_000 {
        seed = seed.wrapping_mul(1_103_515_245).wrapping_add(12_345);
        data.push((seed >> 16) as u8);
    }
    let splits = |data: &[u8]| {
        let mut out = Rsyncable::new(());
        let mut at = 0;
        let mut places = Vec::new();
        while at < data.len() {
            let piece = out.next_piece(&data[at..]);
            at += piece.len;
            if piece.flush {
                places.push(data.len() - at);
            }
            out.advance(piece);
        }
        places
    };
    let all = splits(&data);
    assert!(!all.is_empty());
    let mut longer = b"something in front".to_vec();
    longer.extend_from_slice(&data);
    let common: Vec<usize> =
        splits(&longer).into_iter().filter(|place| *place + 12 <= data.len()).collect();
    let wanted: Vec<usize> = all.into_iter().filter(|place| *place + 12 <= data.len()).collect();
    assert_eq!(common, wanted);
}

#[test]
fn cuts_do_not_move_splits() {
    let mut seed: u32 = 9;
    let mut data = Vec::new();
    for _ in 0..40_000 {
        seed = seed.wrapping_mul(1_103_515_245).wrapping_add(12_345);
        data.push((seed >> 16) as u8);
    }
    let splits = |step: usize| {
        let mut out = Rsyncable::new(());
        let mut done = 0;
        let mut places = Vec::new();
        for cut in data.chunks(step) {
            let mut at = 0;
            while at < cut.len() {
                let piece = out.next_piece(&cut[at..]);
                at += piece.len;
                if piece.flush {
                    places.push(done + at);
                }
                out.advance(piece);
            }
            done += cut.len();
        }
        (places, out.hash)
    };
    let whole = splits(data.len());
    assert!(!whole.0.is_empty());
    for step in [1, 7, 1000] {
        assert_eq!(splits(step), whole);
    }
}

#[test]
fn scans_depend_on_rights() {
    assert_eq!(choose_scan_method(true, false, false), Some(ScanMethod::Mft));
    assert_eq!(choose_scan_method(true, false, true), Some(ScanMethod::Walk));
    assert_eq!(choose_scan_method(false, true, false), Some(ScanMethod::WalkWithoutRights));
    assert_eq!(choose_scan_method(false, false, false), None);
    let opts = BackupOpts {
        common: COMMON,
        output: output(),
        custom_root: None,
        allow_non_admin_scan: false,
        prefer_non_admin_scan: false,
        normal_priority: false,
    };
    assert_eq!(opts.scan_method(true), Some(ScanMethod::Mft));
    assert_eq!(opts.scan_method(false), None);
    assert!(can_scan_using_mft(true, Some(true), None));
    assert!(!can_scan_using_mft(false, Some(true), Some(true)));
}

#[test]
fn scanned_paths_are_checked() {
    let opts = EDirStatBackupOpts {
        common: COMMON,
        output: output(),
        custom_root: None,
        same_filesystem: false,
        allow_non_admin_scan: true,
        prefer_non_admin_scan: false,
        normal_priority: false,
    };
    assert_eq!(opts.check_path(false, false, None, true), Err(ScanPathError::DoesNotExist));
    assert_eq!(
        opts.check_path(true, false, Some("file"), true),
        Err(ScanPathError::NotADirectory)
    );
    assert_eq!(opts.check_path(true, false, Some("$mft"), true), Ok(ScanMethod::Mft));
    assert_eq!(opts.check_path(true, true, None, false), Ok(ScanMethod::WalkWithoutRights));
    let strict = EDirStatBackupOpts { allow_non_admin_scan: false, ..opts };
    assert_eq!(strict.check_path(true, true, None, false), Err(ScanPathError::MissingRights));
    assert!(name_is_mft("$MFT"));
    assert!(!name_is_mft("mft"));
}

#[test]
fn scanned_entries_become_an_index() {
    let entry = |path: &str, is_dir: bool, size: u64, blocks: Option<u64>| {
        ScannedEntry {
            path: path.to_string(),
            is_dir,
            size,
            blocks,
            modified: None,
            attributes: synthesize_attributes(true, is_dir),
        }
        .into_record()
    };
    assert!(entry("/x", false, 1, Some(u64::MAX)).is_none());
    let records = vec![
        entry("/x", true, 0, None).unwrap(),
        entry("/x/file", false, 100, Some(8)).unwrap(),
    ];
    assert_eq!(records[0].file_name, "/x/");
    assert_eq!((records[0].attributes, records[1].attributes), (0x11, 0x21));
    assert_eq!(records[1].allocated, 4096);
    let index = index_of_scan(&records, Some("/y")).unwrap();
    let listed = index.csv_iter(None, '/', false).collect();
    assert_eq!(listed[0].file_name, "/y/");
    assert_eq!((listed[0].size, listed[0].allocated, listed[0].files), (100, 4096, 1));
    assert_eq!(listed[1].file_name, "/y/file");
    assert!(index_of_scan(&Vec::new(), None).is_none());
}

fn node(name: &str, parent: u32, first: Option<u32>, next: Option<u32>) -> SnapshotNode {
    SnapshotNode {
        name: Some(name.to_string()),
        size: 7,
        modified: 1_000_000_000,
        is_directory: first.is_some(),
        parent,
        first_child: first,
        next_sibling: next,
        file_count: 2,
        dir_count: Some(1),
    }
}

#[test]
fn snapshots_are_walked_along_their_links() {
    let nodes = vec![
        node("root", 0, Some(1), None),
        node("folder", 0, Some(3), Some(2)),
        node("file", 0, None, None),
        node("inner", 1, None, None),
    ];
    let mut walk = SnapshotWalk::new(nodes);
    let mut places = Vec::new();
    while let Some(place) = walk.next().unwrap() {
        places.push(place);
    }
    assert_eq!(places, [0, 1, 3, 2]);
    assert_eq!(walk.node(3).unwrap().name, Some("inner".to_string()));
    assert!(walk.node(4).is_none());
    assert_eq!(SnapshotWalk::new(Vec::new()).next(), Ok(None));
    let mut broken = SnapshotWalk::new(vec![node("root", 0, Some(9), None)]);
    assert_eq!(broken.next(), Err(SnapshotError::BrokenLink));
}

#[test]
fn snapshot_nodes_become_records() {
    let record = node_record(&node("folder", 0, Some(3), None), false, "C:\\folder").unwrap();
    assert_eq!(record.file_name, "C:\\folder\\");
    assert_eq!((record.size, record.attributes), (7, 0x10));
    assert_eq!((record.files, record.folders), (2, 1));
    assert_eq!(record.modified, Timestamp::new(2001, 252, 6400, 0).unwrap());
    let mut other = node("a/b", 0, None, None);
    assert_eq!(
        node_record(&other, false, "C:\\a/b").err(),
        Some(SnapshotError::SeparatorInName)
    );
    other.modified = i64::MAX;
    assert_eq!(node_record(&other, true, "C:\\").err(), Some(SnapshotError::InvalidTime));
    other = node(" ", 0, None, None);
    assert_eq!(node_record(&other, false, "C:\\x").unwrap().file_name, "C:\\x\\unknown");
}

#[test]
fn nodes_become_indexes() {
    let options = || FsIndexBuildOptions {
        recount_children: false,
        recalculate_folder_size: false,
        resort: false,
        custom_root: None,
    };
    let paths = |texts: &[&str]| texts.iter().map(|t| t.to_string()).collect::<Vec<String>>();
    let nodes = vec![
        node("C:", NO_NODE, Some(1), None),
        node("folder", 0, Some(3), Some(2)),
        node("file.txt", 0, None, None),
        node("inner", 1, None, None),
    ];
    let full = paths(&["C:", "C:\\folder", "C:\\file.txt", "C:\\folder\\inner"]);
    let index = index_of_nodes(nodes, &full, options()).unwrap();
    let listed = index.csv_iter(None, '\\', false).collect();
    let names: Vec<&str> = listed.iter().map(|r| r.file_name.as_str()).collect();
    assert_eq!(names, ["C:\\", "C:\\folder\\", "C:\\folder\\inner", "C:\\file.txt"]);
    assert_eq!((listed[1].size, listed[1].attributes), (7, 0x10));
    assert_eq!((listed[3].files, listed[3].attributes), (0, 0x20));

    let empty = index_of_nodes(Vec::new(), &Vec::new(), options()).unwrap();
    assert!(empty.root().is_none());
    let elsewhere = vec![node("C:", NO_NODE, Some(1), None), node("file", 0, None, None)];
    assert_eq!(
        index_of_nodes(elsewhere, &paths(&["C:", "C:\\no\\file"]), options()).err(),
        Some(SnapshotError::NotAnIndex)
    );
}

#[test]
fn snapshots_become_indexes() {
    let options = FsIndexBuildOptions {
        recount_children: false,
        recalculate_folder_size: false,
        resort: false,
        custom_root: None,
    };
    let mut pool = StringPool::new();
    let mut nodes = Vec::new();
    let parts = [("C:\\", None, true), ("folder", Some(0), true), ("file", Some(1), false)];
    for (name, parent, is_dir) in parts {
        let id = pool.get_or_insert(name.as_bytes());
        nodes.push(FileNode::new(id, parent, is_dir, false, 1_000_000_000, 0));
    }
    nodes[0].first_child = 1;
    nodes[1].first_child = 2;
    nodes[1].file_count = 1;
    nodes[2].size = 77;
    let snapshot = |nodes: Vec<FileNode>, pool: &StringPool| FileArenaSnapshot {
        dir_counts: Arc::new(precompute_dir_counts(&nodes)),
        nodes: Arc::new(NodeStorage::Owned(nodes)),
        string_pool: Arc::new(pool.clone()),
    };
    let index = edirstat_snapshot_to_fs_index(snapshot(nodes, &pool), options).unwrap();
    let listed = index.csv_iter(None, '\\', false).collect();
    let names: Vec<&str> = listed.iter().map(|r| r.file_name.as_str()).collect();
    assert_eq!(names, ["C:\\", "C:\\folder\\", "C:\\folder\\file"]);
    assert_eq!((listed[0].folders, listed[1].files, listed[2].size), (1, 1, 77));
    assert_eq!(listed[2].modified, Timestamp::new(2001, 252, 6400, 0).unwrap());

    let options = FsIndexBuildOptions {
        recount_children: false,
        recalculate_folder_size: false,
        resort: false,
        custom_root: None,
    };
    let id = pool.get_or_insert(b"own parent");
    let endless = vec![FileNode::new(id, Some(0), true, false, 0, 0)];
    assert_eq!(
        edirstat_snapshot_to_fs_index(snapshot(endless, &pool), options).err(),
        Some(SnapshotError::BrokenLink)
    );
}

#[test]
fn snapshots_can_have_any_root() {
    for (root, wanted) in [
        ("/", ["/", "/folder/", "/folder/file"]),
        ("C:", ["C:/", "C:/folder/", "C:/folder/file"]),
        ("/mnt/", ["/mnt/", "/mnt/folder/", "/mnt/folder/file"]),
        ("data", ["data/", "data/folder/", "data/folder/file"]),
    ] {
        let mut pool = StringPool::new();
        let mut nodes = Vec::new();
        let parts = [(root, None, true), ("folder", Some(0), true), ("file", Some(1), false)];
        for (name, parent, is_dir) in parts {
            let id = pool.get_or_insert(name.as_bytes());
            nodes.push(FileNode::new(id, parent, is_dir, false, 0, 0));
        }
        nodes[0].first_child = 1;
        nodes[1].first_child = 2;
        let snapshot = FileArenaSnapshot {
            dir_counts: Arc::new(precompute_dir_counts(&nodes)),
            nodes: Arc::new(NodeStorage::Owned(nodes)),
            string_pool: Arc::new(pool),
        };
        let index = edirstat_snapshot_to_fs_index(snapshot, FsIndexBuildOptions::default());
        let listed = index.unwrap().csv_iter(None, '/', false).collect();
        let names: Vec<&str> = listed.iter().map(|r| r.file_name.as_str()).collect();
        assert_eq!(names, wanted);
    }
}

#[test]
fn caches_are_made_if_needed() {
    let opts = |file_type: BackupFileType| QDirStatOpenOpts {
        common: COMMON,
        file_type,
        root: None,
    };
    let auto = opts(BackupFileType::Auto);
    let plan = |has_file: bool, guessed: BackupFileType| {
        auto.convert_to_qdirstat_cache(has_file, Some(guessed)).unwrap()
    };
    assert_eq!(plan(true, BackupFileType::QDirStatCache), CachePlan::Forward);
    assert_eq!(plan(false, BackupFileType::QDirStatCache), CachePlan::Compress);
    assert_eq!(plan(true, BackupFileType::QDirStatCacheGzip), CachePlan::Forward);
    assert_eq!(plan(false, BackupFileType::QDirStatCacheGzip), CachePlan::Copy);
    assert_eq!(plan(true, BackupFileType::WizTreeCsv), CachePlan::Convert);
    assert_eq!(plan(true, BackupFileType::WizTreeCsvGzip), CachePlan::DecompressAndConvert);
    assert!(matches!(
        auto.convert_to_qdirstat_cache(true, None),
        Err(CacheError::UnknownType)
    ));
    assert!(matches!(
        opts(BackupFileType::EDirStatSnapshot).convert_to_qdirstat_cache(true, None),
        Err(CacheError::Unsupported(_))
    ));
}

#[test]
fn programs_are_found_in_known_places() {
    let variables = InstallVariables {
        user_profile: Some("C:\\Users\\me".to_string()),
        user_name: None,
        program_files: Some("C:\\Program Files".to_string()),
    };
    assert!(is_64bit_architecture(9));
    assert!(!is_64bit_architecture(0));
    assert_eq!(wiz_tree_exe_name(true), "WizTree64.exe");
    let paths = possible_wiz_tree_paths(&variables, true);
    assert_eq!(paths[0], ["WizTree64.exe"]);
    assert_eq!(paths[1], ["C:\\Program Files", "WizTree", "WizTree64.exe"]);
    assert_eq!(paths[3], ["C:\\Users\\me", "scoop", "shims", "WizTree64.exe"]);
    assert_eq!(paths.len(), 5);
}

#[test]
fn donation_lines_are_removed() {
    let line = b"Generated by WizTree (You can hide this message by making a donation)\n".to_vec();
    assert_eq!(classify_first_line(&line), FirstLine::Donation);
    assert_eq!(classify_first_line(b"File Name,Size"), FirstLine::Normal);
    assert_eq!(classify_first_line(&[0xff, 0xfe]), FirstLine::NotText);
    assert_eq!(first_output(line.clone(), false), Vec::<u8>::new());
    assert_eq!(first_output(line.clone(), true), line);
    assert_eq!(first_output(vec![0xff], false), [0xff]);
    assert!(export_argument("C:\\out.csv").contains("C:\\out.csv"));
}

#[test]
fn rights_are_checked_before_a_scan() {
    let opts = |allow: bool| WizTreeBackupOpts {
        common: COMMON,
        output: output(),
        keep_donation_line: false,
        allow_non_admin_scan: allow,
        normal_priority: false,
    };
    assert_eq!(opts(false).check_rights(true), AdminCheck::Fast);
    assert_eq!(opts(true).check_rights(false), AdminCheck::Slow);
    assert_eq!(opts(false).check_rights(false), AdminCheck::Refused);
    assert!(is_missing_library(1285));
    assert!(!is_missing_library(1284));
    assert!(is_size_limit(true, Some(223)));
    assert!(!is_size_limit(false, Some(223)));
    assert!(should_update_progress(false, 1_000_000));
    assert!(!should_update_progress(true, 1_000_000));
    assert!(!should_reset_estimate(10, 10));
}

#[test]
fn backups_are_opened_by_type() {
    let opts = WizTreeOpenOpts { common: COMMON, file_type: BackupFileType::Auto };
    let csv = Some(BackupFileType::WizTreeCsv);
    assert_eq!(opts.plan(true, true, csv), Ok(OpenPlan::Direct));
    assert_eq!(opts.plan(true, false, csv), Ok(OpenPlan::Copy));
    assert_eq!(
        opts.plan(true, true, Some(BackupFileType::WizTreeCsvGzip)),
        Ok(OpenPlan::Decompress)
    );
    assert_eq!(opts.plan(false, true, csv), Err(OpenError::MissingRights));
    assert_eq!(opts.plan(true, true, None), Err(OpenError::UnknownType));
    assert_eq!(
        opts.plan(true, true, Some(BackupFileType::QDirStatCache)),
        Err(OpenError::UnsupportedType)
    );
}

#[test]
fn runs_try_all_places() {
    let settings = RunSettings { places: 2, has_job: false, own_id: 1 };
    let (mut run, action) = WizTreeRun::new(settings);
    assert_eq!(action, RunAction::Start(0));
    assert_eq!(run.handle(RunEvent::StartFailed { canceled: false }), RunAction::Start(1));
    assert_eq!(run.handle(RunEvent::Started { id: 50, canceled: false }), RunAction::Poll);
    assert_eq!(run.handle(RunEvent::StillRunning), RunAction::Wait(25));
    assert_eq!(run.handle(RunEvent::Waited), RunAction::Poll);
    assert_eq!(
        run.handle(RunEvent::Exited { success: true, code: Some(0), elapsed: 5000 }),
        RunAction::Finish(RunResult::Success)
    );
    let none = RunSettings { places: 0, ..settings };
    assert_eq!(WizTreeRun::new(none).1, RunAction::Finish(RunResult::NoPlaces));
    let (mut run, _) = WizTreeRun::new(RunSettings { places: 1, ..settings });
    assert_eq!(
        run.handle(RunEvent::StartFailed { canceled: false }),
        RunAction::Finish(RunResult::NotStarted)
    );
}

#[test]
fn next_place_is_tried_before_canceling() {
    let settings = RunSettings { places: 3, has_job: false, own_id: 1 };
    let failed = |canceled: bool| RunEvent::StartFailed { canceled };
    let started = |canceled: bool| RunEvent::Started { id: 50, canceled };
    let canceled = RunAction::Finish(RunResult::Canceled);
    let (mut run, _) = WizTreeRun::new(settings);
    assert_eq!(run.handle(started(true)), RunAction::Poll);
    let (mut run, _) = WizTreeRun::new(settings);
    assert_eq!(run.handle(failed(true)), RunAction::Start(1));
    assert_eq!(run.handle(started(true)), canceled);
    let (mut run, _) = WizTreeRun::new(settings);
    assert_eq!(run.handle(failed(false)), RunAction::Start(1));
    assert_eq!(run.handle(failed(false)), RunAction::Start(2));
    assert_eq!(run.handle(failed(true)), canceled);
    let (mut run, _) = WizTreeRun::new(RunSettings { places: 1, ..settings });
    assert_eq!(run.handle(failed(true)), RunAction::Finish(RunResult::NotStarted));
}

#[test]
fn canceled_runs_are_stopped() {
    let settings = RunSettings { places: 1, has_job: false, own_id: 1 };
    let (mut run, _) = WizTreeRun::new(settings);
    run.handle(RunEvent::Started { id: 50, canceled: false });
    run.handle(RunEvent::StillRunning);
    assert_eq!(run.handle(RunEvent::Canceled), RunAction::Kill);
    assert_eq!(run.handle(RunEvent::WasKilled), RunAction::Finish(RunResult::Killed));
}

#[test]
fn runs_follow_other_processes() {
    let settings = RunSettings { places: 1, has_job: true, own_id: 1 };
    let (mut run, _) = WizTreeRun::new(settings);
    run.handle(RunEvent::Started { id: 50, canceled: false });
    assert_eq!(
        run.handle(RunEvent::Exited { success: true, code: Some(0), elapsed: 1 }),
        RunAction::ListProcesses
    );
    assert_eq!(
        run.handle(RunEvent::Processes(vec![0, 1, 60, 61])),
        RunAction::Inspect(vec![60, 61])
    );
    let wiz_tree = ProcessInfo { exe_name: Some("WizTree64.exe".to_string()), parent: Some(50) };
    let other = ProcessInfo { exe_name: Some("cmd.exe".to_string()), parent: Some(50) };
    assert_eq!(
        run.handle(RunEvent::Inspected(vec![Some(wiz_tree), Some(other)])),
        RunAction::ListProcesses
    );
    assert_eq!(run.handle(RunEvent::Processes(vec![60])), RunAction::Wait(500));
    assert_eq!(run.handle(RunEvent::Waited), RunAction::ListProcesses);
    assert_eq!(
        run.handle(RunEvent::Processes(vec![61])),
        RunAction::Finish(RunResult::Success)
    );
}

#[test]
fn quick_and_failed_runs_are_reported() {
    let settings = RunSettings { places: 1, has_job: false, own_id: 1 };
    let (mut run, _) = WizTreeRun::new(settings);
    run.handle(RunEvent::Started { id: 50, canceled: false });
    assert_eq!(
        run.handle(RunEvent::Exited { success: true, code: Some(0), elapsed: 999 }),
        RunAction::Finish(RunResult::SuspiciouslyQuick)
    );
    let (mut run, _) = WizTreeRun::new(settings);
    run.handle(RunEvent::Started { id: 50, canceled: false });
    assert_eq!(
        run.handle(RunEvent::Exited { success: false, code: Some(3), elapsed: 999 }),
        RunAction::Finish(RunResult::Failed(Some(3)))
    );
}

#[test]
fn texts_are_taken_apart() {
    assert!(text_is_blank(" \t"));
    assert!(!text_is_blank(" a"));
    assert_eq!(split_words(" a  bc\td "), ["a", "bc", "d"]);
    assert_eq!(split_lines("a\r\nb\n\nc"), ["a", "b", "", "c"]);
    assert!(text_ends_with("abc", "bc"));
    assert!(text_has_inside("abcd", "bc"));
    assert!(!text_has_inside("abcd", "cb"));
    assert_eq!(trim_matches("//a/b//", '/'), "a/b");
    assert_eq!(replace_char("a\\b", '\\', '/'), "a/b");
    let mut text = String::new();
    append_decimal(&mut text, 1050);
    text.push(' ');
    append_hex(&mut text, 255);
    assert_eq!(text, "1050 0xff");
}
