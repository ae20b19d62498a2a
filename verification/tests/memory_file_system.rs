use file_system_backup::winfsp_memfs::{
    is_directory_request, MemFsError, WinFspMemFsContextState, WinFspMemFsFile, WinFspMemFsFileId,
};

fn units(text: &str) -> Vec<u16> {
    text.encode_utf16().collect()
}

fn example() -> (WinFspMemFsContextState, WinFspMemFsFileId, WinFspMemFsFileId) {
    let mut state = WinFspMemFsContextState::new();
    let folder = state.make_node(&units("\\folder"), true, Vec::new()).unwrap();
    let file = state
        .make_node(&units("\\folder/hello.txt"), false, b"Hello world!".to_vec())
        .unwrap();
    (state, folder, file)
}

#[test]
fn made_files_are_found() {
    let (state, folder, file) = example();
    let found = state.lookup_node(&units("\\folder\\hello.txt"), None).unwrap();
    assert_eq!(found.node, Some(file));
    assert_eq!(found.parent, folder);
    assert_eq!(found.name, units("hello.txt"));
    assert_eq!(state.read(file, 100, 0), b"Hello world!");
    let found = state.lookup_node(&units("\\folder\\missing"), None).unwrap();
    assert_eq!(found.node, None);
    assert_eq!(found.parent, folder);
    let found = state.lookup_node(&units("\\"), None).unwrap();
    assert_eq!(found.node, Some(WinFspMemFsFileId(1)));
    let node = state.get_node(&units("\\folder"), None).unwrap().unwrap();
    assert_eq!(node.file_attributes(), 0x10);
    assert!(state.get_node(&units(""), Some(WinFspMemFsFileId(77))).unwrap().is_none());
}

#[test]
fn names_have_a_largest_length() {
    let mut state = WinFspMemFsContextState::new();
    let long = units(&"x".repeat(256));
    assert!(matches!(state.lookup_node(&long, None), Err(MemFsError::NameTooLong)));
    assert_eq!(state.make_node(&long, false, Vec::new()), Err(MemFsError::NameTooLong));
    assert!(state.make_node(&units(&"x".repeat(255)), false, Vec::new()).is_ok());
}

#[test]
fn files_are_made_once() {
    let (mut state, _, _) = example();
    assert_eq!(
        state.make_node(&units("folder"), false, Vec::new()),
        Err(MemFsError::AlreadyExists)
    );
}

#[test]
fn files_and_folders_are_told_apart() {
    let (mut state, folder, file) = example();
    let hello = units("folder\\hello.txt");
    assert_eq!(state.open_node(&hello, Some(true)), Err(MemFsError::NotADirectory));
    assert_eq!(state.open_node(&units("folder"), Some(false)), Err(MemFsError::IsADirectory));
    assert_eq!(state.open_node(&units("nothing"), None), Err(MemFsError::NotFound));
    assert!(state.has_free_number());
    assert!(state.can_open_node(&hello) && state.can_open_node(&units("nothing")));
    assert_eq!(state.open_node(&hello, Some(false)), Ok(file));
    assert_eq!(state.open_node(&units("folder"), None), Ok(folder));
    assert_eq!(state.get_security_by_name(&units("folder")), Ok(0x10));
    assert_eq!(state.get_security_by_name(&hello), Ok(0));
    assert_eq!(state.get_security_by_name(&units("nothing")), Err(MemFsError::NotFound));
    assert!(is_directory_request(0x21));
    assert!(!is_directory_request(0x20));
}

#[test]
fn open_files_stay_until_they_are_closed() {
    let (mut state, _, file) = example();
    let hello = units("folder\\hello.txt");
    assert_eq!(state.open_node(&hello, None), Ok(file));
    assert_eq!(state.remove_node(&hello, None), Ok(()));
    assert_eq!(state.lookup_node(&hello, None).unwrap().node, None);
    assert_eq!(state.read(file, 5, 0), b"Hello");
    state.close_node(file);
    assert!(state.get_node(&hello, Some(file)).unwrap().is_none());
}

#[test]
fn folders_with_entries_stay() {
    let (mut state, _, file) = example();
    assert_eq!(
        state.remove_node(&units("folder"), None),
        Err(MemFsError::DirectoryNotEmpty)
    );
    assert_eq!(
        state.remove_node(&units("folder"), Some(false)),
        Err(MemFsError::IsADirectory)
    );
    let hello = units("folder\\hello.txt");
    assert_eq!(state.remove_node(&hello, Some(true)), Err(MemFsError::NotADirectory));
    assert_eq!(state.remove_node(&units("nothing"), None), Err(MemFsError::NotFound));
    assert_eq!(state.remove_node(&hello, None), Ok(()));
    assert!(state.get_node(&hello, Some(file)).unwrap().is_none());
    assert_eq!(state.remove_node(&units("folder"), Some(true)), Ok(()));
}

#[test]
fn folders_are_listed() {
    let (mut state, folder, _) = example();
    state.make_node(&units("folder\\inner"), true, Vec::new()).unwrap();
    let entries = state.read_directory(folder);
    assert_eq!(entries.len(), 2);
    assert_eq!(entries[0].name, units("hello.txt"));
    assert_eq!((entries[0].info.attributes, entries[0].info.size), (0, 12));
    assert_eq!(entries[1].name, units("inner"));
    assert_eq!((entries[1].info.attributes, entries[1].info.size), (0x10, 0));
}

#[test]
fn written_bytes_are_read() {
    let (mut state, _, file) = example();
    let (written, info) = state.write(file, &b"J".to_vec(), 0, false, false);
    assert_eq!((written, info.unwrap().size), (1, 12));
    assert_eq!(state.read(file, 5, 0), b"Jello");
    let (written, info) = state.write(file, &b"d, bye".to_vec(), 10, false, false);
    assert_eq!((written, info.unwrap().size), (6, 16));
    assert_eq!(state.read(file, 100, 0), b"Jello world, bye");
    let (written, _) = state.write(file, &b"!".to_vec(), 3, true, false);
    assert_eq!(written, 1);
    assert_eq!(state.read(file, 100, 10), b"d, bye!");
    let (written, info) = state.write(file, &b"XYZ".to_vec(), 16, false, true);
    assert_eq!((written, info), (1, None));
    assert_eq!(state.read(file, 100, 13), b"byeX");
    assert_eq!(state.read(file, 100, 1000), b"");
    let (written, _) = state.write(file, &b"end".to_vec(), 1000, false, false);
    assert_eq!(written, 3);
    assert_eq!(state.read(file, 3, 17), b"end");
    assert_eq!(state.get_file_info(file).size, 20);
}

#[test]
fn used_space_is_not_free() {
    let (state, _, _) = example();
    let info = state.get_volume_info();
    assert_eq!((info.total_size, info.free_size), (1_000_000_000, 999_999_988));
}

#[test]
fn files_move_to_other_folders() {
    let (mut state, folder, file) = example();
    assert_eq!(state.rename(file, &units("\\moved.txt"), false), Ok(()));
    let found = state.lookup_node(&units("moved.txt"), None).unwrap();
    assert_eq!(found.node, Some(file));
    assert_eq!(state.read_directory(folder).len(), 0);
    assert_eq!(state.read(file, 5, 0), b"Hello");
}

#[test]
fn files_can_replace_others() {
    let (mut state, folder, file) = example();
    let other = state.make_node(&units("other"), false, Vec::new()).unwrap();
    assert_eq!(
        state.rename(file, &units("other"), false),
        Err(MemFsError::AlreadyExists)
    );
    assert_eq!(
        state.rename(other, &units("folder"), true),
        Err(MemFsError::DirectoryNotEmpty)
    );
    assert_eq!(
        state.rename(file, &units("no\\such\\folder"), true),
        Err(MemFsError::NotADirectory)
    );
    assert_eq!(state.rename(file, &units("other"), true), Ok(()));
    assert!(state.get_node(&units(""), Some(other)).unwrap().is_none());
    assert_eq!(state.lookup_node(&units("other"), None).unwrap().node, Some(file));
    assert_eq!(state.read_directory(folder).len(), 0);
}

#[test]
fn files_cannot_replace_themselves() {
    let (state, folder, file) = example();
    assert!(state.is_renamable(file, &units("moved.txt"), false));
    assert!(state.is_renamable(file, &units("folder"), false));
    assert!(state.is_renamable(folder, &units("folder"), true));
    assert!(!state.is_renamable(WinFspMemFsFileId(99), &units("moved.txt"), false));
}

#[test]
fn closed_files_are_lost_if_they_replace_themselves() {
    let mut state = WinFspMemFsContextState::new();
    let file = state.make_node(&units("file"), false, Vec::new()).unwrap();
    assert!(!state.is_renamable(file, &units("file"), true));
    assert_eq!(state.open_node(&units("file"), None), Ok(file));
    assert!(state.is_renamable(file, &units("file"), true));
}

#[test]
fn files_can_be_changed_in_place() {
    let (mut state, folder, file) = example();
    let node = state.get_node_mut(&units("folder\\hello.txt"), None).unwrap().unwrap();
    node.data = b"Bye".to_vec();
    assert_eq!(state.read(file, 100, 0), b"Bye");
    assert_eq!(state.read_directory(folder)[0].info.size, 3);
    assert!(state.get_node_mut(&units("missing"), None).unwrap().is_none());
    assert!(state.get_node_mut(&units(""), Some(WinFspMemFsFileId(77))).unwrap().is_none());
    let long = units(&"x".repeat(256));
    assert!(matches!(state.get_node_mut(&long, None), Err(MemFsError::NameTooLong)));
}

#[test]
fn files_in_no_folder_are_gone() {
    let file = WinFspMemFsFile::new(WinFspMemFsFileId(9), false);
    assert!(file.can_delete());
    assert!(!WinFspMemFsFile::new(WinFspMemFsFileId(1), true).can_delete());
    let info = file.fill_in_file_info();
    assert_eq!((info.attributes, info.hard_links, info.size), (0, 1, 0));
}
