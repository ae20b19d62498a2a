use file_system_backup::cleanup::{
    after_attempt, bytes_to_wide, keep_failed, message_bytes, wide_to_bytes, CleanupAction,
    CleanupCommand, CleanupEvent, CleanupPaths, CleanupRun, CleanupStage, CleanupStep,
    CleanupWarning, RemoveResult,
};

#[test]
fn commands_have_numbers() {
    for (code, command) in [
        CleanupCommand::AddTempFile,
        CleanupCommand::AddTempDir,
        CleanupCommand::RemoveTempFile,
        CleanupCommand::RemoveTempDir,
        CleanupCommand::Quit,
    ]
    .into_iter()
    .enumerate()
    {
        assert_eq!(command.code(), code as u32);
        assert_eq!(CleanupCommand::from_code(code as u32), Ok(command));
    }
    assert_eq!(CleanupCommand::from_code(5), Err(5));
}

#[test]
fn messages_are_received() {
    let mut bytes = message_bytes(CleanupCommand::AddTempDir, &b"/tmp/x".to_vec());
    assert_eq!(bytes[..8], [1, 0, 0, 0, 6, 0, 0, 0]);
    bytes.extend(message_bytes(CleanupCommand::Quit, &Vec::new()));
    let mut stage = CleanupStage::Command;
    let mut at = 0;
    let mut messages = Vec::new();
    loop {
        let wanted = stage.wanted();
        let piece = bytes[at..at + wanted].to_vec();
        at += wanted;
        match stage.receive(&piece).unwrap() {
            CleanupEvent::More => {}
            CleanupEvent::Message(command, path) => messages.push((command, path)),
            CleanupEvent::Quit => break,
        }
    }
    assert_eq!(at, bytes.len());
    assert_eq!(messages, [(CleanupCommand::AddTempDir, b"/tmp/x".to_vec())]);
}

/// What is left to remove at the end of a stream, nothing after quitting.
fn follow(bytes: &[u8]) -> Result<Option<(Vec<Vec<u8>>, Vec<Vec<u8>>)>, u32> {
    let mut run = CleanupRun::new();
    let mut at = 0;
    loop {
        let end = at + run.wanted();
        match run.handle(bytes.get(at..end).map(|piece| piece.to_vec())) {
            CleanupAction::Read => {}
            CleanupAction::Apply(command, path) => {
                run.apply(command, path);
            }
            CleanupAction::Stop => return Ok(None),
            CleanupAction::Remove(files, dirs) => return Ok(Some((files, dirs))),
            CleanupAction::Fail(code) => return Err(code),
        }
        at = end;
    }
}

#[test]
fn streams_are_followed_to_their_end() {
    let a = b"/tmp/a".to_vec();
    let b = b"/tmp/b".to_vec();
    let mut bytes = message_bytes(CleanupCommand::AddTempFile, &a);
    bytes.extend(message_bytes(CleanupCommand::AddTempDir, &b));
    bytes.extend(message_bytes(CleanupCommand::AddTempFile, &Vec::new()));
    bytes.extend(message_bytes(CleanupCommand::RemoveTempFile, &a));
    assert_eq!(follow(&bytes), Ok(Some((vec![Vec::new()], vec![b.clone()]))));

    let last = message_bytes(CleanupCommand::RemoveTempDir, &b);
    for len in 0..last.len() {
        let mut broken = bytes.clone();
        broken.extend(&last[..len]);
        assert_eq!(follow(&broken), Ok(Some((vec![Vec::new()], vec![b.clone()]))));
    }

    let mut quit = bytes.clone();
    quit.extend(message_bytes(CleanupCommand::Quit, &Vec::new()));
    quit.extend(b"anything");
    assert_eq!(follow(&quit), Ok(None));

    let mut unknown = bytes;
    unknown.extend([5, 0, 0, 0, 1]);
    assert_eq!(follow(&unknown), Err(5));
}

#[test]
fn unknown_commands_are_refused() {
    let mut stage = CleanupStage::Command;
    assert!(matches!(stage.receive(&vec![9, 1, 0, 0]), Err(265)));
    assert_eq!(stage, CleanupStage::Command);
}

#[test]
fn paths_are_remembered_until_they_are_removed() {
    let mut paths = CleanupPaths::new();
    let file = b"/tmp/file".to_vec();
    let dir = b"/tmp/dir".to_vec();
    assert_eq!(paths.apply(CleanupCommand::AddTempFile, file.clone()), None);
    assert_eq!(
        paths.apply(CleanupCommand::AddTempFile, file.clone()),
        Some(CleanupWarning::FileAlreadyAdded)
    );
    assert_eq!(paths.apply(CleanupCommand::AddTempDir, dir.clone()), None);
    assert_eq!(
        paths.apply(CleanupCommand::AddTempDir, dir.clone()),
        Some(CleanupWarning::DirAlreadyAdded)
    );
    assert_eq!(paths.apply(CleanupCommand::RemoveTempFile, file.clone()), None);
    assert_eq!(
        paths.apply(CleanupCommand::RemoveTempFile, file),
        Some(CleanupWarning::FileNeverAdded)
    );
    assert_eq!(
        paths.apply(CleanupCommand::RemoveTempDir, b"/tmp/other".to_vec()),
        Some(CleanupWarning::DirNeverAdded)
    );
    assert_eq!(paths.into_lists(), (Vec::new(), vec![dir]));
}

#[test]
fn warnings_name_the_path() {
    assert_eq!(
        CleanupWarning::FileAlreadyAdded.message("/tmp/a"),
        "Warning: added temp file path while it already existed: \"/tmp/a\""
    );
    assert_eq!(
        CleanupWarning::DirNeverAdded.message("/tmp/a"),
        "Warning: tried to remove/forget temp directory path \"/tmp/a\" that didn't exist \
        (was never added)"
    );
}

#[test]
fn failed_paths_are_tried_again() {
    let paths = vec![b"a".to_vec(), b"b".to_vec(), b"c".to_vec()];
    let results = vec![RemoveResult::Removed, RemoveResult::Failed, RemoveResult::NotFound];
    assert_eq!(keep_failed(&paths, &results), [b"b".to_vec()]);
    assert_eq!(after_attempt(0, 0, 99_999_999), CleanupStep::Done);
    assert_eq!(after_attempt(1, 0, 0), CleanupStep::RetryAfter(500));
    assert_eq!(after_attempt(0, 1, u64::MAX), CleanupStep::TimedOut);
}

#[test]
fn wide_texts_are_kept() {
    let units = vec![0x41, 0x2f3, 0xffff, 0xd800];
    let bytes = wide_to_bytes(&units);
    assert_eq!(bytes, [0x41, 0, 0xf3, 2, 0xff, 0xff, 0, 0xd8]);
    assert_eq!(bytes_to_wide(&bytes), units);
    assert_eq!(bytes_to_wide(&vec![1, 0, 2]), [1]);
}
