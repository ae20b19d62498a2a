//! The protocol between a program and the process that removes its temporary files
//! if the program is killed.
use vstd::prelude::*;

use crate::dyn_int::{
    le_bytes, le_value, lemma_le_bytes_len, lemma_le_round_trip, lemma_le_value_bound,
    lemma_pow256, read_le, write_le,
};

verus! {

/// What the program tells the process.
#[derive(Debug, Clone, Copy, PartialEq, Eq, Structural)]
pub enum CleanupCommand {
    /// Remember the path of a new temporary file.
    AddTempFile,
    /// Remember the path of a new temporary directory.
    AddTempDir,
    /// Forget the path of a temporary file that was deleted already.
    RemoveTempFile,
    /// Forget the path of a temporary directory that was deleted already.
    RemoveTempDir,
    /// The program has done all cleanup itself.
    Quit,
}

impl CleanupCommand {
    /// The number that stands for the command.
    pub open spec fn spec_code(self) -> u32 {
        match self {
            CleanupCommand::AddTempFile => 0,
            CleanupCommand::AddTempDir => 1,
            CleanupCommand::RemoveTempFile => 2,
            CleanupCommand::RemoveTempDir => 3,
            CleanupCommand::Quit => 4,
        }
    }

    /// The command that a number stands for.
    pub open spec fn of_code(code: u32) -> Option<CleanupCommand> {
        if code == 0 {
            Some(CleanupCommand::AddTempFile)
        } else if code == 1 {
            Some(CleanupCommand::AddTempDir)
        } else if code == 2 {
            Some(CleanupCommand::RemoveTempFile)
        } else if code == 3 {
            Some(CleanupCommand::RemoveTempDir)
        } else if code == 4 {
            Some(CleanupCommand::Quit)
        } else {
            None
        }
    }

    pub fn code(self) -> (code: u32)
        ensures
            code == self.spec_code(),
    {
        match self {
            CleanupCommand::AddTempFile => 0,
            CleanupCommand::AddTempDir => 1,
            CleanupCommand::RemoveTempFile => 2,
            CleanupCommand::RemoveTempDir => 3,
            CleanupCommand::Quit => 4,
        }
    }

    /// The command that a number stands for, the number itself if there is none.
    pub fn from_code(code: u32) -> (command: Result<Self, u32>)
        ensures
            match Self::of_code(code) {
                Some(c) => command == Ok::<CleanupCommand, u32>(c),
                None => command == Err::<CleanupCommand, u32>(code),
            },
    {
        match code {
            0 => Ok(CleanupCommand::AddTempFile),
            1 => Ok(CleanupCommand::AddTempDir),
            2 => Ok(CleanupCommand::RemoveTempFile),
            3 => Ok(CleanupCommand::RemoveTempDir),
            4 => Ok(CleanupCommand::Quit),
            _ => Err(code),
        }
    }
}

/// Each command is found again from its number.
pub proof fn law_commands_have_numbers(command: CleanupCommand)
    ensures
        CleanupCommand::of_code(command.spec_code()) == Some(command),
{
}

/// The bytes that tell a command about a path. To quit needs no path.
pub open spec fn message(command: CleanupCommand, path: Seq<u8>) -> Seq<u8> {
    let start = le_bytes(command.spec_code() as int, 4);
    if command == CleanupCommand::Quit {
        start
    } else {
        start + le_bytes(path.len() as int, 4) + path
    }
}

/// The bytes of a number.
fn number_bytes(value: u32) -> (bytes: Vec<u8>)
    ensures
        bytes@ == le_bytes(value as int, 4),
{
    let mut buffer: [u8; 4] = [0, 0, 0, 0];
    proof {
        lemma_pow256();
    }
    write_le(&mut buffer, 0, 4, value as u64);
    let mut bytes: Vec<u8> = Vec::new();
    bytes.push(buffer[0]);
    bytes.push(buffer[1]);
    bytes.push(buffer[2]);
    bytes.push(buffer[3]);
    proof {
        assert(buffer@.subrange(0, 4) == bytes@);
    }
    bytes
}

/// The bytes that tell a command about a path.
pub fn message_bytes(command: CleanupCommand, path: &Vec<u8>) -> (bytes: Vec<u8>)
    requires
        path@.len() <= u32::MAX,
    ensures
        bytes@ == message(command, path@),
{
    let mut bytes = number_bytes(command.code());
    match command {
        CleanupCommand::Quit => {},
        _ => {
            let mut len = number_bytes(path.len() as u32);
            bytes.append(&mut len);
            let mut i: usize = 0;
            let ghost start = bytes@;
            while i < path.len()
                invariant
                    i <= path@.len(),
                    bytes@ == start + path@.take(i as int),
                decreases path@.len() - i,
            {
                bytes.push(path[i]);
                assert(bytes@ == start + path@.take(i + 1));
                i = i + 1;
            }
            assert(path@.take(i as int) == path@);
        },
    }
    bytes
}

/// What the process waits for.
#[derive(Debug, Clone, Copy, PartialEq, Eq, Structural)]
pub enum CleanupStage {
    Command,
    /// The length of the path of a command.
    Length(CleanupCommand),
    /// The path of a command.
    Path(CleanupCommand, u32),
}

/// What the process learned.
#[derive(Debug)]
pub enum CleanupEvent {
    /// A message is not complete.
    More,
    /// A command about a path.
    Message(CleanupCommand, Vec<u8>),
    Quit,
}

/// What the process learned.
pub enum EventView {
    More,
    Message(CleanupCommand, Seq<u8>),
    Quit,
}

impl View for CleanupEvent {
    type V = EventView;

    open spec fn view(&self) -> EventView {
        match self {
            CleanupEvent::More => EventView::More,
            CleanupEvent::Message(command, path) => EventView::Message(*command, path@),
            CleanupEvent::Quit => EventView::Quit,
        }
    }
}

impl CleanupStage {
    /// The number of bytes to read next.
    pub open spec fn spec_wanted(self) -> nat {
        match self {
            CleanupStage::Path(_, len) => len as nat,
            _ => 4,
        }
    }

    /// The next stage and what was learned from the wanted bytes, or a number that
    /// stands for no command.
    pub open spec fn received(self, bytes: Seq<u8>) -> Result<(CleanupStage, EventView), u32> {
        let value = le_value(bytes, 0, 4) as u32;
        match self {
            CleanupStage::Command => match CleanupCommand::of_code(value) {
                Some(CleanupCommand::Quit) => Ok((CleanupStage::Command, EventView::Quit)),
                Some(command) => Ok((CleanupStage::Length(command), EventView::More)),
                None => Err(value),
            },
            CleanupStage::Length(command) => Ok(
                (CleanupStage::Path(command, value), EventView::More),
            ),
            CleanupStage::Path(command, _) => Ok(
                (CleanupStage::Command, EventView::Message(command, bytes)),
            ),
        }
    }

    /// The number of bytes to read next.
    pub fn wanted(&self) -> (count: usize)
        ensures
            count == self.spec_wanted(),
    {
        match self {
            CleanupStage::Path(_, len) => *len as usize,
            _ => 4,
        }
    }

    /// Goes on with the wanted bytes. An error is a number that stands for no
    /// command.
    pub fn receive(&mut self, bytes: &Vec<u8>) -> (event: Result<CleanupEvent, u32>)
        requires
            bytes@.len() == old(self).spec_wanted(),
        ensures
            match old(self).received(bytes@) {
                Ok((stage, learned)) => *final(self) == stage && (event matches Ok(event) && event@
                    == learned),
                Err(code) => *final(self) == *old(self) && (event matches Err(e) && e == code),
            },
    {
        let stage = *self;
        match stage {
            CleanupStage::Path(command, _) => {
                let path = bytes.clone();
                assert(path@ == bytes@);
                *self = CleanupStage::Command;
                Ok(CleanupEvent::Message(command, path))
            },
            CleanupStage::Command => {
                let value = read_number(bytes);
                match CleanupCommand::from_code(value) {
                    Ok(CleanupCommand::Quit) => Ok(CleanupEvent::Quit),
                    Ok(command) => {
                        *self = CleanupStage::Length(command);
                        Ok(CleanupEvent::More)
                    },
                    Err(code) => Err(code),
                }
            },
            CleanupStage::Length(command) => {
                let value = read_number(bytes);
                *self = CleanupStage::Path(command, value);
                Ok(CleanupEvent::More)
            },
        }
    }
}

fn read_number(bytes: &Vec<u8>) -> (value: u32)
    requires
        bytes@.len() == 4,
    ensures
        value == le_value(bytes@, 0, 4),
{
    proof {
        lemma_pow256();
        lemma_le_value_bound(bytes@, 0, 4);
    }
    read_le(bytes.as_slice(), 0, 4) as u32
}

/// A message that is received in the pieces that are asked for is the command and
/// the path that it was made from, and the next message can follow.
pub proof fn law_messages_are_received(command: CleanupCommand, path: Seq<u8>)
    requires
        path.len() <= u32::MAX,
    ensures
        ({
            let bytes = message(command, path);
            let first = CleanupStage::Command.received(bytes.take(4));
            if command == CleanupCommand::Quit {
                &&& bytes.len() == 4
                &&& first == Ok::<(CleanupStage, EventView), u32>(
                    (CleanupStage::Command, EventView::Quit),
                )
            } else {
                let second = CleanupStage::Length(command);
                let third = CleanupStage::Path(command, path.len() as u32);
                &&& first == Ok::<(CleanupStage, EventView), u32>((second, EventView::More))
                &&& second.received(bytes.subrange(4, 8)) == Ok::<(CleanupStage, EventView), u32>(
                    (third, EventView::More),
                )
                &&& third.spec_wanted() == bytes.len() - 8
                &&& third.received(bytes.skip(8)) == Ok::<(CleanupStage, EventView), u32>(
                    (CleanupStage::Command, EventView::Message(command, path)),
                )
            }
        }),
{
    let bytes = message(command, path);
    let code = command.spec_code() as int;
    let start = le_bytes(code, 4);
    lemma_pow256();
    lemma_le_bytes_len(code, 4);
    lemma_le_bytes_len(path.len() as int, 4);
    assert(bytes.take(4) == start);
    lemma_le_round_trip(start, 0, code, 4);
    if command != CleanupCommand::Quit {
        let len = le_bytes(path.len() as int, 4);
        assert(bytes.subrange(4, 8) == len);
        lemma_le_round_trip(len, 0, path.len() as int, 4);
        assert(bytes.skip(8) == path);
    }
}

/// The paths that the process remembers.
#[verifier::ext_equal]
pub struct PathsView {
    pub files: Seq<Seq<u8>>,
    pub dirs: Seq<Seq<u8>>,
}

/// Something unexpected about a path.
#[derive(Debug, Clone, Copy, PartialEq, Eq, Structural)]
pub enum CleanupWarning {
    FileAlreadyAdded,
    DirAlreadyAdded,
    FileNeverAdded,
    DirNeverAdded,
}

impl CleanupWarning {
    /// The message about a path.
    pub fn message(self, path: &str) -> (text: String)
        ensures
            text@ == match self {
                CleanupWarning::FileAlreadyAdded =>
                    "Warning: added temp file path while it already existed: \""@ + path@ + "\""@,
                CleanupWarning::DirAlreadyAdded =>
                    "Warning: added temp directory path while it already existed: \""@ + path@
                    + "\""@,
                CleanupWarning::FileNeverAdded => "Warning: tried to remove/forget temp path \""@
                    + path@ + "\" that didn't exist (was never added)"@,
                CleanupWarning::DirNeverAdded =>
                    "Warning: tried to remove/forget temp directory path \""@ + path@
                    + "\" that didn't exist (was never added)"@,
            },
    {
        let mut text: String = match self {
            CleanupWarning::FileAlreadyAdded =>
                "Warning: added temp file path while it already existed: \"".to_owned(),
            CleanupWarning::DirAlreadyAdded =>
                "Warning: added temp directory path while it already existed: \"".to_owned(),
            CleanupWarning::FileNeverAdded =>
                "Warning: tried to remove/forget temp path \"".to_owned(),
            CleanupWarning::DirNeverAdded =>
                "Warning: tried to remove/forget temp directory path \"".to_owned(),
        };
        text.append(path);
        match self {
            CleanupWarning::FileAlreadyAdded | CleanupWarning::DirAlreadyAdded => text.append("\""),
            CleanupWarning::FileNeverAdded | CleanupWarning::DirNeverAdded => text.append(
                "\" that didn't exist (was never added)",
            ),
        }
        text
    }
}

pub open spec fn with_path(paths: Seq<Seq<u8>>, path: Seq<u8>) -> Seq<Seq<u8>> {
    if paths.contains(path) {
        paths
    } else {
        paths.push(path)
    }
}

pub open spec fn without_path(paths: Seq<Seq<u8>>, path: Seq<u8>) -> Seq<Seq<u8>> {
    if paths.contains(path) {
        paths.remove(paths.index_of(path))
    } else {
        paths
    }
}

impl PathsView {
    pub open spec fn ok(self) -> bool {
        self.files.no_duplicates() && self.dirs.no_duplicates()
    }

    /// The paths after a command, and what was unexpected about it.
    pub open spec fn applied(self, command: CleanupCommand, path: Seq<u8>) -> (
        PathsView,
        Option<CleanupWarning>,
    ) {
        let known_file = self.files.contains(path);
        let known_dir = self.dirs.contains(path);
        match command {
            CleanupCommand::AddTempFile => (
                PathsView { files: with_path(self.files, path), ..self },
                if known_file {
                    Some(CleanupWarning::FileAlreadyAdded)
                } else {
                    None
                },
            ),
            CleanupCommand::AddTempDir => (
                PathsView { dirs: with_path(self.dirs, path), ..self },
                if known_dir {
                    Some(CleanupWarning::DirAlreadyAdded)
                } else {
                    None
                },
            ),
            CleanupCommand::RemoveTempFile => (
                PathsView { files: without_path(self.files, path), ..self },
                if known_file {
                    None
                } else {
                    Some(CleanupWarning::FileNeverAdded)
                },
            ),
            CleanupCommand::RemoveTempDir => (
                PathsView { dirs: without_path(self.dirs, path), ..self },
                if known_dir {
                    None
                } else {
                    Some(CleanupWarning::DirNeverAdded)
                },
            ),
            CleanupCommand::Quit => (self, None),
        }
    }
}

/// The temporary files and directories that exist.
pub struct CleanupPaths {
    files: Vec<Vec<u8>>,
    dirs: Vec<Vec<u8>>,
}

pub open spec fn byte_views(paths: Seq<Vec<u8>>) -> Seq<Seq<u8>> {
    paths.map_values(|p: Vec<u8>| p@)
}

impl View for CleanupPaths {
    type V = PathsView;

    closed spec fn view(&self) -> PathsView {
        PathsView { files: byte_views(self.files@), dirs: byte_views(self.dirs@) }
    }
}

fn same_path(a: &Vec<u8>, b: &Vec<u8>) -> (same: bool)
    ensures
        same == (a@ == b@),
{
    if a.len() != b.len() {
        return false;
    }
    let mut i: usize = 0;
    while i < a.len()
        invariant
            i <= a@.len(),
            a@.len() == b@.len(),
            forall|k: int| 0 <= k < i ==> a@[k] == b@[k],
        decreases a@.len() - i,
    {
        if a[i] != b[i] {
            return false;
        }
        i = i + 1;
    }
    assert(a@ == b@);
    true
}

/// The place of a path.
fn find_path(paths: &Vec<Vec<u8>>, path: &Vec<u8>) -> (place: Option<usize>)
    requires
        byte_views(paths@).no_duplicates(),
    ensures
        place is Some <==> byte_views(paths@).contains(path@),
        place matches Some(i) ==> i < paths@.len() && i == byte_views(paths@).index_of(path@),
{
    let ghost all = byte_views(paths@);
    let mut i: usize = 0;
    while i < paths.len()
        invariant
            i <= paths@.len(),
            all == byte_views(paths@),
            all.no_duplicates(),
            forall|k: int| 0 <= k < i ==> all[k] != path@,
        decreases paths@.len() - i,
    {
        assert(all[i as int] == paths@[i as int]@);
        if same_path(&paths[i], path) {
            proof {
                assert(all.contains(path@));
                let found = all.index_of(path@);
                assert(all[found] == path@);
                assert(found == i);
            }
            return Some(i);
        }
        i = i + 1;
    }
    None
}

fn add_path(paths: &mut Vec<Vec<u8>>, path: Vec<u8>) -> (known: bool)
    requires
        byte_views(old(paths)@).no_duplicates(),
    ensures
        known == byte_views(old(paths)@).contains(path@),
        byte_views(final(paths)@) == with_path(byte_views(old(paths)@), path@),
        byte_views(final(paths)@).no_duplicates(),
{
    let ghost before = byte_views(paths@);
    if find_path(paths, &path).is_some() {
        return true;
    }
    let ghost added = path@;
    paths.push(path);
    proof {
        assert(byte_views(paths@) == before.push(added));
        assert(before.push(added).no_duplicates()) by {
            assert forall|i: int| 0 <= i < before.len() implies before[i] != added by {
                assert(before.contains(before[i]));
            }
        }
    }
    false
}

fn remove_path(paths: &mut Vec<Vec<u8>>, path: &Vec<u8>) -> (known: bool)
    requires
        byte_views(old(paths)@).no_duplicates(),
    ensures
        known == byte_views(old(paths)@).contains(path@),
        byte_views(final(paths)@) == without_path(byte_views(old(paths)@), path@),
        byte_views(final(paths)@).no_duplicates(),
{
    let ghost before = byte_views(paths@);
    match find_path(paths, path) {
        Some(i) => {
            let _removed = paths.remove(i);
            assert(byte_views(paths@) == before.remove(i as int));
            true
        },
        None => false,
    }
}

impl CleanupPaths {
    /// No paths.
    pub fn new() -> (paths: Self)
        ensures
            paths@ == (PathsView { files: seq![], dirs: seq![] }),
            paths@.ok(),
    {
        let paths = CleanupPaths { files: Vec::new(), dirs: Vec::new() };
        assert(paths@ == (PathsView { files: seq![], dirs: seq![] }));
        paths
    }

    /// Follows a command about a path.
    pub fn apply(&mut self, command: CleanupCommand, path: Vec<u8>) -> (warning: Option<
        CleanupWarning,
    >)
        requires
            old(self)@.ok(),
        ensures
            final(self)@.ok(),
            final(self)@ == old(self)@.applied(command, path@).0,
            warning == old(self)@.applied(command, path@).1,
    {
        match command {
            CleanupCommand::AddTempFile => {
                if add_path(&mut self.files, path) {
                    Some(CleanupWarning::FileAlreadyAdded)
                } else {
                    None
                }
            },
            CleanupCommand::AddTempDir => {
                if add_path(&mut self.dirs, path) {
                    Some(CleanupWarning::DirAlreadyAdded)
                } else {
                    None
                }
            },
            CleanupCommand::RemoveTempFile => {
                if remove_path(&mut self.files, &path) {
                    None
                } else {
                    Some(CleanupWarning::FileNeverAdded)
                }
            },
            CleanupCommand::RemoveTempDir => {
                if remove_path(&mut self.dirs, &path) {
                    None
                } else {
                    Some(CleanupWarning::DirNeverAdded)
                }
            },
            CleanupCommand::Quit => None,
        }
    }

    /// The remembered files and directories.
    pub fn into_lists(self) -> (lists: (Vec<Vec<u8>>, Vec<Vec<u8>>))
        ensures
            byte_views(lists.0@) == self@.files,
            byte_views(lists.1@) == self@.dirs,
    {
        (self.files, self.dirs)
    }
}

/// Remembering a new path and forgetting it again leaves everything as it was, with
/// nothing unexpected.
pub proof fn law_forgotten_paths_are_gone(paths: PathsView, path: Seq<u8>)
    requires
        paths.ok(),
    ensures
        !paths.files.contains(path) ==> {
            let added = paths.applied(CleanupCommand::AddTempFile, path);
            &&& added.1 is None
            &&& added.0.applied(CleanupCommand::RemoveTempFile, path) == (
                paths,
                None::<CleanupWarning>,
            )
        },
        !paths.dirs.contains(path) ==> {
            let added = paths.applied(CleanupCommand::AddTempDir, path);
            &&& added.1 is None
            &&& added.0.applied(CleanupCommand::RemoveTempDir, path) == (
                paths,
                None::<CleanupWarning>,
            )
        },
{
    if !paths.files.contains(path) {
        lemma_added_then_removed(paths.files, path);
    }
    if !paths.dirs.contains(path) {
        lemma_added_then_removed(paths.dirs, path);
    }
}

proof fn lemma_added_then_removed(paths: Seq<Seq<u8>>, path: Seq<u8>)
    requires
        !paths.contains(path),
    ensures
        with_path(paths, path).contains(path),
        without_path(with_path(paths, path), path) == paths,
{
    let more = paths.push(path);
    assert(more[paths.len() as int] == path);
    let i = more.index_of(path);
    assert(more[i] == path);
    if i < paths.len() {
        assert(paths[i] == path);
    }
    assert(more.remove(i) == paths);
}

/// How a stream of messages ends for the process.
#[verifier::ext_equal]
pub enum StreamEnd {
    /// The program has done all cleanup itself.
    Quit,
    /// The stream is over: the program is gone, and these paths are left to remove.
    Closed(PathsView),
    /// A number stands for no command.
    Unknown(u32),
}

/// How a stream ends for a process that remembers some paths and waits for
/// something: it reads what it wants again and again, until it is told to quit, too
/// few bytes are left or a number stands for no command.
pub open spec fn stream_end(stage: CleanupStage, paths: PathsView, bytes: Seq<u8>) -> StreamEnd
    decreases
            bytes.len(),
            if stage is Path {
                1int
            } else {
                0int
            },
{
    let wanted = stage.spec_wanted() as int;
    if bytes.len() < wanted {
        StreamEnd::Closed(paths)
    } else {
        match stage.received(bytes.take(wanted)) {
            Err(code) => StreamEnd::Unknown(code),
            Ok((_, EventView::Quit)) => StreamEnd::Quit,
            Ok((next, EventView::More)) => stream_end(next, paths, bytes.skip(wanted)),
            Ok((next, EventView::Message(command, path))) => stream_end(
                next,
                paths.applied(command, path).0,
                bytes.skip(wanted),
            ),
        }
    }
}

/// What the process has to do next.
#[derive(Debug, PartialEq, Eq)]
pub enum CleanupAction {
    /// Read what is wanted next.
    Read,
    /// Follow a command about a path, then read what is wanted next.
    Apply(CleanupCommand, Vec<u8>),
    /// Stop without removing anything.
    Stop,
    /// Remove these files and directories.
    Remove(Vec<Vec<u8>>, Vec<Vec<u8>>),
    /// Stop without removing anything because a number stands for no command.
    Fail(u32),
}

/// How a stream ends for a process that does what it has to with the rest of it.
pub open spec fn end_after(
    action: CleanupAction,
    stage: CleanupStage,
    paths: PathsView,
    rest: Seq<u8>,
) -> StreamEnd {
    match action {
        CleanupAction::Read => stream_end(stage, paths, rest),
        CleanupAction::Apply(command, path) => stream_end(
            stage,
            paths.applied(command, path@).0,
            rest,
        ),
        CleanupAction::Stop => StreamEnd::Quit,
        CleanupAction::Remove(files, dirs) => StreamEnd::Closed(
            PathsView { files: byte_views(files@), dirs: byte_views(dirs@) },
        ),
        CleanupAction::Fail(code) => StreamEnd::Unknown(code),
    }
}

/// The process that follows a stream of messages.
pub struct CleanupRun {
    stage: CleanupStage,
    paths: CleanupPaths,
}

impl CleanupRun {
    /// What the process waits for.
    pub closed spec fn stage(self) -> CleanupStage {
        self.stage
    }

    /// The paths that the process remembers.
    pub closed spec fn paths(self) -> PathsView {
        self.paths@
    }

    pub open spec fn wf(self) -> bool {
        self.paths().ok()
    }

    /// A process that waits for the first message.
    pub fn new() -> (run: Self)
        ensures
            run.wf(),
            run.stage() == CleanupStage::Command,
            run.paths() == (PathsView { files: seq![], dirs: seq![] }),
    {
        CleanupRun { stage: CleanupStage::Command, paths: CleanupPaths::new() }
    }

    /// The number of bytes to read next.
    pub fn wanted(&self) -> (count: usize)
        ensures
            count == self.stage().spec_wanted(),
    {
        self.stage.wanted()
    }

    /// Decides what to do with the wanted bytes, or if the stream is over before them.
    pub fn handle(&mut self, input: Option<Vec<u8>>) -> (action: CleanupAction)
        requires
            old(self).wf(),
            input matches Some(bytes) ==> bytes@.len() == old(self).stage().spec_wanted(),
        ensures
            final(self).wf(),
            match input {
                None => {
                    &&& action is Remove
                    &&& forall|rest: Seq<u8>|
                        rest.len() < old(self).stage().spec_wanted() ==> #[trigger] stream_end(
                            old(self).stage(),
                            old(self).paths(),
                            rest,
                        ) == end_after(action, final(self).stage(), final(self).paths(), rest)
                },
                Some(bytes) => {
                    &&& final(self).paths() == old(self).paths()
                    &&& match old(self).stage().received(bytes@) {
                        Err(code) => action == CleanupAction::Fail(code),
                        Ok((_, EventView::Quit)) => action == CleanupAction::Stop,
                        Ok((next, EventView::More)) => action == CleanupAction::Read
                            && final(self).stage() == next,
                        Ok((next, EventView::Message(command, path))) => {
                            &&& action matches CleanupAction::Apply(own, bytes) && own == command
                                && bytes@ == path
                            &&& final(self).stage() == next
                        },
                    }
                    &&& forall|rest: Seq<u8>| #[trigger]
                        stream_end(old(self).stage(), old(self).paths(), bytes@ + rest)
                            == end_after(action, final(self).stage(), final(self).paths(), rest)
                },
            },
    {
        let ghost before = self.stage;
        let bytes = match input {
            Some(bytes) => bytes,
            None => {
                let mut paths = CleanupPaths::new();
                std::mem::swap(&mut self.paths, &mut paths);
                let (files, dirs) = paths.into_lists();
                return CleanupAction::Remove(files, dirs);
            },
        };
        proof {
            let wanted = before.spec_wanted() as int;
            assert forall|rest: Seq<u8>| (#[trigger] (bytes@ + rest)).take(wanted) == bytes@
                && (bytes@ + rest).skip(wanted) == rest by {
                assert((bytes@ + rest).take(wanted) == bytes@);
                assert((bytes@ + rest).skip(wanted) == rest);
            }
        }
        match self.stage.receive(&bytes) {
            Ok(CleanupEvent::More) => CleanupAction::Read,
            Ok(CleanupEvent::Message(command, path)) => CleanupAction::Apply(command, path),
            Ok(CleanupEvent::Quit) => CleanupAction::Stop,
            Err(code) => CleanupAction::Fail(code),
        }
    }

    /// Follows a command about a path.
    pub fn apply(&mut self, command: CleanupCommand, path: Vec<u8>) -> (warning: Option<
        CleanupWarning,
    >)
        requires
            old(self).wf(),
        ensures
            final(self).wf(),
            final(self).stage() == old(self).stage(),
            final(self).paths() == old(self).paths().applied(command, path@).0,
            warning == old(self).paths().applied(command, path@).1,
    {
        self.paths.apply(command, path)
    }
}

/// The bytes of some messages.
pub open spec fn messages(list: Seq<(CleanupCommand, Seq<u8>)>) -> Seq<u8>
    decreases list.len(),
{
    if list.len() == 0 {
        seq![]
    } else {
        message(list[0].0, list[0].1) + messages(list.drop_first())
    }
}

/// The paths after some messages.
pub open spec fn after_messages(
    paths: PathsView,
    list: Seq<(CleanupCommand, Seq<u8>)>,
) -> PathsView
    decreases list.len(),
{
    if list.len() == 0 {
        paths
    } else {
        after_messages(paths.applied(list[0].0, list[0].1).0, list.drop_first())
    }
}

/// Whether messages can be sent about these paths, none of them the last one.
pub open spec fn can_send(list: Seq<(CleanupCommand, Seq<u8>)>) -> bool {
    forall|i: int|
        0 <= i < list.len() ==> (#[trigger] list[i]).0 != CleanupCommand::Quit && list[i].1.len()
            <= u32::MAX
}

/// A stream is followed message by message: after some messages the process
/// remembers the paths that these leave, and goes on with the rest of the stream.
pub proof fn law_streams_are_followed(
    paths: PathsView,
    list: Seq<(CleanupCommand, Seq<u8>)>,
    rest: Seq<u8>,
)
    requires
        can_send(list),
    ensures
        stream_end(CleanupStage::Command, paths, messages(list) + rest) == stream_end(
            CleanupStage::Command,
            after_messages(paths, list),
            rest,
        ),
    decreases list.len(),
{
    if list.len() == 0 {
        assert(messages(list) + rest == rest);
    } else {
        let (command, path) = list[0];
        let bytes = message(command, path);
        let later = list.drop_first();
        let all = messages(list) + rest;
        let tail = messages(later) + rest;
        assert forall|i: int| 0 <= i < later.len() implies (#[trigger] later[i]).0
            != CleanupCommand::Quit && later[i].1.len() <= u32::MAX by {
            assert(later[i] == list[i + 1]);
        }
        assert(all == bytes + tail);
        lemma_message_in_stream(paths, command, path, tail);
        law_streams_are_followed(paths.applied(command, path).0, later, rest);
    }
}

/// One message at the start of a stream.
proof fn lemma_message_in_stream(
    paths: PathsView,
    command: CleanupCommand,
    path: Seq<u8>,
    tail: Seq<u8>,
)
    requires
        path.len() <= u32::MAX,
        command != CleanupCommand::Quit,
    ensures
        stream_end(CleanupStage::Command, paths, message(command, path) + tail) == stream_end(
            CleanupStage::Command,
            paths.applied(command, path).0,
            tail,
        ),
{
    let bytes = message(command, path);
    let all = bytes + tail;
    law_messages_are_received(command, path);
    lemma_le_bytes_len(command.spec_code() as int, 4);
    lemma_le_bytes_len(path.len() as int, 4);
    let second = CleanupStage::Length(command);
    let third = CleanupStage::Path(command, path.len() as u32);
    assert(all.take(4) == bytes.take(4));
    assert(stream_end(CleanupStage::Command, paths, all) == stream_end(second, paths, all.skip(4)));
    assert(all.skip(4).take(4) == bytes.subrange(4, 8));
    assert(all.skip(4).skip(4) == path + tail);
    assert(stream_end(second, paths, all.skip(4)) == stream_end(third, paths, path + tail));
    assert((path + tail).take(path.len() as int) == bytes.skip(8));
    assert((path + tail).skip(path.len() as int) == tail);
}

/// A process that is told to quit after some messages removes nothing, whatever
/// follows.
pub proof fn law_streams_end_with_quit(
    paths: PathsView,
    list: Seq<(CleanupCommand, Seq<u8>)>,
    rest: Seq<u8>,
)
    requires
        can_send(list),
    ensures
        stream_end(
            CleanupStage::Command,
            paths,
            messages(list) + message(CleanupCommand::Quit, seq![]) + rest,
        ) == StreamEnd::Quit,
{
    let quit = message(CleanupCommand::Quit, seq![]);
    law_streams_are_followed(paths, list, quit + rest);
    law_messages_are_received(CleanupCommand::Quit, seq![]);
    assert(messages(list) + quit + rest == messages(list) + (quit + rest));
    assert((quit + rest).take(4) == quit.take(4));
}

/// If the stream is over, also inside a message, the paths that the complete messages
/// before that leave are removed: a message that is not complete changes nothing.
pub proof fn law_broken_messages_are_left_out(
    paths: PathsView,
    list: Seq<(CleanupCommand, Seq<u8>)>,
    command: CleanupCommand,
    path: Seq<u8>,
    len: int,
)
    requires
        can_send(list),
        path.len() <= u32::MAX,
        0 <= len < message(command, path).len(),
    ensures
        stream_end(
            CleanupStage::Command,
            paths,
            messages(list) + message(command, path).take(len),
        ) == StreamEnd::Closed(after_messages(paths, list)),
{
    let bytes = message(command, path);
    let part = bytes.take(len);
    let left = after_messages(paths, list);
    law_streams_are_followed(paths, list, part);
    law_messages_are_received(command, path);
    lemma_le_bytes_len(command.spec_code() as int, 4);
    lemma_le_bytes_len(path.len() as int, 4);
    if len >= 4 {
        let second = CleanupStage::Length(command);
        let third = CleanupStage::Path(command, path.len() as u32);
        assert(part.take(4) == bytes.take(4));
        assert(stream_end(CleanupStage::Command, left, part) == stream_end(
            second,
            left,
            part.skip(4),
        ));
        if len >= 8 {
            assert(part.skip(4).take(4) == bytes.subrange(4, 8));
            assert(stream_end(second, left, part.skip(4)) == stream_end(
                third,
                left,
                part.skip(4).skip(4),
            ));
        }
    }
}

/// A number that stands for no command ends the stream with that number.
pub proof fn law_unknown_commands_end_streams(
    paths: PathsView,
    list: Seq<(CleanupCommand, Seq<u8>)>,
    code: u32,
    rest: Seq<u8>,
)
    requires
        can_send(list),
        CleanupCommand::of_code(code) is None,
    ensures
        stream_end(
            CleanupStage::Command,
            paths,
            messages(list) + le_bytes(code as int, 4) + rest,
        ) == StreamEnd::Unknown(code),
{
    let start = le_bytes(code as int, 4);
    lemma_pow256();
    lemma_le_bytes_len(code as int, 4);
    lemma_le_round_trip(start, 0, code as int, 4);
    law_streams_are_followed(paths, list, start + rest);
    assert(messages(list) + start + rest == messages(list) + (start + rest));
    assert((start + rest).take(4) == start);
}

/// What came of removing something.
#[derive(Debug, Clone, Copy, PartialEq, Eq, Structural)]
pub enum RemoveResult {
    Removed,
    /// It was removed already.
    NotFound,
    Failed,
}

/// The paths that have to be removed later because that failed.
pub open spec fn failed_paths(paths: Seq<Seq<u8>>, results: Seq<RemoveResult>) -> Seq<Seq<u8>>
    decreases paths.len(),
{
    if paths.len() == 0 {
        seq![]
    } else {
        let before = failed_paths(paths.drop_last(), results);
        if results[paths.len() - 1] == RemoveResult::Failed {
            before.push(paths.last())
        } else {
            before
        }
    }
}

/// The paths that have to be removed later because that failed.
pub fn keep_failed(paths: &Vec<Vec<u8>>, results: &Vec<RemoveResult>) -> (kept: Vec<Vec<u8>>)
    requires
        paths@.len() == results@.len(),
    ensures
        byte_views(kept@) == failed_paths(byte_views(paths@), results@),
{
    let ghost all = byte_views(paths@);
    let mut kept: Vec<Vec<u8>> = Vec::new();
    let mut i: usize = 0;
    proof {
        assert(all.take(0) == Seq::<Seq<u8>>::empty());
        assert(byte_views(kept@) == Seq::<Seq<u8>>::empty());
    }
    while i < paths.len()
        invariant
            i <= paths@.len(),
            paths@.len() == results@.len(),
            all == byte_views(paths@),
            byte_views(kept@) == failed_paths(all.take(i as int), results@),
        decreases paths@.len() - i,
    {
        let ghost before = kept@;
        proof {
            assert(all.take(i + 1).drop_last() == all.take(i as int));
            assert(all.take(i + 1).last() == paths@[i as int]@);
        }
        if results[i] == RemoveResult::Failed {
            let path = paths[i].clone();
            assert(path@ == paths@[i as int]@);
            let ghost added = path@;
            kept.push(path);
            assert(byte_views(kept@) == byte_views(before).push(added));
        }
        i = i + 1;
    }
    assert(all.take(i as int) == all);
    kept
}

/// What to do after an attempt to remove everything.
#[derive(Debug, Clone, Copy, PartialEq, Eq, Structural)]
pub enum CleanupStep {
    /// Nothing is left.
    Done,
    /// Some things could not be removed in time.
    TimedOut,
    /// Try again after this many milliseconds.
    RetryAfter(u64),
}

/// How long removing things is tried, in milliseconds.
pub const CLEANUP_TIMEOUT: u64 = 10_000;

/// Decides what to do after an attempt to remove everything.
pub fn after_attempt(files_left: usize, dirs_left: usize, elapsed: u64) -> (step: CleanupStep)
    ensures
        step == if files_left == 0 && dirs_left == 0 {
            CleanupStep::Done
        } else if elapsed > CLEANUP_TIMEOUT {
            CleanupStep::TimedOut
        } else {
            CleanupStep::RetryAfter(500)
        },
{
    if files_left == 0 && dirs_left == 0 {
        CleanupStep::Done
    } else if elapsed > CLEANUP_TIMEOUT {
        CleanupStep::TimedOut
    } else {
        CleanupStep::RetryAfter(500)
    }
}

/// The bytes of UTF-16 units, the low byte of each first.
pub open spec fn wide_bytes(units: Seq<u16>) -> Seq<u8>
    decreases units.len(),
{
    if units.len() == 0 {
        seq![]
    } else {
        wide_bytes(units.drop_last()).push((units.last() % 256) as u8).push(
            (units.last() / 256) as u8,
        )
    }
}

/// The UTF-16 units of pairs of bytes. A last single byte is left out.
pub open spec fn wide_units(bytes: Seq<u8>) -> Seq<u16> {
    Seq::new(
        bytes.len() / 2,
        |i: int| (bytes[2 * i] + 256 * bytes[2 * i + 1]) as u16,
    )
}

/// The bytes of UTF-16 units.
pub fn wide_to_bytes(units: &Vec<u16>) -> (bytes: Vec<u8>)
    ensures
        bytes@ == wide_bytes(units@),
{
    let mut bytes: Vec<u8> = Vec::new();
    let mut i: usize = 0;
    assert(units@.take(0) == Seq::<u16>::empty());
    while i < units.len()
        invariant
            i <= units@.len(),
            bytes@ == wide_bytes(units@.take(i as int)),
        decreases units@.len() - i,
    {
        proof {
            assert(units@.take(i + 1).drop_last() == units@.take(i as int));
            assert(units@.take(i + 1).last() == units@[i as int]);
        }
        bytes.push((units[i] % 256) as u8);
        bytes.push((units[i] / 256) as u8);
        i = i + 1;
    }
    assert(units@.take(i as int) == units@);
    bytes
}

/// The UTF-16 units of pairs of bytes.
pub fn bytes_to_wide(bytes: &Vec<u8>) -> (units: Vec<u16>)
    ensures
        units@ == wide_units(bytes@),
{
    let len: usize = bytes.len();
    let count: usize = len / 2;
    let mut units: Vec<u16> = Vec::new();
    let mut i: usize = 0;
    while i < count
        invariant
            i <= count,
            len == bytes@.len(),
            count == len / 2,
            units@ == wide_units(bytes@).take(i as int),
        decreases count - i,
    {
        let unit: u16 = bytes[2 * i] as u16 + 256 * (bytes[2 * i + 1] as u16);
        units.push(unit);
        assert(units@ == wide_units(bytes@).take(i + 1));
        i = i + 1;
    }
    assert(wide_units(bytes@).take(count as int) == wide_units(bytes@));
    units
}

/// UTF-16 units are found again from their bytes.
pub proof fn law_wide_texts_are_kept(units: Seq<u16>)
    ensures
        wide_units(wide_bytes(units)) == units,
    decreases units.len(),
{
    lemma_wide_len(units);
    if units.len() > 0 {
        let rest = units.drop_last();
        law_wide_texts_are_kept(rest);
        lemma_wide_len(rest);
        let bytes = wide_bytes(units);
        let before = wide_bytes(rest);
        let n = units.len() - 1;
        assert forall|i: int| 0 <= i < units.len() implies wide_units(bytes)[i] == units[i] by {
            if i < n {
                assert(wide_units(before)[i] == rest[i]);
                assert(bytes[2 * i] == before[2 * i] && bytes[2 * i + 1] == before[2 * i + 1]);
            } else {
                assert(bytes[2 * n] == (units.last() % 256) as u8);
                assert(bytes[2 * n + 1] == (units.last() / 256) as u8);
            }
        }
        assert(wide_units(bytes) == units);
    }
}

proof fn lemma_wide_len(units: Seq<u16>)
    ensures
        wide_bytes(units).len() == 2 * units.len(),
    decreases units.len(),
{
    if units.len() > 0 {
        lemma_wide_len(units.drop_last());
    }
}

/// A command changes whether one path is remembered, and nothing about any other path. It
/// is unexpected exactly if it changes nothing. New paths come last.
pub proof fn law_commands_change_one_path(
    paths: PathsView,
    command: CleanupCommand,
    path: Seq<u8>,
    other: Seq<u8>,
)
    requires
        paths.ok(),
    ensures
        ({
            let (after, warning) = paths.applied(command, path);
            let is_file = command == CleanupCommand::AddTempFile || command
                == CleanupCommand::RemoveTempFile;
            let is_dir = command == CleanupCommand::AddTempDir || command
                == CleanupCommand::RemoveTempDir;
            let adds = command == CleanupCommand::AddTempFile || command
                == CleanupCommand::AddTempDir;
            &&& is_file ==> after.files.contains(path) == adds
            &&& is_dir ==> after.dirs.contains(path) == adds
            &&& !is_file || other != path ==> after.files.contains(other) == paths.files.contains(
                other,
            )
            &&& !is_dir || other != path ==> after.dirs.contains(other) == paths.dirs.contains(other)
            &&& !is_file ==> after.files == paths.files
            &&& !is_dir ==> after.dirs == paths.dirs
            &&& adds && after.files.len() > paths.files.len() ==> after.files == paths.files.push(
                path,
            )
            &&& adds && after.dirs.len() > paths.dirs.len() ==> after.dirs == paths.dirs.push(path)
            &&& warning is Some <==> (is_file || is_dir) && after == paths
            &&& after.ok()
        }),
{
    match command {
        CleanupCommand::AddTempFile => lemma_path_added(paths.files, path, other),
        CleanupCommand::AddTempDir => lemma_path_added(paths.dirs, path, other),
        CleanupCommand::RemoveTempFile => lemma_path_removed(paths.files, path, other),
        CleanupCommand::RemoveTempDir => lemma_path_removed(paths.dirs, path, other),
        CleanupCommand::Quit => {},
    }
}

proof fn lemma_path_added(paths: Seq<Seq<u8>>, path: Seq<u8>, other: Seq<u8>)
    requires
        paths.no_duplicates(),
    ensures
        with_path(paths, path).contains(path),
        other != path ==> with_path(paths, path).contains(other) == paths.contains(other),
        with_path(paths, path).no_duplicates(),
        with_path(paths, path) == paths <==> paths.contains(path),
        with_path(paths, path).len() > paths.len() ==> with_path(paths, path) == paths.push(path),
{
    let more = paths.push(path);
    assert(more[paths.len() as int] == path);
    if more.contains(other) && other != path {
        let k = choose|k: int| 0 <= k < more.len() && more[k] == other;
        assert(paths[k] == other);
    }
    if paths.contains(other) {
        let k = choose|k: int| 0 <= k < paths.len() && paths[k] == other;
        assert(more[k] == other);
    }
    assert(more.len() != paths.len());
}

proof fn lemma_path_removed(paths: Seq<Seq<u8>>, path: Seq<u8>, other: Seq<u8>)
    requires
        paths.no_duplicates(),
    ensures
        !without_path(paths, path).contains(path),
        other != path ==> without_path(paths, path).contains(other) == paths.contains(other),
        without_path(paths, path).no_duplicates(),
        without_path(paths, path) == paths <==> !paths.contains(path),
{
    if paths.contains(path) {
        let i = paths.index_of(path);
        let less = paths.remove(i);
        assert(paths[i] == path);
        assert(less.len() != paths.len());
        assert forall|k: int| 0 <= k < less.len() implies #[trigger] less[k] == paths[if k < i {
            k
        } else {
            k + 1
        }] by {}
        if paths.contains(other) && other != path {
            let k = choose|k: int| 0 <= k < paths.len() && paths[k] == other;
            assert(less[if k < i {
                k
            } else {
                k - 1
            }] == other);
        }
    }
}

/// Which paths are kept after an attempt to remove them depends on each of them alone: one
/// is kept if that failed. They stay in order.
pub proof fn law_only_failed_paths_are_kept(
    paths: Seq<Seq<u8>>,
    results: Seq<RemoveResult>,
    more: Seq<Seq<u8>>,
    more_results: Seq<RemoveResult>,
    path: Seq<u8>,
    result: RemoveResult,
)
    requires
        paths.len() == results.len(),
        more.len() == more_results.len(),
    ensures
        failed_paths(paths + more, results + more_results) == failed_paths(paths, results)
            + failed_paths(more, more_results),
        failed_paths(seq![path], seq![result]) == if result == RemoveResult::Failed {
            seq![path]
        } else {
            seq![]
        },
    decreases more.len(),
{
    reveal_with_fuel(failed_paths, 2);
    let none = Seq::<Seq<u8>>::empty();
    assert(seq![path].drop_last() == none);
    assert(failed_paths(none, seq![result]) == none);
    assert(none.push(path) == seq![path]);
    if more.len() == 0 {
        assert(paths + more == paths);
        assert(results + more_results == results);
        assert(failed_paths(paths, results) + none == failed_paths(paths, results));
    } else {
        let rest = more.drop_last();
        let rest_results = more_results.drop_last();
        law_only_failed_paths_are_kept(paths, results, rest, rest_results, path, result);
        assert((paths + more).drop_last() == paths + rest);
        lemma_same_failed(paths + rest, results + rest_results, results + more_results);
        lemma_same_failed(rest, rest_results, more_results);
        assert((results + more_results)[paths.len() + more.len() - 1] == more_results[more.len()
            - 1]);
    }
}

/// Results behind those of the paths do not matter.
proof fn lemma_same_failed(paths: Seq<Seq<u8>>, a: Seq<RemoveResult>, b: Seq<RemoveResult>)
    requires
        paths.len() <= a.len(),
        paths.len() <= b.len(),
        forall|i: int| 0 <= i < paths.len() ==> a[i] == b[i],
    ensures
        failed_paths(paths, a) == failed_paths(paths, b),
    decreases paths.len(),
{
    if paths.len() > 0 {
        lemma_same_failed(paths.drop_last(), a, b);
    }
}

} // verus!
