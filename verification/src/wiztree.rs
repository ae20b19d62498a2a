//! Working with the WizTree program.
use vstd::prelude::*;
use vstd::utf8::{encode_utf8, valid_utf8};

use crate::file_type::{resolve_file_type, resolved_type, BackupFileType};
use crate::logging::CommonOpt;
use crate::output::OutputOpts;
use crate::text::{starts_with, text_of_bytes, text_starts_with};
use crate::text_lines::{has_inside, lowercase, text_has_inside, to_lowercase};

verus! {

/// Whether a Windows processor architecture has 64 bits. Only those of `INTEL` and
/// `ARM` have not.
pub fn is_64bit_architecture(architecture: u16) -> (result: bool)
    ensures
        result == (architecture != 0 && architecture != 5),
{
    architecture != 0 && architecture != 5
}

/// The file name of the WizTree program.
pub fn wiz_tree_exe_name(is_64bit: bool) -> (name: &'static str)
    ensures
        name@ == if is_64bit {
            "WizTree64.exe"@
        } else {
            "WizTree.exe"@
        },
{
    if is_64bit {
        "WizTree64.exe"
    } else {
        "WizTree.exe"
    }
}

/// Environment variables that tell where programs are installed.
#[derive(Debug)]
pub struct InstallVariables {
    /// `UserProfile`
    pub user_profile: Option<String>,
    /// `UserName`
    pub user_name: Option<String>,
    /// `ProgramFiles`
    pub program_files: Option<String>,
}

/// The parts of paths.
pub open spec fn part_views(paths: Seq<Vec<String>>) -> Seq<Seq<Seq<char>>> {
    paths.map_values(|p: Vec<String>| crate::text::views(p@))
}

/// The folders of users.
pub open spec fn user_folders(variables: InstallVariables) -> Seq<Seq<Seq<char>>> {
    let first = match variables.user_profile {
        Some(profile) => seq![seq![profile@]],
        None => seq![],
    };
    let second = match variables.user_name {
        Some(name) => seq![seq!["C:\\Users\\"@, name@]],
        None => seq![],
    };
    first + second
}

/// Where the program can be, as parts of paths that have to be joined: the current
/// folder, the folder of installed programs and the folders of the scoop package
/// manager.
pub open spec fn program_places(variables: InstallVariables, name: Seq<char>) -> Seq<
    Seq<Seq<char>>,
> {
    let users = user_folders(variables);
    let installed = match variables.program_files {
        Some(folder) => seq![seq![folder@, "WizTree"@, name]],
        None => seq![],
    };
    let shims = users.map_values(|u: Seq<Seq<char>>| u + seq!["scoop"@, "shims"@, name]);
    let apps = users.map_values(
        |u: Seq<Seq<char>>| u + seq!["scoop"@, "apps\\wiztree\\current"@, name],
    );
    seq![seq![name]] + installed + seq![seq!["C:\\Program Files\\WizTree\\"@, name]] + shims + apps
}

fn parts_of(first: &Vec<String>, a: &str, b: &str, c: &str) -> (parts: Vec<String>)
    ensures
        crate::text::views(parts@) == crate::text::views(first@) + seq![a@, b@, c@],
{
    let mut parts: Vec<String> = Vec::new();
    let mut i: usize = 0;
    while i < first.len()
        invariant
            i <= first@.len(),
            crate::text::views(parts@) == crate::text::views(first@).take(i as int),
        decreases first@.len() - i,
    {
        let ghost before = parts@;
        let part = first[i].clone();
        let ghost text = part@;
        parts.push(part);
        proof {
            assert(crate::text::views(parts@) == crate::text::views(before).push(text));
            assert(crate::text::views(first@)[i as int] == text);
        }
        assert(crate::text::views(parts@) == crate::text::views(first@).take(i + 1));
        i = i + 1;
    }
    let ghost start = parts@;
    parts.push(a.to_owned());
    parts.push(b.to_owned());
    parts.push(c.to_owned());
    proof {
        assert(crate::text::views(start) == crate::text::views(first@));
        assert(crate::text::views(parts@) == crate::text::views(start) + seq![a@, b@, c@]);
    }
    parts
}

fn pair_of(a: &str, b: &str) -> (parts: Vec<String>)
    ensures
        crate::text::views(parts@) == seq![a@, b@],
{
    let mut parts: Vec<String> = Vec::new();
    parts.push(a.to_owned());
    parts.push(b.to_owned());
    assert(crate::text::views(parts@) == seq![a@, b@]);
    parts
}

fn single(a: &str) -> (parts: Vec<String>)
    ensures
        crate::text::views(parts@) == seq![a@],
{
    let mut parts: Vec<String> = Vec::new();
    parts.push(a.to_owned());
    assert(crate::text::views(parts@) == seq![a@]);
    parts
}

/// The folders of users.
fn find_user_folders(variables: &InstallVariables) -> (folders: Vec<Vec<String>>)
    ensures
        part_views(folders@) == user_folders(*variables),
{
    let mut folders: Vec<Vec<String>> = Vec::new();
    if let Some(profile) = &variables.user_profile {
        folders.push(single(profile.as_str()));
    }
    if let Some(name) = &variables.user_name {
        folders.push(pair_of("C:\\Users\\", name.as_str()));
    }
    assert(part_views(folders@) == user_folders(*variables));
    folders
}

/// The places where the program can be, as parts of paths that have to be joined.
pub fn possible_wiz_tree_paths(variables: &InstallVariables, is_64bit: bool) -> (paths: Vec<
    Vec<String>,
>)
    ensures
        part_views(paths@) == program_places(
            *variables,
            if is_64bit {
                "WizTree64.exe"@
            } else {
                "WizTree.exe"@
            },
        ),
{
    let name = wiz_tree_exe_name(is_64bit);
    let users = find_user_folders(variables);
    let ghost all = user_folders(*variables);
    let mut paths: Vec<Vec<String>> = Vec::new();
    paths.push(single(name));
    if let Some(folder) = &variables.program_files {
        let none: Vec<String> = Vec::new();
        paths.push(parts_of(&none, folder.as_str(), "WizTree", name));
        assert(crate::text::views(none@) + seq![folder@, "WizTree"@, name@] == seq![
            folder@,
            "WizTree"@,
            name@,
        ]);
    }
    paths.push(pair_of("C:\\Program Files\\WizTree\\", name));
    let ghost start = part_views(paths@);
    let ghost shims = all.map_values(
        |u: Seq<Seq<char>>| u + seq!["scoop"@, "shims"@, name@],
    );
    let ghost apps = all.map_values(
        |u: Seq<Seq<char>>| u + seq!["scoop"@, "apps\\wiztree\\current"@, name@],
    );
    let mut i: usize = 0;
    while i < users.len()
        invariant
            i <= users@.len(),
            all == part_views(users@),
            shims == all.map_values(|u: Seq<Seq<char>>| u + seq!["scoop"@, "shims"@, name@]),
            part_views(paths@) == start + shims.take(i as int),
        decreases users@.len() - i,
    {
        let ghost before = paths@;
        let parts = parts_of(&users[i], "scoop", "shims", name);
        let ghost added = crate::text::views(parts@);
        paths.push(parts);
        proof {
            assert(all[i as int] == crate::text::views(users@[i as int]@));
            assert(shims[i as int] == added);
            assert(part_views(paths@) == part_views(before).push(added));
            assert(shims.take(i + 1) == shims.take(i as int).push(added));
        }
        i = i + 1;
    }
    assert(shims.take(i as int) == shims);
    let ghost middle = part_views(paths@);
    let mut k: usize = 0;
    assert(middle + apps.take(0) == middle);
    while k < users.len()
        invariant
            k <= users@.len(),
            all == part_views(users@),
            apps == all.map_values(
                |u: Seq<Seq<char>>| u + seq!["scoop"@, "apps\\wiztree\\current"@, name@],
            ),
            part_views(paths@) == middle + apps.take(k as int),
        decreases users@.len() - k,
    {
        let ghost before = paths@;
        let parts = parts_of(&users[k], "scoop", "apps\\wiztree\\current", name);
        let ghost added = crate::text::views(parts@);
        paths.push(parts);
        proof {
            assert(all[k as int] == crate::text::views(users@[k as int]@));
            assert(apps[k as int] == added);
            assert(part_views(paths@) == part_views(before).push(added));
            assert(apps.take(k + 1) == apps.take(k as int).push(added));
        }
        k = k + 1;
    }
    proof {
        assert(apps.take(k as int) == apps);
        let installed = match &variables.program_files {
            Some(folder) => seq![seq![folder@, "WizTree"@, name@]],
            None => seq![],
        };
        assert(start == seq![seq![name@]] + installed + seq![
            seq!["C:\\Program Files\\WizTree\\"@, name@],
        ]);
    }
    paths
}

/// What the first line of an exported file is.
#[derive(Debug, Clone, Copy, PartialEq, Eq, Structural)]
pub enum FirstLine {
    /// A request for donations that is left out.
    Donation,
    /// A line like any other.
    Normal,
    /// Not UTF-8.
    NotText,
}

/// What the first line of an exported file is.
pub open spec fn first_line_kind(line: Seq<u8>) -> FirstLine {
    if !valid_utf8(line) {
        FirstLine::NotText
    } else if exists|text: Seq<char>|
        #![trigger encode_utf8(text)]
        encode_utf8(text) == line && has_inside(text, "hide this message by making a donation"@) {
        FirstLine::Donation
    } else {
        FirstLine::Normal
    }
}

/// Decides what the first line of an exported file is.
pub fn classify_first_line(line: &[u8]) -> (kind: FirstLine)
    ensures
        kind == first_line_kind(line@),
{
    match text_of_bytes(line) {
        Some(text) => {
            proof {
                assert forall|other: Seq<char>|
                    #![trigger encode_utf8(other)]
                    encode_utf8(other) == line@ implies other == text@ by {
                    crate::text::lemma_encode_injective(other, text@);
                }
            }
            if text_has_inside(text, "hide this message by making a donation") {
                assert(encode_utf8(text@) == line@);
                FirstLine::Donation
            } else {
                FirstLine::Normal
            }
        },
        None => FirstLine::NotText,
    }
}

/// The length of the first line, with its line feed.
pub open spec fn first_line_len(data: Seq<u8>) -> int
    decreases data.len(),
{
    if data.len() == 0 {
        0
    } else if data[0] == 0x0a {
        1
    } else {
        1 + first_line_len(data.skip(1))
    }
}

/// What is written of an exported file: all of it but a request for donations in
/// its first line.
pub open spec fn cleaned_export(data: Seq<u8>, keep_donation_line: bool) -> Seq<u8> {
    let len = first_line_len(data);
    if !keep_donation_line && first_line_kind(data.take(len)) == FirstLine::Donation {
        data.skip(len)
    } else {
        data
    }
}

/// What is written of the first line of an exported file.
pub fn first_output(line: Vec<u8>, keep_donation_line: bool) -> (output: Vec<u8>)
    ensures
        output@ == if !keep_donation_line && first_line_kind(line@) == FirstLine::Donation {
            Seq::<u8>::empty()
        } else {
            line@
        },
{
    if !keep_donation_line && classify_first_line(line.as_slice()) == FirstLine::Donation {
        Vec::new()
    } else {
        line
    }
}

/// Writing what is left of the first line and then everything after it gives the
/// cleaned file.
pub proof fn law_only_the_donation_line_is_removed(data: Seq<u8>, keep: bool)
    ensures
        ({
            let len = first_line_len(data);
            let line = data.take(len);
            let first = if !keep && first_line_kind(line) == FirstLine::Donation {
                Seq::<u8>::empty()
            } else {
                line
            };
            &&& 0 <= len <= data.len()
            &&& first + data.skip(len) == cleaned_export(data, keep)
            &&& keep ==> cleaned_export(data, keep) == data
        }),
{
    lemma_first_line(data);
    let len = first_line_len(data);
    assert(data.take(len) + data.skip(len) == data);
}

proof fn lemma_first_line(data: Seq<u8>)
    ensures
        0 <= first_line_len(data) <= data.len(),
    decreases data.len(),
{
    if data.len() > 0 && data[0] != 0x0a {
        lemma_first_line(data.skip(1));
    }
}

/// The argument that tells the program where to export to.
pub fn export_argument(path: &str) -> (argument: String)
    ensures
        argument@ == "/export="@ + path@,
{
    let mut argument: String = "/export=".to_owned();
    argument.append(path);
    argument
}

/// Options for making a backup with the program.
#[derive(Debug)]
pub struct WizTreeBackupOpts {
    pub common: CommonOpt,
    pub output: OutputOpts,
    /// Keep the line about donations.
    pub keep_donation_line: bool,
    /// Scan in the slower way if admin rights are missing.
    pub allow_non_admin_scan: bool,
    /// Run with normal instead of low priority.
    pub normal_priority: bool,
}

/// Whether a scan goes ahead.
#[derive(Debug, Clone, Copy, PartialEq, Eq, Structural)]
pub enum AdminCheck {
    Fast,
    /// Goes ahead, but more slowly.
    Slow,
    Refused,
}

impl WizTreeBackupOpts {
    /// Decides whether a scan goes ahead.
    pub fn check_rights(&self, is_admin: bool) -> (check: AdminCheck)
        ensures
            check == if is_admin {
                AdminCheck::Fast
            } else if self.allow_non_admin_scan {
                AdminCheck::Slow
            } else {
                AdminCheck::Refused
            },
    {
        if is_admin {
            AdminCheck::Fast
        } else if self.allow_non_admin_scan {
            AdminCheck::Slow
        } else {
            AdminCheck::Refused
        }
    }

    /// Whether the size of the output has to be counted while it is written, to
    /// report it afterwards.
    pub fn counts_output(&self, has_output_file: bool) -> (result: bool)
        ensures
            result == (!has_output_file && !self.output.uncompressed),
    {
        !has_output_file && !self.output.uncompressed
    }
}

/// Whether an error of WinFsp means that its library was not found.
pub fn is_missing_library(code: u32) -> (result: bool)
    ensures
        result == (code == 1285),
{
    code == 1285
}

/// Whether an error when opening a file can be the size limit of WebDAV.
pub fn is_size_limit(on_web_dav: bool, code: Option<i32>) -> (result: bool)
    ensures
        result == (on_web_dav && code == Some(223i32)),
{
    match code {
        Some(code) => on_web_dav && code == 223,
        None => false,
    }
}

/// Whether the size of the exported file is looked up again after some
/// milliseconds.
pub fn should_update_progress(is_hidden: bool, elapsed: u64) -> (result: bool)
    ensures
        result == (!is_hidden && elapsed > 500),
{
    !is_hidden && elapsed > 500
}

/// Whether the estimate of the remaining time starts anew, because the program has
/// started to write.
pub fn should_reset_estimate(previous: u64, len: u64) -> (result: bool)
    ensures
        result == (previous == 0 && len != 0),
{
    previous == 0 && len != 0
}

/// How a backup is opened with the program.
#[derive(Debug, Clone, Copy, PartialEq, Eq, Structural)]
pub enum OpenPlan {
    /// Open the input file.
    Direct,
    /// Decompress the input to a temporary file and open that.
    Decompress,
    /// Copy the input to a temporary file and open that.
    Copy,
}

/// Why a backup is not opened.
#[derive(Debug, Clone, Copy, PartialEq, Eq, Structural)]
pub enum OpenError {
    MissingRights,
    UnknownType,
    UnsupportedType,
}

/// Options for opening a backup with the program.
#[derive(Debug)]
pub struct WizTreeOpenOpts {
    pub common: CommonOpt,
    pub file_type: BackupFileType,
}

/// How a file of the given type is opened.
pub open spec fn plan_for(file_type: Option<BackupFileType>, has_input_file: bool) -> Result<
    OpenPlan,
    OpenError,
> {
    match file_type {
        None => Err(OpenError::UnknownType),
        Some(BackupFileType::WizTreeCsvGzip) => Ok(OpenPlan::Decompress),
        Some(BackupFileType::WizTreeCsv) => if has_input_file {
            Ok(OpenPlan::Direct)
        } else {
            Ok(OpenPlan::Copy)
        },
        Some(_) => Err(OpenError::UnsupportedType),
    }
}

impl WizTreeOpenOpts {
    /// Decides how a backup is opened, whose type was guessed from its extension.
    pub fn plan(&self, is_admin: bool, has_input_file: bool, guessed: Option<BackupFileType>) -> (
    plan: Result<OpenPlan, OpenError>)
        ensures
            plan == if !is_admin {
                Err::<OpenPlan, OpenError>(OpenError::MissingRights)
            } else {
                plan_for(resolved_type(self.file_type, guessed), has_input_file)
            },
    {
        if !is_admin {
            return Err(OpenError::MissingRights);
        }
        match resolve_file_type(self.file_type, guessed) {
            None => Err(OpenError::UnknownType),
            Some(BackupFileType::WizTreeCsvGzip) => Ok(OpenPlan::Decompress),
            Some(BackupFileType::WizTreeCsv) => if has_input_file {
                Ok(OpenPlan::Direct)
            } else {
                Ok(OpenPlan::Copy)
            },
            Some(_) => Err(OpenError::UnsupportedType),
        }
    }
}

/// What to do while the program is started and runs.
#[derive(Debug, PartialEq, Eq)]
pub enum RunAction {
    /// Start the program from the place with this number.
    Start(usize),
    /// Look whether the program has exited.
    Poll,
    /// Wait this many milliseconds, or until the work is canceled.
    Wait(u64),
    /// Stop the program.
    Kill,
    /// List the processes of the job.
    ListProcesses,
    /// Look at these processes.
    Inspect(Vec<u64>),
    /// Nothing more.
    Finish(RunResult),
}

/// How a run of the program ended.
#[derive(Debug, Clone, Copy, PartialEq, Eq, Structural)]
pub enum RunResult {
    /// It exited successfully.
    Success,
    /// It exited successfully, but so quickly that another process may do the work.
    SuspiciouslyQuick,
    /// There is no place to start it from.
    NoPlaces,
    /// It could not be started from any place.
    NotStarted,
    /// It was stopped because the work was canceled.
    Killed,
    /// The work was canceled while no process could be stopped.
    Canceled,
    /// It exited with an error, with this code if there is one.
    Failed(Option<i32>),
}

/// What is known about a process.
#[derive(Debug)]
pub struct ProcessInfo {
    /// The name of its program file.
    pub exe_name: Option<String>,
    pub parent: Option<u64>,
}

/// What happened.
#[derive(Debug)]
pub enum RunEvent {
    /// The program was started and has this process number, and whether the work was
    /// canceled by then.
    Started { id: u64, canceled: bool },
    /// The program could not be started, and whether the work was canceled by then.
    StartFailed { canceled: bool },
    StillRunning,
    /// The program exited: successfully or with an error, after some milliseconds.
    Exited { success: bool, code: Option<i32>, elapsed: u64 },
    /// The time to wait is over.
    Waited,
    /// The work was canceled while waiting.
    Canceled,
    /// The program was stopped.
    WasKilled,
    /// The processes of the job.
    Processes(Vec<u64>),
    /// What is known about the processes that were looked at, `None` for those that
    /// have exited.
    Inspected(Vec<Option<ProcessInfo>>),
}

/// How far a run of the program is.
#[derive(Debug)]
pub enum RunState {
    Starting { place: usize },
    /// Waiting for the program to exit.
    Running { id: u64, waits: u32 },
    /// Waiting before looking at the program again.
    Pausing { id: u64, waits: u32 },
    Stopping,
    /// Looking for processes that the program has started.
    Searching { id: u64 },
    Inspecting { id: u64, candidates: Vec<u64> },
    /// Waiting for processes that the program has started.
    Following { others: Vec<u64> },
    PausingForOthers { others: Vec<u64> },
    Finished,
}

/// What a run depends on.
#[derive(Debug, Clone, Copy, PartialEq, Eq, Structural)]
pub struct RunSettings {
    /// The number of places to start the program from.
    pub places: usize,
    /// Whether the processes of the program can be listed.
    pub has_job: bool,
    /// The number of the own process.
    pub own_id: u64,
}

/// How long to wait before looking at the program again.
pub open spec fn pause_after(waits: u32) -> u64 {
    if waits > 20 {
        100
    } else {
        25
    }
}

/// The processes that others have started: all but the own one and the idle one.
pub open spec fn other_processes(ids: Seq<u64>, own_id: u64) -> Seq<u64>
    decreases ids.len(),
{
    if ids.len() == 0 {
        seq![]
    } else {
        let before = other_processes(ids.drop_last(), own_id);
        if ids.last() != own_id && ids.last() != 0 {
            before.push(ids.last())
        } else {
            before
        }
    }
}

/// Whether a process does the work of a program that has exited: a WizTree process
/// that was started by the given one, or by an unknown one.
pub open spec fn does_the_work(info: Option<ProcessInfo>, id: u64) -> bool {
    match info {
        Some(info) => {
            let is_wiz_tree = match info.exe_name {
                Some(name) => starts_with(lowercase(name@), "wiztree"@),
                None => false,
            };
            let is_child = match info.parent {
                Some(parent) => parent == id,
                None => true,
            };
            is_wiz_tree && is_child
        },
        None => false,
    }
}

/// The processes that do the work.
pub open spec fn working_processes(ids: Seq<u64>, infos: Seq<Option<ProcessInfo>>, id: u64) -> Seq<
    u64,
>
    decreases ids.len(),
{
    if ids.len() == 0 {
        seq![]
    } else {
        let before = working_processes(ids.drop_last(), infos, id);
        if does_the_work(infos[ids.len() - 1], id) {
            before.push(ids.last())
        } else {
            before
        }
    }
}

/// Whether any of some processes is still there.
pub open spec fn any_left(ids: Seq<u64>, others: Seq<u64>) -> bool {
    exists|i: int| 0 <= i < ids.len() && others.contains(#[trigger] ids[i])
}

/// Keeps the processes that others have started.
fn keep_others(ids: &Vec<u64>, own_id: u64) -> (kept: Vec<u64>)
    ensures
        kept@ == other_processes(ids@, own_id),
{
    let mut kept: Vec<u64> = Vec::new();
    let mut i: usize = 0;
    assert(ids@.take(0) == Seq::<u64>::empty());
    while i < ids.len()
        invariant
            i <= ids@.len(),
            kept@ == other_processes(ids@.take(i as int), own_id),
        decreases ids@.len() - i,
    {
        let id: u64 = ids[i];
        proof {
            assert(ids@.take(i + 1).drop_last() == ids@.take(i as int));
        }
        if id != own_id && id != 0 {
            kept.push(id);
        }
        i = i + 1;
    }
    assert(ids@.take(i as int) == ids@);
    kept
}

fn process_does_the_work(info: &Option<ProcessInfo>, id: u64) -> (result: bool)
    ensures
        result == does_the_work(*info, id),
{
    match info {
        Some(info) => {
            let is_wiz_tree: bool = match &info.exe_name {
                Some(name) => {
                    let lower = to_lowercase(name.as_str());
                    text_starts_with(lower.as_str(), "wiztree")
                },
                None => false,
            };
            let is_child: bool = match info.parent {
                Some(parent) => parent == id,
                None => true,
            };
            is_wiz_tree && is_child
        },
        None => false,
    }
}

fn keep_working(ids: &Vec<u64>, infos: &Vec<Option<ProcessInfo>>, id: u64) -> (kept: Vec<u64>)
    requires
        ids@.len() == infos@.len(),
    ensures
        kept@ == working_processes(ids@, infos@, id),
{
    let mut kept: Vec<u64> = Vec::new();
    let mut i: usize = 0;
    assert(ids@.take(0) == Seq::<u64>::empty());
    while i < ids.len()
        invariant
            i <= ids@.len(),
            ids@.len() == infos@.len(),
            kept@ == working_processes(ids@.take(i as int), infos@, id),
        decreases ids@.len() - i,
    {
        proof {
            assert(ids@.take(i + 1).drop_last() == ids@.take(i as int));
            assert(ids@.take(i + 1).last() == ids@[i as int]);
        }
        if process_does_the_work(&infos[i], id) {
            kept.push(ids[i]);
        }
        i = i + 1;
    }
    assert(ids@.take(i as int) == ids@);
    kept
}

fn has_any_left(ids: &Vec<u64>, others: &Vec<u64>) -> (result: bool)
    ensures
        result == any_left(ids@, others@),
{
    let mut i: usize = 0;
    while i < ids.len()
        invariant
            i <= ids@.len(),
            forall|k: int| 0 <= k < i ==> !others@.contains(#[trigger] ids@[k]),
        decreases ids@.len() - i,
    {
        let mut k: usize = 0;
        while k < others.len()
            invariant
                i < ids@.len(),
                k <= others@.len(),
                forall|m: int| 0 <= m < k ==> others@[m] != ids@[i as int],
            decreases others@.len() - k,
        {
            if others[k] == ids[i] {
                assert(others@[k as int] == ids@[i as int]);
                assert(others@.contains(ids@[i as int]));
                return true;
            }
            k = k + 1;
        }
        assert(!others@.contains(ids@[i as int]));
        i = i + 1;
    }
    false
}

/// Starting the program and waiting for it to exit.
pub struct WizTreeRun {
    pub settings: RunSettings,
    pub state: RunState,
}

/// What to do first.
pub open spec fn first_action(settings: RunSettings) -> RunAction {
    if settings.places == 0 {
        RunAction::Finish(RunResult::NoPlaces)
    } else {
        RunAction::Start(0)
    }
}

/// Whether an event can happen in a state: it answers the last action.
pub open spec fn expected(state: RunState, event: RunEvent) -> bool {
    match state {
        RunState::Starting { .. } => event is Started || event is StartFailed,
        RunState::Running { .. } => event is StillRunning || event is Exited,
        RunState::Pausing { .. } | RunState::PausingForOthers { .. } => event is Waited
            || event is Canceled,
        RunState::Stopping => event is WasKilled,
        RunState::Searching { .. } | RunState::Following { .. } => event is Processes,
        RunState::Inspecting { candidates, .. } => event matches RunEvent::Inspected(infos)
            && infos@.len() == candidates@.len(),
        RunState::Finished => false,
    }
}

/// Whether a state and an action follow from a state and an event. After a start that
/// failed the next place is tried in any case. Only then a cancellation ends the run,
/// also if that start was a success; the program is not stopped in that case.
pub open spec fn follows(
    settings: RunSettings,
    state: RunState,
    event: RunEvent,
    next: RunState,
    action: RunAction,
) -> bool {
    match (state, event) {
        (RunState::Starting { place }, RunEvent::Started { id, canceled }) => if place > 0
            && canceled {
            next is Finished && action == RunAction::Finish(RunResult::Canceled)
        } else {
            next == (RunState::Running { id, waits: 0 }) && action == RunAction::Poll
        },
        (RunState::Starting { place }, RunEvent::StartFailed { canceled }) => if place > 0
            && canceled {
            next is Finished && action == RunAction::Finish(RunResult::Canceled)
        } else if place + 1 >= settings.places {
            next is Finished && action == RunAction::Finish(RunResult::NotStarted)
        } else {
            next == (RunState::Starting { place: (place + 1) as usize }) && action
                == RunAction::Start((place + 1) as usize)
        },
        (RunState::Running { id, waits }, RunEvent::StillRunning) => next == (RunState::Pausing {
            id,
            waits,
        }) && action == RunAction::Wait(pause_after(waits)),
        (RunState::Running { id, .. }, RunEvent::Exited { success, code, elapsed }) => if !success {
            next is Finished && action == RunAction::Finish(RunResult::Failed(code))
        } else if settings.has_job {
            next == (RunState::Searching { id }) && action == RunAction::ListProcesses
        } else if elapsed < 1000 {
            next is Finished && action == RunAction::Finish(RunResult::SuspiciouslyQuick)
        } else {
            next is Finished && action == RunAction::Finish(RunResult::Success)
        },
        (RunState::Pausing { id, waits }, RunEvent::Waited) => next == (RunState::Running {
            id,
            waits: if waits == u32::MAX {
                waits
            } else {
                (waits + 1) as u32
            },
        }) && action == RunAction::Poll,
        (RunState::Pausing { .. }, RunEvent::Canceled) => next is Stopping && action
            == RunAction::Kill,
        (RunState::Stopping, RunEvent::WasKilled) => next is Finished && action
            == RunAction::Finish(RunResult::Killed),
        (RunState::Searching { id }, RunEvent::Processes(ids)) => {
            let found = other_processes(ids@, settings.own_id);
            if found.len() == 0 {
                next is Finished && action == RunAction::Finish(RunResult::Success)
            } else {
                &&& next matches RunState::Inspecting { id: same, candidates } && same == id
                    && candidates@ == found
                &&& action matches RunAction::Inspect(asked) && asked@ == found
            }
        },
        (RunState::Inspecting { id, candidates }, RunEvent::Inspected(infos)) => {
            let found = working_processes(candidates@, infos@, id);
            if found.len() == 0 {
                next is Finished && action == RunAction::Finish(RunResult::Success)
            } else {
                &&& next matches RunState::Following { others } && others@ == found
                &&& action == RunAction::ListProcesses
            }
        },
        (RunState::Following { others }, RunEvent::Processes(ids)) => if any_left(ids@, others@) {
            &&& next matches RunState::PausingForOthers { others: same } && same@ == others@
            &&& action == RunAction::Wait(500)
        } else {
            next is Finished && action == RunAction::Finish(RunResult::Success)
        },
        (RunState::PausingForOthers { others }, RunEvent::Waited) => {
            &&& next matches RunState::Following { others: same } && same@ == others@
            &&& action == RunAction::ListProcesses
        },
        (RunState::PausingForOthers { .. }, RunEvent::Canceled) => next is Finished && action
            == RunAction::Finish(RunResult::Canceled),
        _ => false,
    }
}

impl WizTreeRun {
    /// Whether the place to start from is one of the places.
    pub open spec fn wf(self) -> bool {
        self.state matches RunState::Starting { place } ==> place < self.settings.places
    }

    /// Starts a run, with what to do first.
    pub fn new(settings: RunSettings) -> (result: (Self, RunAction))
        ensures
            result.0.wf(),
            result.0.settings == settings,
            settings.places > 0 ==> result.0.state == (RunState::Starting { place: 0 }),
            settings.places == 0 ==> result.0.state is Finished,
            result.1 == first_action(settings),
    {
        if settings.places == 0 {
            (
                WizTreeRun { settings, state: RunState::Finished },
                RunAction::Finish(RunResult::NoPlaces),
            )
        } else {
            (
                WizTreeRun { settings, state: RunState::Starting { place: 0 } },
                RunAction::Start(0),
            )
        }
    }

    fn finish(&mut self, result: RunResult) -> (action: RunAction)
        ensures
            final(self).settings == old(self).settings,
            final(self).state is Finished,
            action == RunAction::Finish(result),
    {
        self.state = RunState::Finished;
        RunAction::Finish(result)
    }

    /// Decides what to do after something happened.
    #[verifier::spinoff_prover]
    pub fn handle(&mut self, event: RunEvent) -> (action: RunAction)
        requires
            old(self).wf(),
            expected(old(self).state, event),
        ensures
            final(self).wf(),
            final(self).settings == old(self).settings,
            follows(old(self).settings, old(self).state, event, final(self).state, action),
    {
        let mut state = RunState::Finished;
        std::mem::swap(&mut self.state, &mut state);
        match (state, event) {
            (RunState::Starting { place }, RunEvent::Started { id, canceled }) => {
                if place > 0 && canceled {
                    self.finish(RunResult::Canceled)
                } else {
                    self.state = RunState::Running { id, waits: 0 };
                    RunAction::Poll
                }
            },
            (RunState::Starting { place }, RunEvent::StartFailed { canceled }) => {
                if place > 0 && canceled {
                    self.finish(RunResult::Canceled)
                } else if place + 1 >= self.settings.places {
                    self.finish(RunResult::NotStarted)
                } else {
                    self.state = RunState::Starting { place: place + 1 };
                    RunAction::Start(place + 1)
                }
            },
            (RunState::Running { id, waits }, RunEvent::StillRunning) => {
                self.state = RunState::Pausing { id, waits };
                RunAction::Wait(
                    if waits > 20 {
                        100
                    } else {
                        25
                    },
                )
            },
            (RunState::Running { id, .. }, RunEvent::Exited { success, code, elapsed }) => {
                if !success {
                    self.finish(RunResult::Failed(code))
                } else if self.settings.has_job {
                    self.state = RunState::Searching { id };
                    RunAction::ListProcesses
                } else if elapsed < 1000 {
                    self.finish(RunResult::SuspiciouslyQuick)
                } else {
                    self.finish(RunResult::Success)
                }
            },
            (RunState::Pausing { id, waits }, RunEvent::Waited) => {
                let more: u32 = if waits == u32::MAX {
                    waits
                } else {
                    waits + 1
                };
                self.state = RunState::Running { id, waits: more };
                RunAction::Poll
            },
            (RunState::Pausing { .. }, RunEvent::Canceled) => {
                self.state = RunState::Stopping;
                RunAction::Kill
            },
            (RunState::Stopping, RunEvent::WasKilled) => self.finish(RunResult::Killed),
            (RunState::Searching { id }, RunEvent::Processes(ids)) => {
                let found = keep_others(&ids, self.settings.own_id);
                if found.len() == 0 {
                    self.finish(RunResult::Success)
                } else {
                    let asked = found.clone();
                    assert(asked@ == found@);
                    self.state = RunState::Inspecting { id, candidates: found };
                    RunAction::Inspect(asked)
                }
            },
            (RunState::Inspecting { id, candidates }, RunEvent::Inspected(infos)) => {
                let found = keep_working(&candidates, &infos, id);
                if found.len() == 0 {
                    self.finish(RunResult::Success)
                } else {
                    self.state = RunState::Following { others: found };
                    RunAction::ListProcesses
                }
            },
            (RunState::Following { others }, RunEvent::Processes(ids)) => {
                if has_any_left(&ids, &others) {
                    self.state = RunState::PausingForOthers { others };
                    RunAction::Wait(500)
                } else {
                    self.finish(RunResult::Success)
                }
            },
            (RunState::PausingForOthers { others }, RunEvent::Waited) => {
                self.state = RunState::Following { others };
                RunAction::ListProcesses
            },
            (RunState::PausingForOthers { .. }, RunEvent::Canceled) => self.finish(
                RunResult::Canceled,
            ),
            _ => {
                assert(false);
                RunAction::Finish(RunResult::Success)
            },
        }
    }
}

/// A start that fails is followed by one from the next place, if there is one, canceled
/// or not. A run that was canceled by then ends with that, whatever came of the start.
pub proof fn law_next_place_is_tried_before_canceling(
    settings: RunSettings,
    event: RunEvent,
    next: RunState,
    action: RunAction,
    answer: RunEvent,
    last: RunState,
    result: RunAction,
)
    requires
        settings.places > 1,
        event is StartFailed,
        follows(settings, RunState::Starting { place: 0 }, event, next, action),
        answer matches RunEvent::Started { canceled, .. } ==> canceled,
        answer matches RunEvent::StartFailed { canceled } ==> canceled,
        expected(next, answer),
        follows(settings, next, answer, last, result),
    ensures
        action == RunAction::Start(1),
        result == RunAction::Finish(RunResult::Canceled),
        last is Finished,
{
}

/// A run that was canceled while the program runs ends by stopping it, and nothing
/// else follows.
pub proof fn law_canceled_runs_are_stopped(
    settings: RunSettings,
    id: u64,
    waits: u32,
    next: RunState,
    action: RunAction,
    last: RunState,
    result: RunAction,
)
    requires
        follows(settings, RunState::Pausing { id, waits }, RunEvent::Canceled, next, action),
        follows(settings, next, RunEvent::WasKilled, last, result),
    ensures
        action == RunAction::Kill,
        result == RunAction::Finish(RunResult::Killed),
        last is Finished,
        forall|event: RunEvent| !#[trigger] expected(last, event),
{
}

/// The first line of a file ends with the first line feed, or with the file if there is
/// none.
pub proof fn law_first_line_has_one_line_feed(data: Seq<u8>)
    ensures
        ({
            let len = first_line_len(data);
            &&& 0 <= len <= data.len()
            &&& data.len() > 0 ==> len > 0
            &&& len < data.len() ==> data[len - 1] == 0x0a
            &&& forall|i: int| 0 <= i < len - 1 ==> #[trigger] data[i] != 0x0a
        }),
    decreases data.len(),
{
    if data.len() > 0 && data[0] != 0x0a {
        let rest = data.skip(1);
        law_first_line_has_one_line_feed(rest);
        let len = first_line_len(rest);
        assert forall|i: int| 0 <= i < len implies #[trigger] data[i] != 0x0a by {
            if i > 0 {
                assert(rest[i - 1] == data[i]);
            }
        }
        if len > 0 {
            assert(rest[len - 1] == data[len]);
        }
    }
}

/// A line is a request for donations wherever in it the request is, and only then.
pub proof fn law_donation_lines_have_the_request(before: Seq<char>, after: Seq<char>, text: Seq<char>)
    ensures
        first_line_kind(
            encode_utf8(before + "hide this message by making a donation"@ + after),
        ) == FirstLine::Donation,
        first_line_kind(encode_utf8(text)) == FirstLine::Donation ==> exists|i: int|
            0 <= i <= text.len() && starts_with(
                #[trigger] text.skip(i),
                "hide this message by making a donation"@,
            ),
        first_line_kind(encode_utf8(text)) != FirstLine::NotText,
{
    let wanted = "hide this message by making a donation"@;
    let line = before + wanted + after;
    vstd::utf8::encode_utf8_valid_utf8(line);
    vstd::utf8::encode_utf8_valid_utf8(text);
    let at = before.len() as int;
    assert(line.subrange(at, at + wanted.len()) == wanted);
    assert(has_inside(line, wanted));
    if first_line_kind(encode_utf8(text)) == FirstLine::Donation {
        let other = choose|other: Seq<char>|
            #![trigger encode_utf8(other)]
            encode_utf8(other) == encode_utf8(text) && has_inside(other, wanted);
        crate::text::lemma_encode_injective(other, text);
        let i = choose|i: int|
            0 <= i <= text.len() - wanted.len() && #[trigger] text.subrange(i, i + wanted.len())
                == wanted;
        assert(text.skip(i).take(wanted.len() as int) == text.subrange(i, i + wanted.len()));
        assert(starts_with(text.skip(i), wanted));
    }
}

/// The program is looked for in the current folder first. Every place ends with its name.
/// Each folder of a user is the start of two places, and the folder of installed programs
/// of one.
pub proof fn law_places_end_with_the_program(
    variables: InstallVariables,
    name: Seq<char>,
    i: int,
    k: int,
)
    ensures
        ({
            let places = program_places(variables, name);
            let users = user_folders(variables);
            &&& places[0] == seq![name]
            &&& places.len() == 2 + 2 * users.len() + if variables.program_files is Some {
                1int
            } else {
                0
            }
            &&& 0 <= i < places.len() ==> places[i].len() > 0 && places[i].last() == name
            &&& 0 <= k < users.len() ==> {
                &&& places[places.len() - 2 * users.len() + k].take(users[k].len() as int)
                    == users[k]
                &&& places[places.len() - users.len() + k].take(users[k].len() as int) == users[k]
            }
            &&& variables.user_profile matches Some(profile) ==> users.contains(seq![profile@])
            &&& variables.user_name matches Some(user) ==> users.len() > 0 && users.last().last()
                == user@
            &&& variables.program_files matches Some(folder) ==> places[1][0] == folder@
        }),
{
    let places = program_places(variables, name);
    let users = user_folders(variables);
    let installed = match variables.program_files {
        Some(folder) => seq![seq![folder@, "WizTree"@, name]],
        None => seq![],
    };
    let shims = users.map_values(|u: Seq<Seq<char>>| u + seq!["scoop"@, "shims"@, name]);
    let apps = users.map_values(
        |u: Seq<Seq<char>>| u + seq!["scoop"@, "apps\\wiztree\\current"@, name],
    );
    let start = seq![seq![name]] + installed + seq![seq!["C:\\Program Files\\WizTree\\"@, name]];
    assert(places == start + shims + apps);
    assert(places[0] == start[0]);
    if 0 <= i < places.len() {
        if i < start.len() {
            assert(places[i] == start[i]);
        } else if i < start.len() + shims.len() {
            assert(places[i] == shims[i - start.len()]);
        } else {
            assert(places[i] == apps[i - start.len() - shims.len()]);
        }
    }
    if 0 <= k < users.len() {
        assert(places[start.len() + k] == shims[k]);
        assert(places[start.len() + shims.len() + k] == apps[k]);
        assert(shims[k].take(users[k].len() as int) == users[k]);
        assert(apps[k].take(users[k].len() as int) == users[k]);
    }
    if let Some(profile) = variables.user_profile {
        assert(users[0] == seq![profile@]);
    }
}

/// Other processes are all listed ones but the own one and the idle one, in the same
/// order.
pub proof fn law_other_processes_are_kept(ids: Seq<u64>, own_id: u64)
    ensures
        other_processes(ids, own_id) == ids.filter(|id: u64| id != own_id && id != 0),
    decreases ids.len(),
{
    reveal(Seq::filter);
    if ids.len() > 0 {
        law_other_processes_are_kept(ids.drop_last(), own_id);
    }
}

/// Whether a process does the work depends on it alone: on the name of its program and on
/// what has started it. One that was started by some other process does not, and neither
/// does one that has exited or has no name.
pub proof fn law_working_processes_are_kept(
    ids: Seq<u64>,
    infos: Seq<Option<ProcessInfo>>,
    more: Seq<u64>,
    more_infos: Seq<Option<ProcessInfo>>,
    process: u64,
    info: Option<ProcessInfo>,
    id: u64,
)
    requires
        ids.len() == infos.len(),
        more.len() == more_infos.len(),
    ensures
        working_processes(ids + more, infos + more_infos, id) == working_processes(ids, infos, id)
            + working_processes(more, more_infos, id),
        working_processes(seq![process], seq![info], id) == seq![process]
            || working_processes(seq![process], seq![info], id) == Seq::<u64>::empty(),
        info is None ==> working_processes(seq![process], seq![info], id) == Seq::<u64>::empty(),
        info matches Some(info) ==> (info.parent matches Some(parent) ==> (parent != id
            ==> working_processes(seq![process], seq![Some(info)], id) == Seq::<u64>::empty())),
        info matches Some(info) ==> (info.exe_name is None ==> working_processes(
            seq![process],
            seq![Some(info)],
            id,
        ) == Seq::<u64>::empty()),
        info matches Some(info) ==> (info.exe_name matches Some(name) ==> (starts_with(
            lowercase(name@),
            "wiztree"@,
        ) && (info.parent is None || info.parent == Some(id)) ==> working_processes(
            seq![process],
            seq![Some(info)],
            id,
        ) == seq![process])),
    decreases more.len(),
{
    reveal_with_fuel(working_processes, 2);
    let none = Seq::<u64>::empty();
    assert(seq![process].drop_last() == none);
    assert(working_processes(none, seq![info], id) == none);
    assert(none.push(process) == seq![process]);
    if more.len() == 0 {
        assert(ids + more == ids);
        assert(infos + more_infos == infos);
        assert(working_processes(ids, infos, id) + none == working_processes(ids, infos, id));
    } else {
        let rest = more.drop_last();
        let rest_infos = more_infos.drop_last();
        law_working_processes_are_kept(ids, infos, rest, rest_infos, process, info, id);
        assert((ids + more).drop_last() == ids + rest);
        lemma_same_workers(ids + rest, infos + rest_infos, infos + more_infos, id);
        lemma_same_workers(rest, rest_infos, more_infos, id);
        assert((infos + more_infos)[ids.len() + more.len() - 1] == more_infos[more.len() - 1]);
    }
}

proof fn lemma_same_workers(
    ids: Seq<u64>,
    a: Seq<Option<ProcessInfo>>,
    b: Seq<Option<ProcessInfo>>,
    id: u64,
)
    requires
        ids.len() <= a.len(),
        ids.len() <= b.len(),
        forall|i: int| 0 <= i < ids.len() ==> a[i] == b[i],
    ensures
        working_processes(ids, a, id) == working_processes(ids, b, id),
    decreases ids.len(),
{
    if ids.len() > 0 {
        lemma_same_workers(ids.drop_last(), a, b, id);
    }
}

/// The error of a program that exits with one is reported, with its code. A run is a
/// success only if the program exited successfully: at once without a job, or after no
/// process that does its work is left.
pub proof fn law_only_successful_exits_are_successes(
    settings: RunSettings,
    state: RunState,
    event: RunEvent,
    next: RunState,
    action: RunAction,
)
    requires
        follows(settings, state, event, next, action),
    ensures
        event matches RunEvent::Exited { success, code, .. } ==> (!success ==> action
            == RunAction::Finish(RunResult::Failed(code))),
        action == RunAction::Finish(RunResult::Success) ==> {
            ||| event matches RunEvent::Exited { success, elapsed, .. } && success && elapsed >= 1000
                && !settings.has_job
            ||| state is Searching
            ||| state is Inspecting
            ||| state matches RunState::Following { others } && event matches RunEvent::Processes(
                ids,
            ) && forall|i: int| 0 <= i < ids@.len() ==> !others@.contains(#[trigger] ids@[i])
        },
        next is Searching ==> (event matches RunEvent::Exited { success, .. } && success),
        action is Finish <==> next is Finished,
        action is Kill ==> event is Canceled,
{
}

/// A program that still runs is looked at again after a pause, without losing track of it.
/// Pauses do not get shorter, and processes that do the work are waited for in the same
/// way.
pub proof fn law_waiting_keeps_track(
    settings: RunSettings,
    id: u64,
    waits: u32,
    others: Vec<u64>,
    next: RunState,
    action: RunAction,
    last: RunState,
    result: RunAction,
)
    ensures
        follows(settings, RunState::Running { id, waits }, RunEvent::StillRunning, next, action)
            && follows(settings, next, RunEvent::Waited, last, result) ==> {
            &&& action matches RunAction::Wait(pause) && 25 <= pause <= 100
            &&& last matches RunState::Running { id: same, waits: more } && same == id && more
                >= waits
            &&& result == RunAction::Poll
        },
        pause_after(waits) <= pause_after(u32::MAX),
        waits <= 20 ==> pause_after(waits) == pause_after(0) && pause_after(0) < pause_after(21),
        follows(settings, RunState::PausingForOthers { others }, RunEvent::Waited, next, action)
            ==> (next matches RunState::Following { others: same } && same@ == others@),
{
}

/// A backup is opened exactly if its type is known and is one that the program can read.
/// Only a file that can be opened as it is is opened without a copy.
pub proof fn law_readable_types_are_opened(file_type: Option<BackupFileType>, has_input_file: bool)
    ensures
        plan_for(file_type, has_input_file) is Ok <==> file_type == Some(BackupFileType::WizTreeCsv)
            || file_type == Some(BackupFileType::WizTreeCsvGzip),
        plan_for(file_type, has_input_file) == Ok::<OpenPlan, OpenError>(OpenPlan::Direct)
            <==> file_type == Some(BackupFileType::WizTreeCsv) && has_input_file,
        plan_for(file_type, has_input_file) == Ok::<OpenPlan, OpenError>(OpenPlan::Decompress)
            <==> file_type == Some(BackupFileType::WizTreeCsvGzip),
        plan_for(file_type, has_input_file) == Err::<OpenPlan, OpenError>(OpenError::UnknownType)
            <==> file_type is None,
{
}

/// Processes that do the work of a program that has exited are found and waited for: every
/// listed process but the own one and the idle one is looked at, every one that does the
/// work is followed, and the run goes on as long as one of these is listed.
pub proof fn law_helpers_are_waited_for(
    settings: RunSettings,
    id: u64,
    ids: Vec<u64>,
    candidates: Vec<u64>,
    infos: Vec<Option<ProcessInfo>>,
    others: Vec<u64>,
    next: RunState,
    action: RunAction,
    i: int,
)
    ensures
        follows(settings, RunState::Searching { id }, RunEvent::Processes(ids), next, action) && 0
            <= i < ids@.len() && ids@[i] != settings.own_id && ids@[i] != 0 ==> {
            &&& action matches RunAction::Inspect(asked) && asked@.contains(ids@[i])
            &&& next matches RunState::Inspecting { candidates, .. } && candidates@.contains(ids@[i])
        },
        follows(
            settings,
            RunState::Inspecting { id, candidates },
            RunEvent::Inspected(infos),
            next,
            action,
        ) && candidates@.len() == infos@.len() && 0 <= i < candidates@.len() && does_the_work(
            infos@[i],
            id,
        ) ==> {
            &&& next matches RunState::Following { others } && others@.contains(candidates@[i])
            &&& action == RunAction::ListProcesses
        },
        follows(
            settings,
            RunState::Following { others },
            RunEvent::Processes(ids),
            next,
            action,
        ) && 0 <= i < ids@.len() && others@.contains(ids@[i]) ==> {
            &&& next matches RunState::PausingForOthers { others: same } && same@ == others@
            &&& action is Wait
        },
{
    if 0 <= i < ids@.len() && ids@[i] != settings.own_id && ids@[i] != 0 {
        lemma_other_process(ids@, settings.own_id, i);
    }
    if candidates@.len() == infos@.len() && 0 <= i < candidates@.len() && does_the_work(
        infos@[i],
        id,
    ) {
        lemma_working_process(candidates@, infos@, id, i);
    }
}

proof fn lemma_other_process(ids: Seq<u64>, own_id: u64, i: int)
    requires
        0 <= i < ids.len(),
        ids[i] != own_id,
        ids[i] != 0,
    ensures
        other_processes(ids, own_id).contains(ids[i]),
    decreases ids.len(),
{
    let all = other_processes(ids, own_id);
    if i == ids.len() - 1 {
        assert(all[all.len() - 1] == ids[i]);
    } else {
        let rest = ids.drop_last();
        assert(rest[i] == ids[i]);
        lemma_other_process(rest, own_id, i);
        let before = other_processes(rest, own_id);
        let k = choose|k: int| 0 <= k < before.len() && before[k] == ids[i];
        assert(all[k] == ids[i]);
    }
}

proof fn lemma_working_process(ids: Seq<u64>, infos: Seq<Option<ProcessInfo>>, id: u64, i: int)
    requires
        0 <= i < ids.len(),
        does_the_work(infos[i], id),
    ensures
        working_processes(ids, infos, id).contains(ids[i]),
    decreases ids.len(),
{
    let all = working_processes(ids, infos, id);
    if i == ids.len() - 1 {
        assert(all[all.len() - 1] == ids[i]);
    } else {
        let rest = ids.drop_last();
        assert(rest[i] == ids[i]);
        lemma_working_process(rest, infos, id, i);
        let before = working_processes(rest, infos, id);
        let k = choose|k: int| 0 <= k < before.len() && before[k] == ids[i];
        assert(all[k] == ids[i]);
    }
}

/// A run starts the program from its first place, if there is one. All places are tried in
/// turn as long as starts fail, and it is reported if all have failed.
pub proof fn law_places_are_tried_in_turn(
    settings: RunSettings,
    place: usize,
    next: RunState,
    action: RunAction,
)
    requires
        place < settings.places,
        follows(
            settings,
            RunState::Starting { place },
            RunEvent::StartFailed { canceled: false },
            next,
            action,
        ),
    ensures
        first_action(settings) == RunAction::Start(0),
        place + 1 < settings.places ==> action == RunAction::Start((place + 1) as usize) && next == (
        RunState::Starting { place: (place + 1) as usize }),
        place + 1 == settings.places ==> action == RunAction::Finish(RunResult::NotStarted),
        first_action(RunSettings { places: 0, ..settings }) == RunAction::Finish(
            RunResult::NoPlaces,
        ),
{
}

} // verus!
