//! A file system that keeps its files in memory.
//!
//! Names are made of UTF-16 units. Files are found by numbers that stay the same
//! until the file is gone, which happens when it is neither in a folder nor open.
use std::collections::hash_map::Entry;
use std::collections::HashMap;

use vstd::prelude::*;
use vstd::std_specs::iter::IteratorSpec;

verus! {

/// The number of a file or a folder.
#[derive(Debug, Clone, Copy, PartialEq, Eq, Hash, Structural)]
pub struct WinFspMemFsFileId(pub u64);

/// The number of the root folder.
pub const ROOT_ID: u64 = 1;

/// The attribute of folders.
pub const FILE_ATTRIBUTE_DIRECTORY: u32 = 0x10;

/// The option that asks for a folder when a file is made.
pub const FILE_DIRECTORY_FILE: u32 = 0x1;

/// The length of the longest name.
pub const MAX_NAME_LEN: usize = 255;

/// The size of the file system.
pub const TOTAL_SIZE: u64 = 1_000_000_000;

/// Why something cannot be done.
#[derive(Debug, Clone, Copy, PartialEq, Eq, Structural)]
pub enum MemFsError {
    NameTooLong,
    AlreadyExists,
    NotFound,
    IsADirectory,
    NotADirectory,
    DirectoryNotEmpty,
}

/// A file or a folder.
#[verifier::ext_equal]
pub struct FileView {
    pub data: Seq<u8>,
    pub id: u64,
    /// The folder that it is in.
    pub parent: Option<u64>,
    /// The names and numbers of what is in the folder.
    pub children: Seq<(Seq<u16>, u64)>,
    pub open_count: u64,
    pub is_dir: bool,
}

impl FileView {
    pub open spec fn fresh(id: u64, is_dir: bool) -> FileView {
        FileView { data: seq![], id, parent: None, children: seq![], open_count: 0, is_dir }
    }

    pub open spec fn deletable(self) -> bool {
        self.open_count == 0 && self.parent is None && self.id != ROOT_ID
    }
}

/// An entry of a folder.
#[derive(Debug)]
pub struct ChildEntry {
    pub name: Vec<u16>,
    pub id: WinFspMemFsFileId,
}

/// What a file system tells about a file.
#[derive(Debug, Clone, Copy, PartialEq, Eq, Structural)]
pub struct MemFsFileInfo {
    pub attributes: u32,
    pub hard_links: u32,
    pub size: u64,
}

/// A file or a folder.
#[derive(Debug)]
pub struct WinFspMemFsFile {
    pub data: Vec<u8>,
    id: WinFspMemFsFileId,
    parent_id: Option<WinFspMemFsFileId>,
    children: Vec<ChildEntry>,
    open_count: u64,
    is_dir: bool,
}

pub open spec fn child_views(children: Seq<ChildEntry>) -> Seq<(Seq<u16>, u64)> {
    children.map_values(|c: ChildEntry| (c.name@, c.id.0))
}

impl View for WinFspMemFsFile {
    type V = FileView;

    closed spec fn view(&self) -> FileView {
        FileView {
            data: self.data@,
            id: self.id.0,
            parent: match self.parent_id {
                Some(id) => Some(id.0),
                None => None,
            },
            children: child_views(self.children@),
            open_count: self.open_count,
            is_dir: self.is_dir,
        }
    }
}

/// What a file system tells about a file.
pub open spec fn info_of(file: FileView) -> MemFsFileInfo {
    MemFsFileInfo {
        attributes: if file.is_dir {
            FILE_ATTRIBUTE_DIRECTORY
        } else {
            0
        },
        hard_links: 1,
        size: if file.is_dir {
            0
        } else {
            file.data.len() as u64
        },
    }
}

impl WinFspMemFsFile {
    pub fn new(id: WinFspMemFsFileId, is_dir: bool) -> (file: Self)
        ensures
            file@ == FileView::fresh(id.0, is_dir),
    {
        let file = WinFspMemFsFile {
            data: Vec::new(),
            id,
            parent_id: None,
            children: Vec::new(),
            open_count: 0,
            is_dir,
        };
        assert(file@.children == Seq::<(Seq<u16>, u64)>::empty());
        file
    }

    /// Whether the file is gone: it is neither in a folder nor open.
    pub fn can_delete(&self) -> (result: bool)
        ensures
            result == self@.deletable(),
    {
        self.open_count == 0 && self.parent_id.is_none() && self.id.0 != ROOT_ID
    }

    pub fn file_attributes(&self) -> (attributes: u32)
        ensures
            attributes == info_of(self@).attributes,
    {
        if self.is_dir {
            FILE_ATTRIBUTE_DIRECTORY
        } else {
            0
        }
    }

    /// What the file system tells about the file.
    pub fn fill_in_file_info(&self) -> (info: MemFsFileInfo)
        ensures
            info == info_of(self@),
    {
        MemFsFileInfo {
            attributes: self.file_attributes(),
            hard_links: 1,
            size: if self.is_dir {
                0
            } else {
                self.data.len() as u64
            },
        }
    }
}

/// The place of the entry with the given name.
pub open spec fn name_place(children: Seq<(Seq<u16>, u64)>, name: Seq<u16>) -> Option<int>
    decreases children.len(),
{
    if children.len() == 0 {
        None
    } else if children.last().0 == name {
        Some(children.len() - 1)
    } else {
        name_place(children.drop_last(), name)
    }
}

/// The number of the entry with the given name.
pub open spec fn child_with(children: Seq<(Seq<u16>, u64)>, name: Seq<u16>) -> Option<u64> {
    match name_place(children, name) {
        Some(i) => Some(children[i].1),
        None => None,
    }
}

/// The entries with one more, in place of one with the same name.
pub open spec fn with_child(children: Seq<(Seq<u16>, u64)>, name: Seq<u16>, id: u64) -> Seq<
    (Seq<u16>, u64),
> {
    match name_place(children, name) {
        Some(i) => children.update(i, (name, id)),
        None => children.push((name, id)),
    }
}

/// The entries without the one with the given name.
pub open spec fn without_child(children: Seq<(Seq<u16>, u64)>, name: Seq<u16>) -> Seq<
    (Seq<u16>, u64),
> {
    match name_place(children, name) {
        Some(i) => children.remove(i),
        None => children,
    }
}

/// The entries without those with the given number.
pub open spec fn without_id(children: Seq<(Seq<u16>, u64)>, id: u64) -> Seq<(Seq<u16>, u64)>
    decreases children.len(),
{
    if children.len() == 0 {
        seq![]
    } else {
        let before = without_id(children.drop_last(), id);
        if children.last().1 == id {
            before
        } else {
            before.push(children.last())
        }
    }
}

pub open spec fn has_file(files: Map<u64, FileView>, id: u64) -> bool {
    files.contains_key(id)
}

pub open spec fn file_of(files: Map<u64, FileView>, id: u64) -> FileView {
    files[id]
}

/// The files with one more, in place of one with the same number.
pub open spec fn with_file(files: Map<u64, FileView>, file: FileView) -> Map<u64, FileView> {
    files.insert(file.id, file)
}

/// The files without one of them.
pub open spec fn without_file(files: Map<u64, FileView>, id: u64) -> Map<u64, FileView> {
    files.remove(id)
}

pub open spec fn is_slash(unit: u16) -> bool {
    unit == 0x2f || unit == 0x5c
}

/// The pieces of a path between its separators, empty ones as well, that follow
/// `head`, a piece without separators.
pub open spec fn pieces_after(head: Seq<u16>, path: Seq<u16>) -> Seq<Seq<u16>>
    decreases path.len(),
{
    if path.len() == 0 {
        seq![head]
    } else if is_slash(path[0]) {
        seq![head] + pieces_after(seq![], path.skip(1))
    } else {
        pieces_after(head.push(path[0]), path.skip(1))
    }
}

/// The pieces of a path between its separators.
pub open spec fn pieces(path: Seq<u16>) -> Seq<Seq<u16>> {
    pieces_after(seq![], path)
}

/// What was found for a path.
#[verifier::ext_equal]
pub struct FoundView {
    pub parent: u64,
    /// The length of the path of the parent.
    pub parent_len: int,
    /// The name that was looked for last.
    pub name: Seq<u16>,
    pub node: Option<u64>,
}

/// What is found from piece number `k` of a path on.
pub open spec fn found_from(
    files: Map<u64, FileView>,
    pieces: Seq<Seq<u16>>,
    k: int,
    found: FoundView,
    last_len: int,
    ancestor: Option<u64>,
) -> Result<FoundView, MemFsError>
    decreases pieces.len() - k,
{
    if k >= pieces.len() {
        Ok(found)
    } else {
        let piece = pieces[k];
        let start = found.parent_len + if k > 0 {
            1int
        } else {
            0int
        };
        let here = FoundView { parent_len: start, ..found };
        if piece.len() == 0 {
            found_from(
                files,
                pieces,
                k + 1,
                FoundView { parent_len: start + last_len, ..found },
                0,
                ancestor,
            )
        } else if piece.len() > MAX_NAME_LEN {
            Err(MemFsError::NameTooLong)
        } else {
            match found.node {
                None => Ok(here),
                Some(n) => {
                    let next = FoundView {
                        parent: n,
                        parent_len: start,
                        name: piece,
                        node: child_with(file_of(files, n).children, piece),
                    };
                    if ancestor == Some(n) {
                        Ok(FoundView { name: seq![], ..next })
                    } else {
                        found_from(
                            files,
                            pieces,
                            k + 1,
                            FoundView { parent_len: start + last_len, ..next },
                            piece.len() as int,
                            ancestor,
                        )
                    }
                },
            }
        }
    }
}

/// What is found for a path, which starts at the root folder. The search ends at a
/// name that is not found, or below the given folder.
pub open spec fn lookup(files: Map<u64, FileView>, path: Seq<u16>, ancestor: Option<u64>) -> Result<
    FoundView,
    MemFsError,
> {
    let start = FoundView {
        parent: ROOT_ID,
        parent_len: 0,
        name: seq![],
        node: Some(ROOT_ID),
    };
    found_from(files, pieces(path), 0, start, 0, ancestor)
}

/// Whether the entries of a file exist and know the folder they are in.
pub open spec fn children_ok(files: Map<u64, FileView>, file: FileView) -> bool {
    &&& forall|i: int|
        0 <= i < file.children.len() ==> {
            let id = (#[trigger] file.children[i]).1;
            has_file(files, id) && file_of(files, id).parent == Some(file.id)
        }
    &&& forall|i: int, j: int|
        #![trigger file.children[i], file.children[j]]
        0 <= i < j < file.children.len() ==> file.children[i].0 != file.children[j].0
            && file.children[i].1 != file.children[j].1
}

/// Whether files are found by their numbers.
pub open spec fn numbered(files: Map<u64, FileView>) -> bool {
    forall|id: u64| #[trigger] has_file(files, id) ==> file_of(files, id).id == id
}

/// Whether files are found by their numbers, there is a root and all entries of folders
/// exist.
pub open spec fn files_ok(files: Map<u64, FileView>, last_id: u64) -> bool {
    &&& has_file(files, ROOT_ID)
    &&& numbered(files)
    &&& forall|id: u64| #[trigger]
        has_file(files, id) ==> children_ok(files, file_of(files, id)) && id <= last_id
}

pub proof fn lemma_name_place(children: Seq<(Seq<u16>, u64)>, name: Seq<u16>)
    ensures
        name_place(children, name) matches Some(i) ==> 0 <= i < children.len() && children[i].0
            == name,
        name_place(children, name) is None ==> forall|i: int|
            0 <= i < children.len() ==> (#[trigger] children[i]).0 != name,
    decreases children.len(),
{
    if children.len() > 0 && children.last().0 != name {
        lemma_name_place(children.drop_last(), name);
        if name_place(children, name) is None {
            assert forall|i: int| 0 <= i < children.len() implies (#[trigger] children[i]).0
                != name by {
                if i < children.len() - 1 {
                    assert(children.drop_last()[i] == children[i]);
                }
            }
        }
    }
}

/// What was found for a path.
#[derive(Debug)]
pub struct FoundNode {
    pub parent: WinFspMemFsFileId,
    /// The length of the path of the parent.
    pub parent_len: usize,
    /// The name that was looked for last. If `node` is `Some` then this is the name
    /// of that node. It is empty for the root, and if the search ended below the given
    /// folder.
    pub name: Vec<u16>,
    pub node: Option<WinFspMemFsFileId>,
}

impl View for FoundNode {
    type V = FoundView;

    open spec fn view(&self) -> FoundView {
        FoundView {
            parent: self.parent.0,
            parent_len: self.parent_len as int,
            name: self.name@,
            node: match self.node {
                Some(id) => Some(id.0),
                None => None,
            },
        }
    }
}

/// All files of the file system.
#[derive(Debug)]
pub struct WinFspMemFsContextState {
    files: HashMap<u64, WinFspMemFsFile>,
    prev_file_id: u64,
}

pub open spec fn unit_views(pieces: Seq<Vec<u16>>) -> Seq<Seq<u16>> {
    pieces.map_values(|p: Vec<u16>| p@)
}

/// Splits a path at its separators.
fn split_path(path: &Vec<u16>) -> (list: Vec<Vec<u16>>)
    ensures
        unit_views(list@) == pieces(path@),
        pieces(path@).len() > 0,
{
    let mut list: Vec<Vec<u16>> = Vec::new();
    let mut head: Vec<u16> = Vec::new();
    let mut i: usize = 0;
    proof {
        assert(path@.skip(0) == path@);
        assert(unit_views(list@) + pieces_after(head@, path@) == pieces(path@));
    }
    while i < path.len()
        invariant
            i <= path@.len(),
            unit_views(list@) + pieces_after(head@, path@.skip(i as int)) == pieces(path@),
        decreases path@.len() - i,
    {
        let unit: u16 = path[i];
        let ghost before = list@;
        let ghost rest = path@.skip(i + 1);
        proof {
            assert(path@.skip(i as int).skip(1) == rest);
            assert(path@.skip(i as int)[0] == unit);
        }
        if unit == 0x2f || unit == 0x5c {
            let ghost piece = head@;
            list.push(head);
            head = Vec::new();
            proof {
                assert(unit_views(list@) == unit_views(before).push(piece));
                assert(unit_views(list@) + pieces_after(head@, rest) == unit_views(before) + (
                seq![piece] + pieces_after(head@, rest)));
            }
        } else {
            head.push(unit);
        }
        i = i + 1;
    }
    let ghost before = list@;
    let ghost piece = head@;
    list.push(head);
    proof {
        assert(path@.skip(i as int) == Seq::<u16>::empty());
        assert(unit_views(list@) == unit_views(before).push(piece));
        assert(unit_views(before) + seq![piece] == unit_views(before).push(piece));
    }
    list
}

fn same_units(a: &Vec<u16>, b: &Vec<u16>) -> (same: bool)
    ensures
        same == (a@ == b@),
{
    if a.len() != b.len() {
        return false;
    }
    let mut i: usize = 0;
    while i < a.len()
        invariant
            i <= a@.len(),
            a@.len() == b@.len(),
            forall|k: int| 0 <= k < i ==> a@[k] == b@[k],
        decreases a@.len() - i,
    {
        if a[i] != b[i] {
            return false;
        }
        i = i + 1;
    }
    assert(a@ == b@);
    true
}

/// The place of the entry with the given name.
fn find_name(children: &Vec<ChildEntry>, name: &Vec<u16>) -> (place: Option<usize>)
    ensures
        place is Some <==> name_place(child_views(children@), name@) is Some,
        place matches Some(i) ==> i < children@.len() && name_place(
            child_views(children@),
            name@,
        ) == Some(i as int),
{
    let ghost all = child_views(children@);
    let mut i: usize = children.len();
    assert(all.take(i as int) == all);
    while i > 0
        invariant
            i <= children@.len(),
            all == child_views(children@),
            name_place(all, name@) == name_place(all.take(i as int), name@),
        decreases i,
    {
        proof {
            assert(all.take(i as int).drop_last() == all.take(i - 1));
            assert(all.take(i as int).last() == all[i - 1]);
        }
        i = i - 1;
        if same_units(&children[i].name, name) {
            return Some(i);
        }
    }
    assert(all.take(0) == Seq::<(Seq<u16>, u64)>::empty());
    None
}

impl WinFspMemFsContextState {
    pub closed spec fn files(self) -> Map<u64, FileView> {
        self.files@.map_values(|f: WinFspMemFsFile| f@)
    }

    /// The number that was given to a file last.
    pub closed spec fn last_id(self) -> u64 {
        self.prev_file_id
    }

    pub open spec fn wf(self) -> bool {
        files_ok(self.files(), self.last_id())
    }

    /// A root folder without anything in it.
    pub fn new() -> (state: Self)
        ensures
            state.wf(),
            state.files() == map![ROOT_ID => FileView::fresh(ROOT_ID, true)],
            state.last_id() == ROOT_ID,
    {
        broadcast use vstd::std_specs::hash::group_hash_axioms;

        let mut files: HashMap<u64, WinFspMemFsFile> = HashMap::new();
        files.insert(ROOT_ID, WinFspMemFsFile::new(WinFspMemFsFileId(ROOT_ID), true));
        let state = WinFspMemFsContextState { files, prev_file_id: ROOT_ID };
        assert(state.files() == map![ROOT_ID => FileView::fresh(ROOT_ID, true)]);
        state
    }

    /// The file with the given number.
    fn find(&self, id: u64) -> (file: Option<&WinFspMemFsFile>)
        ensures
            file is Some <==> has_file(self.files(), id),
            file matches Some(file) ==> file@ == file_of(self.files(), id),
    {
        broadcast use vstd::std_specs::hash::group_hash_axioms;

        self.files.get(&id)
    }

    /// The file with the given number, to change it.
    fn find_mut(&mut self, id: u64) -> (file: Option<&mut WinFspMemFsFile>)
        ensures
            final(self).prev_file_id == old(self).prev_file_id,
            match file {
                Some(file) => {
                    &&& has_file(old(self).files(), id)
                    &&& file@ == file_of(old(self).files(), id)
                    &&& final(self).files() == old(self).files().insert(id, final(file)@)
                },
                None => {
                    &&& !has_file(old(self).files(), id)
                    &&& final(self).files() == old(self).files()
                },
            },
    {
        broadcast use vstd::std_specs::hash::group_hash_axioms;

        match self.files.entry(id) {
            Entry::Occupied(entry) => Some(entry.into_mut()),
            Entry::Vacant(_) => None,
        }
    }

    /// Adds a file.
    fn keep(&mut self, id: u64, file: WinFspMemFsFile)
        ensures
            final(self).prev_file_id == old(self).prev_file_id,
            final(self).files() == old(self).files().insert(id, file@),
    {
        broadcast use vstd::std_specs::hash::group_hash_axioms;

        let ghost added = file@;
        self.files.insert(id, file);
        assert(self.files() == old(self).files().insert(id, added));
    }

    /// Removes a file.
    fn forget(&mut self, id: u64)
        ensures
            final(self).prev_file_id == old(self).prev_file_id,
            final(self).files() == old(self).files().remove(id),
    {
        broadcast use vstd::std_specs::hash::group_hash_axioms;

        let _gone = self.files.remove(&id);
        assert(self.files() == old(self).files().remove(id));
    }

    /// Finds a node and its parent node from a path.
    ///
    /// # Errors
    ///
    /// If a name in the path is too long.
    #[verifier::spinoff_prover]
    pub fn lookup_node(&self, path: &Vec<u16>, ancestor: Option<WinFspMemFsFileId>) -> (result:
        Result<FoundNode, MemFsError>)
        requires
            self.wf(),
        ensures
            match lookup(
                self.files(),
                path@,
                match ancestor {
                    Some(id) => Some(id.0),
                    None => None,
                },
            ) {
                Ok(found) => result matches Ok(node) && node@ == found,
                Err(e) => result matches Err(error) && error == e,
            },
    {
        let list = split_path(path);
        let ghost all = pieces(path@);
        let ghost files = self.files();
        let ghost above = match ancestor {
            Some(id) => Some(id.0),
            None => None,
        };
        let ghost goal = lookup(files, path@, above);
        let mut parent: u64 = ROOT_ID;
        let mut parent_len: usize = 0;
        let mut name: Vec<u16> = Vec::new();
        let mut node: Option<u64> = Some(ROOT_ID);
        let mut last_len: usize = 0;
        let mut k: usize = 0;
        proof {
            lemma_pieces_len(Seq::empty(), path@);
            assert(name@ == Seq::<u16>::empty());
        }
        let path_len: usize = path.len();
        while k < list.len()
            invariant
                k <= list@.len(),
                self.wf(),
                files == self.files(),
                all == unit_views(list@),
                path_len + 1 >= pieces_size(all),
                path_len == path@.len(),
                goal == lookup(files, path@, above),
                above == (match ancestor {
                    Some(id) => Some(id.0),
                    None => None,
                }),
                goal == found_from(
                    files,
                    all,
                    k as int,
                    FoundView { parent, parent_len: parent_len as int, name: name@, node },
                    last_len as int,
                    above,
                ),
                node matches Some(n) ==> has_file(files, n),
                parent_len + last_len + (if k > 0 {
                    1int
                } else {
                    0int
                }) <= pieces_size(all.take(k as int)),
            decreases list@.len() - k,
        {
            let piece = &list[k];
            proof {
                assert(all[k as int] == piece@);
                lemma_pieces_size(all, k as int);
                lemma_pieces_size_bound(all, k + 1);
            }
            let start: usize = if k > 0 {
                parent_len + 1
            } else {
                parent_len
            };
            if piece.len() == 0 {
                parent_len = start + last_len;
                last_len = 0;
                k = k + 1;
                continue;
            }
            if piece.len() > MAX_NAME_LEN {
                return Err(MemFsError::NameTooLong);
            }
            let n: u64 = match node {
                Some(n) => n,
                None => {
                    return Ok(
                        FoundNode {
                            parent: WinFspMemFsFileId(parent),
                            parent_len: start,
                            name,
                            node: None,
                        },
                    );
                },
            };
            let folder = match self.find(n) {
                Some(folder) => folder,
                None => {
                    assert(false);
                    return Err(MemFsError::NotFound);
                },
            };
            proof {
                lemma_name_place(folder@.children, piece@);
            }
            let next: Option<u64> = match find_name(&folder.children, piece) {
                Some(i) => {
                    assert(folder@.children[i as int].1 == folder.children@[i as int].id.0);
                    Some(folder.children[i].id.0)
                },
                None => None,
            };
            parent = n;
            node = next;
            let stop: bool = match ancestor {
                Some(ancestor) => ancestor.0 == n,
                None => false,
            };
            if stop {
                return Ok(
                    FoundNode {
                        parent: WinFspMemFsFileId(parent),
                        parent_len: start,
                        name: Vec::new(),
                        node: match node {
                            Some(id) => Some(WinFspMemFsFileId(id)),
                            None => None,
                        },
                    },
                );
            }
            name = piece.clone();
            assert(name@ == piece@);
            parent_len = start + last_len;
            last_len = piece.len();
            k = k + 1;
        }
        Ok(
            FoundNode {
                parent: WinFspMemFsFileId(parent),
                parent_len,
                name,
                node: match node {
                    Some(id) => Some(WinFspMemFsFileId(id)),
                    None => None,
                },
            },
        )
    }
}

/// The length of pieces with separators between and after them.
pub open spec fn pieces_size(pieces: Seq<Seq<u16>>) -> int
    decreases pieces.len(),
{
    if pieces.len() == 0 {
        0
    } else {
        pieces_size(pieces.drop_last()) + pieces.last().len() + 1
    }
}

pub proof fn lemma_pieces_size(pieces: Seq<Seq<u16>>, k: int)
    requires
        0 <= k < pieces.len(),
    ensures
        pieces_size(pieces.take(k + 1)) == pieces_size(pieces.take(k)) + pieces[k].len() + 1,
        pieces_size(pieces.take(k)) >= 0,
    decreases k,
{
    assert(pieces.take(k + 1).drop_last() == pieces.take(k));
    if k > 0 {
        lemma_pieces_size(pieces, k - 1);
    }
}

proof fn lemma_pieces_size_bound(pieces: Seq<Seq<u16>>, k: int)
    requires
        0 <= k <= pieces.len(),
    ensures
        pieces_size(pieces.take(k)) <= pieces_size(pieces),
    decreases pieces.len() - k,
{
    if k == pieces.len() {
        assert(pieces.take(k) == pieces);
    } else {
        lemma_pieces_size(pieces, k);
        lemma_pieces_size_bound(pieces, k + 1);
    }
}

proof fn lemma_pieces_front(first: Seq<u16>, rest: Seq<Seq<u16>>)
    ensures
        pieces_size(seq![first] + rest) == first.len() + 1 + pieces_size(rest),
    decreases rest.len(),
{
    let all = seq![first] + rest;
    if rest.len() == 0 {
        assert(all.drop_last() == Seq::<Seq<u16>>::empty());
        assert(all.last() == first);
        assert(pieces_size(Seq::<Seq<u16>>::empty()) == 0);
        assert(pieces_size(rest) == 0);
    } else {
        assert(all.drop_last() == seq![first] + rest.drop_last());
        assert(all.last() == rest.last());
        lemma_pieces_front(first, rest.drop_last());
    }
}

/// Pieces with separators between them are as long as the path.
pub proof fn lemma_pieces_len(head: Seq<u16>, path: Seq<u16>)
    ensures
        pieces_size(pieces_after(head, path)) == head.len() + path.len() + 1,
        pieces_after(head, path).len() > 0,
    decreases path.len(),
{
    if path.len() == 0 {
        let all = seq![head];
        assert(all.drop_last() == Seq::<Seq<u16>>::empty());
        assert(all.last() == head);
        assert(pieces_size(Seq::<Seq<u16>>::empty()) == 0);
    } else if is_slash(path[0]) {
        lemma_pieces_len(Seq::empty(), path.skip(1));
        lemma_pieces_front(head, pieces_after(Seq::empty(), path.skip(1)));
    } else {
        lemma_pieces_len(head.push(path[0]), path.skip(1));
    }
}

/// Whether what was found exists and is where the path says.
pub open spec fn found_ok(files: Map<u64, FileView>, found: FoundView) -> bool {
    &&& has_file(files, found.parent)
    &&& found.node matches Some(n) ==> has_file(files, n)
    &&& found.name.len() == 0 ==> found.node == Some(ROOT_ID) && found.parent == ROOT_ID
    &&& found.name.len() > 0 ==> found.node == child_with(
        file_of(files, found.parent).children,
        found.name,
    )
}

proof fn lemma_found_from(
    files: Map<u64, FileView>,
    pieces: Seq<Seq<u16>>,
    k: int,
    found: FoundView,
    last_len: int,
)
    requires
        forall|x: u64| #[trigger] has_file(files, x) ==> children_ok(files, file_of(files, x)),
        found_ok(files, found),
        0 <= k,
    ensures
        found_from(files, pieces, k, found, last_len, None) matches Ok(f) ==> found_ok(files, f),
    decreases pieces.len() - k,
{
    if k < pieces.len() {
        let piece = pieces[k];
        let start = found.parent_len + if k > 0 {
            1int
        } else {
            0int
        };
        if piece.len() == 0 {
            lemma_found_from(
                files,
                pieces,
                k + 1,
                FoundView { parent_len: start + last_len, ..found },
                0,
            );
        } else if piece.len() <= MAX_NAME_LEN {
            if let Some(n) = found.node {
                let file = file_of(files, n);
                lemma_name_place(file.children, piece);
                let next = FoundView {
                    parent: n,
                    parent_len: start + last_len,
                    name: piece,
                    node: child_with(file.children, piece),
                };
                if let Some(i) = name_place(file.children, piece) {
                    assert(has_file(files, file.children[i].1));
                }
                lemma_found_from(files, pieces, k + 1, next, piece.len() as int);
            }
        }
    }
}

pub proof fn lemma_lookup(files: Map<u64, FileView>, path: Seq<u16>, last_id: u64)
    requires
        files_ok(files, last_id),
    ensures
        lookup(files, path, None) matches Ok(found) ==> found_ok(files, found),
{
    let start = FoundView {
        parent: ROOT_ID,
        parent_len: 0,
        name: seq![],
        node: Some(ROOT_ID),
    };
    lemma_found_from(files, pieces(path), 0, start, 0);
}

/// Changing something about a file that has nothing to do with folders keeps
/// everything in order.
proof fn lemma_contents_changed(files: Map<u64, FileView>, file: FileView, last_id: u64)
    requires
        files_ok(files, last_id),
        has_file(files, file.id),
        file.children == file_of(files, file.id).children,
        file.parent == file_of(files, file.id).parent,
    ensures
        files_ok(with_file(files, file), last_id),
{
    let after = with_file(files, file);
    assert forall|x: u64| #[trigger] has_file(after, x) implies children_ok(
        after,
        file_of(after, x),
    ) && x <= last_id by {
        assert(has_file(files, x));
        let list = file_of(after, x).children;
        assert(list == file_of(files, x).children);
        assert forall|k: int| 0 <= k < list.len() implies {
            let id = (#[trigger] list[k]).1;
            has_file(after, id) && file_of(after, id).parent == Some(file_of(after, x).id)
        } by {
            assert(has_file(files, list[k].1));
        }
    }
    assert(numbered(after)) by {
        assert forall|x: u64| #[trigger] has_file(after, x) implies file_of(after, x).id == x by {
            assert(has_file(files, x));
        }
    }
}

/// A file that is in no folder can be removed.
proof fn lemma_removed_ok(files: Map<u64, FileView>, gone: u64, last_id: u64)
    requires
        files_ok(files, last_id),
        has_file(files, gone),
        file_of(files, gone).parent is None,
        gone != ROOT_ID,
    ensures
        files_ok(without_file(files, gone), last_id),
{
    let after = without_file(files, gone);
    assert forall|x: u64| #[trigger] has_file(after, x) implies children_ok(
        after,
        file_of(after, x),
    ) && x <= last_id && file_of(after, x).id == x by {
        assert(has_file(files, x));
        let list = file_of(files, x).children;
        assert forall|k: int| 0 <= k < list.len() implies {
            let id = (#[trigger] list[k]).1;
            has_file(after, id) && file_of(after, id).parent == Some(x)
        } by {
            assert(has_file(files, list[k].1));
        }
    }
}

/// The files after a new one was made.
pub open spec fn made(
    files: Map<u64, FileView>,
    path: Seq<u16>,
    is_dir: bool,
    data: Seq<u8>,
    id: u64,
) -> Result<Map<u64, FileView>, MemFsError> {
    match lookup(files, path, None) {
        Err(e) => Err(e),
        Ok(found) => if found.node is Some {
            Err(MemFsError::AlreadyExists)
        } else {
            let parent = file_of(files, found.parent);
            let file = FileView {
                data,
                parent: Some(found.parent),
                ..FileView::fresh(id, is_dir)
            };
            let middle = with_file(
                files,
                FileView { children: with_child(parent.children, found.name, id), ..parent },
            );
            Ok(with_file(middle, file))
        },
    }
}

#[verifier::spinoff_prover]
proof fn lemma_made_ok(
    files: Map<u64, FileView>,
    found: FoundView,
    is_dir: bool,
    data: Seq<u8>,
    id: u64,
    last_id: u64,
)
    requires
        files_ok(files, last_id),
        found_ok(files, found),
        found.node is None,
        last_id < id,
    ensures
        ({
            let parent = file_of(files, found.parent);
            let file = FileView {
                data,
                parent: Some(found.parent),
                ..FileView::fresh(id, is_dir)
            };
            let middle = with_file(
                files,
                FileView { children: with_child(parent.children, found.name, id), ..parent },
            );
            files_ok(with_file(middle, file), id)
        }),
{
    let parent = file_of(files, found.parent);
    let changed = FileView { children: with_child(parent.children, found.name, id), ..parent };
    let file = FileView { data, parent: Some(found.parent), ..FileView::fresh(id, is_dir) };
    let middle = with_file(files, changed);
    let after = with_file(middle, file);
    lemma_name_place(parent.children, found.name);
    assert(changed.children == parent.children.push((found.name, id)));
    assert(!has_file(files, id));
    assert forall|x: u64| #[trigger] has_file(after, x) implies children_ok(
        after,
        file_of(after, x),
    ) && x <= id && file_of(after, x).id == x by {
        if x != id {
            assert(has_file(files, x));
            let old_children = file_of(files, x).children;
            let list = file_of(after, x).children;
            assert forall|k: int| 0 <= k < list.len() implies {
                let c = (#[trigger] list[k]).1;
                has_file(after, c) && file_of(after, c).parent == Some(x)
            } by {
                if k < old_children.len() {
                    assert(list[k] == old_children[k]);
                    assert(has_file(files, old_children[k].1));
                } else {
                    assert(x == found.parent);
                }
            }
            assert forall|a: int, b: int|
                #![trigger list[a], list[b]]
                0 <= a < b < list.len() implies list[a].0 != list[b].0 && list[a].1
                != list[b].1 by {
                assert(list[a] == old_children[a]);
                if b < old_children.len() {
                    assert(list[b] == old_children[b]);
                } else {
                    assert(has_file(files, old_children[a].1));
                    assert(parent.children[a].0 != found.name);
                }
            }
        }
    }
}

impl WinFspMemFsContextState {
    /// Makes a new file or folder at the given path.
    pub fn make_node(&mut self, path: &Vec<u16>, is_dir: bool, data: Vec<u8>) -> (result: Result<
        WinFspMemFsFileId,
        MemFsError,
    >)
        requires
            old(self).wf(),
            old(self).last_id() < u64::MAX,
        ensures
            final(self).wf(),
            ({
                let id = (old(self).last_id() + 1) as u64;
                match made(old(self).files(), path@, is_dir, data@, id) {
                    Ok(files) => {
                        &&& result == Ok::<WinFspMemFsFileId, MemFsError>(WinFspMemFsFileId(id))
                        &&& final(self).files() == files
                        &&& final(self).last_id() == id
                    },
                    Err(e) => {
                        &&& result == Err::<WinFspMemFsFileId, MemFsError>(e)
                        &&& final(self).files() == old(self).files()
                        &&& final(self).last_id() == old(self).last_id()
                    },
                }
            }),
    {
        let ghost before = self.files();
        let ghost contents = data@;
        proof {
            lemma_lookup(before, path@, self.prev_file_id);
        }
        let found = match self.lookup_node(path, None) {
            Ok(found) => found,
            Err(e) => {
                return Err(e);
            },
        };
        if found.node.is_some() {
            return Err(MemFsError::AlreadyExists);
        }
        let id: u64 = self.prev_file_id + 1;
        let ghost parent = file_of(before, found.parent.0);
        proof {
            lemma_made_ok(before, found@, is_dir, contents, id, self.prev_file_id);
            lemma_name_place(parent.children, found.name@);
        }
        self.prev_file_id = id;
        let mut file = WinFspMemFsFile::new(WinFspMemFsFileId(id), is_dir);
        file.data = data;
        file.parent_id = Some(found.parent);
        let ghost added = file@;
        let ghost name = found.name@;
        match self.find_mut(found.parent.0) {
            Some(folder) => {
                let ghost entries = folder.children@;
                folder.children.push(ChildEntry { name: found.name, id: WinFspMemFsFileId(id) });
                assert(child_views(folder.children@) == child_views(entries).push((name, id)));
            },
            None => {
                assert(false);
            },
        }
        let ghost middle = self.files();
        proof {
            assert(with_child(parent.children, name, id) == parent.children.push((name, id)));
            assert(middle == with_file(
                before,
                FileView { children: with_child(parent.children, name, id), ..parent },
            ));
        }
        self.keep(id, file);
        Ok(WinFspMemFsFileId(id))
    }

    /// Whether there is a number for one more file.
    pub fn has_free_number(&self) -> (result: bool)
        ensures
            result == (self.last_id() < u64::MAX),
    {
        self.prev_file_id < u64::MAX
    }

    /// Whether opening what is at a path once more can be counted.
    pub fn can_open_node(&self, path: &Vec<u16>) -> (result: bool)
        requires
            self.wf(),
        ensures
            result == can_open(self.files(), path@),
    {
        match self.get_node(path, None) {
            Ok(Some(file)) => file.open_count < u64::MAX,
            _ => true,
        }
    }

    /// Opens the file or folder at the given path.
    pub fn open_node(&mut self, path: &Vec<u16>, is_dir: Option<bool>) -> (result: Result<
        WinFspMemFsFileId,
        MemFsError,
    >)
        requires
            old(self).wf(),
            can_open(old(self).files(), path@),
        ensures
            final(self).wf(),
            final(self).last_id() == old(self).last_id(),
            match opened(old(self).files(), path@, is_dir) {
                Ok((files, id)) => {
                    &&& result == Ok::<WinFspMemFsFileId, MemFsError>(WinFspMemFsFileId(id))
                    &&& final(self).files() == files
                },
                Err(e) => {
                    &&& result == Err::<WinFspMemFsFileId, MemFsError>(e)
                    &&& final(self).files() == old(self).files()
                },
            },
    {
        let ghost before = self.files();
        proof {
            lemma_lookup(before, path@, self.prev_file_id);
        }
        let found = match self.lookup_node(path, None) {
            Ok(found) => found,
            Err(e) => {
                return Err(e);
            },
        };
        let id = match found.node {
            Some(id) => id,
            None => {
                return Err(MemFsError::NotFound);
            },
        };
        let file = match self.find(id.0) {
            Some(file) => file,
            None => {
                assert(false);
                return Err(MemFsError::NotFound);
            },
        };
        if let Some(is_dir) = is_dir {
            if !is_dir && file.is_dir {
                return Err(MemFsError::IsADirectory);
            }
            if is_dir && !file.is_dir {
                return Err(MemFsError::NotADirectory);
            }
        }
        let count: u64 = file.open_count;
        assert(count < u64::MAX);
        if let Some(file) = self.find_mut(id.0) {
            file.open_count = count + 1;
        }
        proof {
            let old_file = file_of(before, id.0);
            let file = FileView { open_count: (count + 1) as u64, ..old_file };
            assert(self.files() == with_file(before, file));
            lemma_contents_changed(before, file, self.prev_file_id);
        }
        Ok(id)
    }

    /// Closes a file or folder. It is gone if it is in no folder.
    pub fn close_node(&mut self, id: WinFspMemFsFileId)
        requires
            old(self).wf(),
        ensures
            final(self).wf(),
            final(self).last_id() == old(self).last_id(),
            final(self).files() == closed(old(self).files(), id.0),
    {
        let ghost before = self.files();
        let can_delete: bool = match self.find_mut(id.0) {
            Some(file) => {
                let count: u64 = file.open_count;
                file.open_count = if count == 0 {
                    0
                } else {
                    count - 1
                };
                file.can_delete()
            },
            None => {
                return;
            },
        };
        proof {
            let file = file_of(before, id.0);
            let less = FileView {
                open_count: if file.open_count == 0 {
                    0
                } else {
                    (file.open_count - 1) as u64
                },
                ..file
            };
            assert(self.files() == with_file(before, less));
            lemma_contents_changed(before, less, self.prev_file_id);
        }
        if can_delete {
            proof {
                lemma_removed_ok(self.files(), id.0, self.prev_file_id);
            }
            self.forget(id.0);
        }
    }
}

/// Whether opening what is at a path once more can be counted.
pub open spec fn can_open(files: Map<u64, FileView>, path: Seq<u16>) -> bool {
    lookup(files, path, None) matches Ok(found) ==> (found.node matches Some(id) ==> file_of(
        files,
        id,
    ).open_count < u64::MAX)
}

/// The files after one was opened, with its number.
pub open spec fn opened(files: Map<u64, FileView>, path: Seq<u16>, is_dir: Option<bool>) -> Result<
    (Map<u64, FileView>, u64),
    MemFsError,
> {
    match lookup(files, path, None) {
        Err(e) => Err(e),
        Ok(found) => match found.node {
            None => Err(MemFsError::NotFound),
            Some(id) => {
                let file = file_of(files, id);
                if is_dir == Some(false) && file.is_dir {
                    Err(MemFsError::IsADirectory)
                } else if is_dir == Some(true) && !file.is_dir {
                    Err(MemFsError::NotADirectory)
                } else {
                    Ok(
                        (
                            with_file(
                                files,
                                FileView { open_count: (file.open_count + 1) as u64, ..file },
                            ),
                            id,
                        ),
                    )
                }
            },
        },
    }
}

/// The files after one was closed.
pub open spec fn closed(files: Map<u64, FileView>, id: u64) -> Map<u64, FileView> {
    if has_file(files, id) {
        let file = file_of(files, id);
        let less = FileView {
            open_count: if file.open_count == 0 {
                0
            } else {
                (file.open_count - 1) as u64
            },
            ..file
        };
        if less.deletable() {
            without_file(with_file(files, less), id)
        } else {
            with_file(files, less)
        }
    } else {
        files
    }
}

/// The files after one was removed from its folder.
pub open spec fn unlinked(files: Map<u64, FileView>, path: Seq<u16>, is_dir: Option<bool>) -> Result<
    Map<u64, FileView>,
    MemFsError,
> {
    match lookup(files, path, None) {
        Err(e) => Err(e),
        Ok(found) => match found.node {
            None => Err(MemFsError::NotFound),
            Some(id) => {
                let file = file_of(files, id);
                if is_dir == Some(false) && file.is_dir {
                    Err(MemFsError::IsADirectory)
                } else if is_dir == Some(true) && !file.is_dir {
                    Err(MemFsError::NotADirectory)
                } else if file.children.len() > 0 {
                    Err(MemFsError::DirectoryNotEmpty)
                } else {
                    let alone = FileView { parent: None, ..file };
                    let first = with_file(files, alone);
                    let parent = file_of(first, found.parent);
                    let second = with_file(
                        first,
                        FileView {
                            children: without_child(parent.children, found.name),
                            ..parent
                        },
                    );
                    Ok(
                        if alone.deletable() {
                            without_file(second, id)
                        } else {
                            second
                        },
                    )
                }
            },
        },
    }
}

/// Taking an entry out of its folder keeps everything in order.
#[verifier::spinoff_prover]
proof fn lemma_unlinked_ok(files: Map<u64, FileView>, found: FoundView, last_id: u64)
    requires
        files_ok(files, last_id),
        found_ok(files, found),
        found.node is Some,
        found.name.len() > 0,
        file_of(files, found.node->0).children.len() == 0,
    ensures
        ({
            let id = found.node->0;
            let file = file_of(files, id);
            let first = with_file(files, FileView { parent: None, ..file });
            let parent = file_of(first, found.parent);
            let second = with_file(
                first,
                FileView { children: without_child(parent.children, found.name), ..parent },
            );
            &&& found.parent != id
            &&& has_file(first, found.parent)
            &&& parent == file_of(files, found.parent)
            &&& parent.id == found.parent
            &&& name_place(parent.children, found.name) is Some
            &&& files_ok(second, last_id)
            &&& has_file(second, id)
            &&& file_of(second, id) == (FileView { parent: None, ..file })
        }),
{
    let id = found.node->0;
    let file = file_of(files, id);
    let alone = FileView { parent: None, ..file };
    let first = with_file(files, alone);
    let parent = file_of(files, found.parent);
    lemma_name_place(parent.children, found.name);
    let at = name_place(parent.children, found.name)->0;
    assert(parent.children[at].1 == id);
    assert(found.parent != id);
    let less = FileView { children: without_child(parent.children, found.name), ..parent };
    let second = with_file(first, less);
    assert forall|x: u64| #[trigger] has_file(second, x) implies children_ok(
        second,
        file_of(second, x),
    ) && x <= last_id && file_of(second, x).id == x by {
        assert(has_file(files, x));
        let old_children = file_of(files, x).children;
        let list = file_of(second, x).children;
        assert forall|k: int| 0 <= k < list.len() implies {
            let c = (#[trigger] list[k]).1;
            has_file(second, c) && file_of(second, c).parent == Some(x)
        } by {
            let m = if x == found.parent && k >= at {
                k + 1
            } else {
                k
            };
            assert(list[k] == old_children[m]);
            let c = old_children[m].1;
            assert(has_file(files, c) && file_of(files, c).parent == Some(x));
            if c == id {
                assert(file.parent == Some(found.parent));
                assert(x == found.parent);
                if m < at {
                    assert(old_children[m].1 != old_children[at].1);
                } else {
                    assert(old_children[at].1 != old_children[m].1);
                }
            }
        }
        assert forall|a: int, b: int|
            #![trigger list[a], list[b]]
            0 <= a < b < list.len() implies list[a].0 != list[b].0 && list[a].1 != list[b].1 by {
            let i = if x == found.parent && a >= at {
                a + 1
            } else {
                a
            };
            let j = if x == found.parent && b >= at {
                b + 1
            } else {
                b
            };
            assert(list[a] == old_children[i]);
            assert(list[b] == old_children[j]);
        }
    }
}

impl WinFspMemFsContextState {
    /// Removes the file or the empty folder at the given path. It is gone if it is
    /// not open. The root folder cannot be removed.
    #[verifier::spinoff_prover]
    pub fn remove_node(&mut self, path: &Vec<u16>, is_dir: Option<bool>) -> (result: Result<
        (),
        MemFsError,
    >)
        requires
            old(self).wf(),
            lookup(old(self).files(), path@, None) matches Ok(found) ==> {
                let root = file_of(old(self).files(), ROOT_ID);
                found.name.len() > 0 || root.children.len() > 0 || (is_dir == Some(false)
                    && root.is_dir)
            },
        ensures
            final(self).wf(),
            final(self).last_id() == old(self).last_id(),
            match unlinked(old(self).files(), path@, is_dir) {
                Ok(files) => result is Ok && final(self).files() == files,
                Err(e) => result == Err::<(), MemFsError>(e) && final(self).files() == old(
                    self,
                ).files(),
            },
    {
        let ghost before = self.files();
        proof {
            lemma_lookup(before, path@, self.prev_file_id);
        }
        let found = match self.lookup_node(path, None) {
            Ok(found) => found,
            Err(e) => {
                return Err(e);
            },
        };
        let id = match found.node {
            Some(id) => id,
            None => {
                return Err(MemFsError::NotFound);
            },
        };
        let ghost file = file_of(before, id.0);
        let node = match self.find(id.0) {
            Some(node) => node,
            None => {
                assert(false);
                return Err(MemFsError::NotFound);
            },
        };
        assert(file.children.len() == node.children@.len());
        if let Some(is_dir) = is_dir {
            if !is_dir && node.is_dir {
                return Err(MemFsError::IsADirectory);
            }
            if is_dir && !node.is_dir {
                return Err(MemFsError::NotADirectory);
            }
        }
        if node.children.len() > 0 {
            return Err(MemFsError::DirectoryNotEmpty);
        }
        proof {
            lemma_unlinked_ok(before, found@, self.prev_file_id);
        }
        let ghost alone = FileView { parent: None, ..file };
        let can_delete: bool = match self.find_mut(id.0) {
            Some(node) => {
                node.parent_id = None;
                node.can_delete()
            },
            None => {
                assert(false);
                false
            },
        };
        let ghost first = self.files();
        assert(first == with_file(before, alone));
        let ghost parent = file_of(first, found.parent.0);
        match self.find_mut(found.parent.0) {
            Some(folder) => {
                match find_name(&folder.children, &found.name) {
                    Some(at) => {
                        let _entry = folder.children.remove(at);
                        assert(child_views(folder.children@) == without_child(
                            parent.children,
                            found.name@,
                        ));
                    },
                    None => {
                        assert(false);
                    },
                }
            },
            None => {
                assert(false);
            },
        }
        proof {
            assert(self.files() == with_file(
                first,
                FileView {
                    children: without_child(parent.children, found.name@),
                    ..parent
                },
            ));
        }
        if can_delete {
            proof {
                lemma_removed_ok(self.files(), id.0, self.prev_file_id);
            }
            self.forget(id.0);
        }
        Ok(())
    }
}

/// The files after the one at the destination of a rename was replaced.
pub open spec fn cleared_destination(
    files: Map<u64, FileView>,
    path: Seq<u16>,
    found: FoundView,
    replace: bool,
) -> Result<Map<u64, FileView>, MemFsError> {
    match found.node {
        Some(id) => {
            let file = file_of(files, id);
            if !replace {
                Err(MemFsError::AlreadyExists)
            } else if file.children.len() > 0 || id == ROOT_ID {
                Err(MemFsError::DirectoryNotEmpty)
            } else {
                let alone = FileView { parent: None, ..file };
                Ok(
                    if alone.deletable() {
                        without_file(with_file(files, alone), id)
                    } else {
                        with_file(files, alone)
                    },
                )
            }
        },
        None => if exists|i: int|
            found.parent_len <= i < path.len() && is_slash(#[trigger] path[i]) {
            Err(MemFsError::NotADirectory)
        } else {
            Ok(files)
        },
    }
}

/// The files after one was put into a folder, and taken out of the folder that it
/// was in.
pub open spec fn moved(
    files: Map<u64, FileView>,
    context: u64,
    folder: u64,
    name: Seq<u16>,
) -> Map<u64, FileView> {
    let target = file_of(files, folder);
    let first = with_file(
        files,
        FileView { children: with_child(target.children, name, context), ..target },
    );
    let node = file_of(first, context);
    let second = with_file(first, FileView { parent: Some(folder), ..node });
    match node.parent {
        Some(previous) => {
            let source = file_of(second, previous);
            with_file(
                second,
                FileView { children: without_id(source.children, context), ..source },
            )
        },
        None => second,
    }
}

/// The files after one was renamed.
pub open spec fn renamed(
    files: Map<u64, FileView>,
    context: u64,
    path: Seq<u16>,
    replace: bool,
) -> Result<Map<u64, FileView>, MemFsError> {
    match lookup(files, path, None) {
        Err(e) => Err(e),
        Ok(found) => match cleared_destination(files, path, found, replace) {
            Err(e) => Err(e),
            Ok(cleared) => Ok(moved(cleared, context, found.parent, found.name)),
        },
    }
}

/// Whether a file can be renamed: it exists and is not removed by that, and so does
/// the folder that it is in.
pub open spec fn can_rename(
    files: Map<u64, FileView>,
    context: u64,
    path: Seq<u16>,
    replace: bool,
) -> bool {
    &&& has_file(files, context)
    &&& lookup(files, path, None) matches Ok(found) ==> (cleared_destination(
        files,
        path,
        found,
        replace,
    ) matches Ok(cleared) ==> {
        &&& has_file(cleared, context)
        &&& file_of(cleared, context).parent matches Some(previous) ==> has_file(
            cleared,
            previous,
        )
    })
}

spec fn distinct(children: Seq<(Seq<u16>, u64)>, but: u64) -> bool {
    forall|i: int, j: int|
        #![trigger children[i], children[j]]
        0 <= i < j < children.len() && children[i].1 != but && children[j].1 != but
            ==> children[i].0 != children[j].0 && children[i].1 != children[j].1
}

proof fn lemma_without_id(children: Seq<(Seq<u16>, u64)>, id: u64)
    ensures
        forall|k: int|
            0 <= k < without_id(children, id).len() ==> {
                let e = #[trigger] without_id(children, id)[k];
                e.1 != id && children.contains(e)
            },
        distinct(children, id) ==> forall|i: int, j: int|
            #![trigger without_id(children, id)[i], without_id(children, id)[j]]
            0 <= i < j < without_id(children, id).len() ==> without_id(children, id)[i].0
                != without_id(children, id)[j].0 && without_id(children, id)[i].1 != without_id(
                children,
                id,
            )[j].1,
    decreases children.len(),
{
    if children.len() > 0 {
        let rest = children.drop_last();
        let last = children.last();
        lemma_without_id(rest, id);
        let before = without_id(rest, id);
        let after = without_id(children, id);
        assert(children[children.len() - 1] == last);
        assert forall|k: int| 0 <= k < after.len() implies {
            let e = #[trigger] after[k];
            e.1 != id && children.contains(e)
        } by {
            if k < before.len() {
                assert(after[k] == before[k]);
                let m = choose|m: int| 0 <= m < rest.len() && rest[m] == before[k];
                assert(children[m] == before[k]);
            }
        }
        if distinct(children, id) {
            assert(distinct(rest, id)) by {
                assert forall|i: int, j: int|
                    #![trigger rest[i], rest[j]]
                    0 <= i < j < rest.len() && rest[i].1 != id && rest[j].1
                        != id implies rest[i].0 != rest[j].0 && rest[i].1 != rest[j].1 by {
                    assert(rest[i] == children[i] && rest[j] == children[j]);
                }
            }
            assert forall|i: int, j: int|
                #![trigger after[i], after[j]]
                0 <= i < j < after.len() implies after[i].0 != after[j].0 && after[i].1
                != after[j].1 by {
                assert(after[i] == before[i]);
                if j < before.len() {
                    assert(after[j] == before[j]);
                } else {
                    assert(before[i].1 != id);
                    let m = choose|m: int| 0 <= m < rest.len() && rest[m] == before[i];
                    assert(children[m] == before[i]);
                    assert(children[children.len() - 1] == last);
                }
            }
        }
    }
}

/// What holds of files while one of them may be in a folder that it does not know.
spec fn files_ok_but(files: Map<u64, FileView>, last_id: u64, folder: u64, name: Seq<u16>) -> bool {
    &&& has_file(files, ROOT_ID)
    &&& has_file(files, folder)
    &&& numbered(files)
    &&& forall|x: u64| #[trigger]
        has_file(files, x) ==> x <= last_id && children_ok_but(files, x, folder, name)
}

/// What holds of the entries of a file, apart from one of them.
spec fn children_ok_but(
    files: Map<u64, FileView>,
    x: u64,
    folder: u64,
    name: Seq<u16>,
) -> bool {
    let list = file_of(files, x).children;
    &&& forall|k: int|
        0 <= k < list.len() ==> {
            let e = #[trigger] list[k];
            (x == folder && e.0 == name) || (has_file(files, e.1) && file_of(files, e.1).parent
                == Some(x))
        }
    &&& forall|a: int, b: int|
        #![trigger list[a], list[b]]
        0 <= a < b < list.len() ==> list[a].0 != list[b].0 && list[a].1 != list[b].1
}

#[verifier::spinoff_prover]
proof fn lemma_cleared_ok(
    files: Map<u64, FileView>,
    path: Seq<u16>,
    found: FoundView,
    replace: bool,
    last_id: u64,
)
    requires
        files_ok(files, last_id),
        found_ok(files, found),
    ensures
        cleared_destination(files, path, found, replace) matches Ok(cleared) ==> files_ok_but(
            cleared,
            last_id,
            found.parent,
            found.name,
        ),
{
    if cleared_destination(files, path, found, replace) is Ok {
        let cleared = cleared_destination(files, path, found, replace)->Ok_0;
        assert forall|x: u64| #[trigger] has_file(cleared, x) implies x <= last_id
            && children_ok_but(cleared, x, found.parent, found.name) && file_of(cleared, x).id
            == x by {
            assert(has_file(files, x));
            assert(children_ok(files, file_of(files, x)));
            let list = file_of(files, x).children;
            assert(file_of(cleared, x).children == list);
            if let Some(id) = found.node {
                let parent = file_of(files, found.parent);
                lemma_name_place(parent.children, found.name);
                let at = name_place(parent.children, found.name)->0;
                assert(parent.children[at].1 == id);
                assert forall|k: int| 0 <= k < list.len() implies {
                    let e = #[trigger] list[k];
                    (x == found.parent && e.0 == found.name) || (has_file(cleared, e.1) && file_of(
                        cleared,
                        e.1,
                    ).parent == Some(x))
                } by {
                    let e = list[k];
                    assert(has_file(files, e.1) && file_of(files, e.1).parent == Some(x));
                    if e.1 == id {
                        assert(x == found.parent);
                        if k < at {
                            assert(list[k].1 != list[at].1);
                        } else if at < k {
                            assert(list[at].1 != list[k].1);
                        }
                    }
                }
            } else {
                assert forall|k: int| 0 <= k < list.len() implies {
                    let e = #[trigger] list[k];
                    has_file(cleared, e.1) && file_of(cleared, e.1).parent == Some(x)
                } by {}
            }
        }
        if let Some(id) = found.node {
            let parent = file_of(files, found.parent);
            lemma_name_place(parent.children, found.name);
            let at = name_place(parent.children, found.name)->0;
            assert(has_file(files, parent.children[at].1));
        }
    }
}

/// Moving a file keeps everything in order.
#[verifier::spinoff_prover]
#[verifier::rlimit(40)]
proof fn lemma_moved_ok(
    files: Map<u64, FileView>,
    context: u64,
    folder: u64,
    name: Seq<u16>,
    last_id: u64,
)
    requires
        files_ok_but(files, last_id, folder, name),
        has_file(files, context),
        file_of(files, context).parent matches Some(previous) ==> has_file(files, previous),
    ensures
        files_ok(moved(files, context, folder, name), last_id),
{
    let target = file_of(files, folder);
    let more = with_child(target.children, name, context);
    let filled = FileView { children: more, ..target };
    let first = with_file(files, filled);
    let node = file_of(first, context);
    let second = with_file(first, FileView { parent: Some(folder), ..node });
    let after = moved(files, context, folder, name);
    let old_parent = file_of(files, context).parent;
    assert(node.parent == old_parent);
    assert(node.id == context && target.id == folder);
    lemma_name_place(target.children, name);
    assert(children_ok_but(files, folder, folder, name));
    // Where entries of each folder come from:
    assert forall|k: int| 0 <= k < more.len() implies (#[trigger] more[k] == (name, context)) || (
    more[k].0 != name && has_file(files, more[k].1) && file_of(files, more[k].1).parent == Some(
        folder,
    ) && more[k] == target.children[k]) by {
        if more[k] != (name, context) {
            assert(more[k] == target.children[k]);
            if let Some(at) = name_place(target.children, name) {
                if target.children[k].0 == name {
                    if k < at {
                        assert(target.children[k].0 != target.children[at].0);
                    } else if at < k {
                        assert(target.children[at].0 != target.children[k].0);
                    }
                }
            }
        }
    }
    assert forall|x: u64| #[trigger] has_file(after, x) == has_file(files, x) by {}
    assert forall|x: u64| #[trigger] has_file(files, x) implies file_of(after, x).id == x
        && file_of(after, x).parent == (if x == context {
        Some(folder)
    } else {
        file_of(files, x).parent
    }) by {}
    assert forall|x: u64| #[trigger] has_file(after, x) implies children_ok(
        after,
        file_of(after, x),
    ) && x <= last_id && file_of(after, x).id == x by {
        assert(has_file(files, x));
        assert(children_ok_but(files, x, folder, name));
        let list = file_of(after, x).children;
        let base = file_of(second, x).children;
        let is_source = old_parent == Some(x);
        assert(base == if x == folder {
            more
        } else {
            file_of(files, x).children
        });
        assert(list == if is_source {
            without_id(base, context)
        } else {
            base
        });
        lemma_without_id(base, context);
        assert forall|k: int| 0 <= k < list.len() implies {
            let e = (#[trigger] list[k]).1;
            has_file(after, e) && file_of(after, e).parent == Some(x)
        } by {
            let pair = list[k];
            if is_source {
                assert(base.contains(without_id(base, context)[k]));
            } else {
                assert(base[k] == pair);
            }
            let m = choose|m: int| 0 <= m < base.len() && base[m] == pair;
            assert(base[m] == pair);
            if x == folder && pair == (name, context) {
                assert(has_file(files, context));
            } else {
                if x == folder {
                    assert(more[m] == pair);
                } else {
                    assert(file_of(files, x).children[m] == pair);
                }
                assert(has_file(files, pair.1) && file_of(files, pair.1).parent == Some(x));
                if pair.1 == context {
                    assert(is_source);
                }
            }
        }
        assert forall|a: int, b: int|
            #![trigger list[a], list[b]]
            0 <= a < b < list.len() implies list[a].0 != list[b].0 && list[a].1 != list[b].1 by {
            if is_source {
                assert(distinct(base, context)) by {
                    assert forall|i: int, j: int|
                        #![trigger base[i], base[j]]
                        0 <= i < j < base.len() && base[i].1 != context && base[j].1
                            != context implies base[i].0 != base[j].0 && base[i].1 != base[j].1 by {
                        let old_list = file_of(files, x).children;
                        if x == folder {
                            assert(more[i] == target.children[i]);
                            assert(more[j] == target.children[j]);
                        }
                        assert(old_list[i].0 != old_list[j].0);
                    }
                }
                assert(without_id(base, context)[a].0 != without_id(base, context)[b].0);
            } else if x == folder {
                lemma_more_distinct(files, context, folder, name, a, b);
            } else {
                let old_list = file_of(files, x).children;
                assert(old_list[a].0 != old_list[b].0);
            }
        }
    }
}

/// Entries of a folder that does not have a file yet stay different with it.
proof fn lemma_more_distinct(
    files: Map<u64, FileView>,
    context: u64,
    folder: u64,
    name: Seq<u16>,
    a: int,
    b: int,
)
    requires
        file_of(files, context).parent != Some(folder),
        children_ok_but(files, folder, folder, name),
        0 <= a < b < with_child(file_of(files, folder).children, name, context).len(),
    ensures
        ({
            let more = with_child(file_of(files, folder).children, name, context);
            more[a].0 != more[b].0 && more[a].1 != more[b].1
        }),
{
    let children = file_of(files, folder).children;
    lemma_name_place(children, name);
    let more = with_child(children, name, context);
    let at = match name_place(children, name) {
        Some(at) => at,
        None => children.len() as int,
    };
    assert(more[at] == (name, context));
    assert forall|k: int| 0 <= k < children.len() && k != at implies {
        let e = #[trigger] children[k];
        e.0 != name && e.1 != context && more[k] == e
    } by {
        let e = children[k];
        if at < children.len() {
            if k < at {
                assert(children[k].0 != children[at].0);
            } else {
                assert(children[at].0 != children[k].0);
            }
        }
        assert(has_file(files, e.1) && file_of(files, e.1).parent == Some(folder));
    }
    if a != at {
        assert(children[a] == more[a]);
    }
    if b != at {
        assert(children[b] == more[b]);
    }
}

/// The entries without those with the given number.
fn remove_id(children: &mut Vec<ChildEntry>, id: u64)
    ensures
        child_views(final(children)@) == without_id(child_views(old(children)@), id),
{
    let mut kept: Vec<ChildEntry> = Vec::new();
    let ghost all = child_views(children@);
    let ghost start = children@;
    let mut i: usize = 0;
    proof {
        assert(all.take(0) == Seq::<(Seq<u16>, u64)>::empty());
        assert(child_views(kept@) == Seq::<(Seq<u16>, u64)>::empty());
    }
    while i < children.len()
        invariant
            i <= children@.len(),
            start == children@,
            start == old(children)@,
            all == child_views(start),
            child_views(kept@) == without_id(all.take(i as int), id),
        decreases children@.len() - i,
    {
        let ghost before = kept@;
        proof {
            assert(all.take(i + 1).drop_last() == all.take(i as int));
            assert(all.take(i + 1).last() == all[i as int]);
        }
        if children[i].id.0 != id {
            let name = children[i].name.clone();
            assert(name@ == children@[i as int].name@);
            kept.push(ChildEntry { name, id: children[i].id });
            assert(child_views(kept@) == child_views(before).push(all[i as int]));
        }
        i = i + 1;
    }
    assert(all.take(i as int) == all);
    *children = kept;
}

/// Whether there is a separator in a path from `start` on.
fn has_slash_from(path: &Vec<u16>, start: usize) -> (result: bool)
    ensures
        result == exists|i: int| start <= i < path@.len() && is_slash(#[trigger] path@[i]),
{
    let mut i: usize = start;
    while i < path.len()
        invariant
            start <= i,
            forall|k: int| start <= k < i && k < path@.len() ==> !is_slash(#[trigger] path@[k]),
        decreases path@.len() - i,
    {
        let unit: u16 = path[i];
        if unit == 0x2f || unit == 0x5c {
            assert(is_slash(path@[i as int]));
            return true;
        }
        i = i + 1;
    }
    false
}

impl WinFspMemFsContextState {
    /// Removes what is at the destination of a rename.
    #[verifier::spinoff_prover]
    fn clear_destination(&mut self, path: &Vec<u16>, found: &FoundNode, replace: bool) -> (result:
        Result<(), MemFsError>)
        requires
            old(self).wf(),
            found_ok(old(self).files(), found@),
        ensures
            final(self).prev_file_id == old(self).prev_file_id,
            match cleared_destination(old(self).files(), path@, found@, replace) {
                Ok(files) => result is Ok && final(self).files() == files,
                Err(e) => result == Err::<(), MemFsError>(e) && final(self).files() == old(
                    self,
                ).files(),
            },
    {
        let ghost before = self.files();
        match found.node {
            Some(id) => {
                if !replace {
                    return Err(MemFsError::AlreadyExists);
                }
                let ghost file = file_of(before, id.0);
                let node = match self.find(id.0) {
                    Some(node) => node,
                    None => {
                        assert(false);
                        return Err(MemFsError::NotFound);
                    },
                };
                assert(file.children.len() == node.children@.len());
                if node.children.len() > 0 || id.0 == ROOT_ID {
                    return Err(MemFsError::DirectoryNotEmpty);
                }
                let can_delete: bool = match self.find_mut(id.0) {
                    Some(node) => {
                        node.parent_id = None;
                        node.can_delete()
                    },
                    None => {
                        assert(false);
                        false
                    },
                };
                assert(self.files() == with_file(before, FileView { parent: None, ..file }));
                if can_delete {
                    self.forget(id.0);
                }
                Ok(())
            },
            None => {
                if has_slash_from(path, found.parent_len) {
                    return Err(MemFsError::NotADirectory);
                }
                Ok(())
            },
        }
    }

    /// Puts a file into a folder, and takes it out of the folder that it was in.
    #[verifier::spinoff_prover]
    fn move_node(&mut self, context: u64, folder: u64, name: &Vec<u16>)
        requires
            has_file(old(self).files(), context),
            has_file(old(self).files(), folder),
            file_of(old(self).files(), context).parent matches Some(previous) ==> has_file(
                old(self).files(),
                previous,
            ),
            numbered(old(self).files()),
        ensures
            final(self).prev_file_id == old(self).prev_file_id,
            final(self).files() == moved(old(self).files(), context, folder, name@),
    {
        let ghost files = self.files();
        let ghost target = file_of(files, folder);
        let ghost more = with_child(target.children, name@, context);
        let ghost filled = FileView { children: more, ..target };
        let copy = name.clone();
        assert(copy@ == name@);
        let entry = ChildEntry { name: copy, id: WinFspMemFsFileId(context) };
        match self.find_mut(folder) {
            Some(node) => match find_name(&node.children, name) {
                Some(at) => {
                    node.children[at] = entry;
                    assert(child_views(node.children@) == more);
                },
                None => {
                    node.children.push(entry);
                    assert(child_views(node.children@) == more);
                },
            },
            None => {
                assert(false);
            },
        }
        let ghost first = self.files();
        assert(first == with_file(files, filled));
        let ghost linked = FileView { parent: Some(folder), ..file_of(first, context) };
        let previous: Option<WinFspMemFsFileId> = match self.find_mut(context) {
            Some(node) => {
                let previous = node.parent_id;
                node.parent_id = Some(WinFspMemFsFileId(folder));
                previous
            },
            None => {
                assert(false);
                None
            },
        };
        let ghost second = self.files();
        assert(second == with_file(first, linked));
        if let Some(previous) = previous {
            let ghost source = file_of(second, previous.0);
            match self.find_mut(previous.0) {
                Some(node) => {
                    remove_id(&mut node.children, context);
                },
                None => {
                    assert(false);
                },
            }
            proof {
                assert(self.files() == with_file(
                    second,
                    FileView { children: without_id(source.children, context), ..source },
                ));
            }
        }
    }

    /// Whether a file can be given a new path, which it cannot if it does not exist or
    /// is removed by that, and neither if the folder that it is in does not exist or is.
    pub fn is_renamable(
        &self,
        context: WinFspMemFsFileId,
        new_path: &Vec<u16>,
        replace_if_exists: bool,
    ) -> (result: bool)
        requires
            self.wf(),
        ensures
            result == can_rename(self.files(), context.0, new_path@, replace_if_exists),
    {
        let ghost files = self.files();
        proof {
            lemma_lookup(files, new_path@, self.prev_file_id);
        }
        let folder = match self.find(context.0) {
            Some(node) => node.parent_id,
            None => {
                return false;
            },
        };
        let found = match self.lookup_node(new_path, None) {
            Ok(found) => found,
            Err(_) => {
                return true;
            },
        };
        let folder_exists = match folder {
            Some(folder) => self.find(folder.0).is_some(),
            None => true,
        };
        match found.node {
            None => has_slash_from(new_path, found.parent_len) || folder_exists,
            Some(id) => {
                let target = match self.find(id.0) {
                    Some(target) => target,
                    None => {
                        assert(false);
                        return false;
                    },
                };
                assert(target@.children.len() == target.children@.len());
                if !replace_if_exists || target.children.len() > 0 || id.0 == ROOT_ID {
                    return true;
                }
                let stays = target.open_count > 0;
                if id.0 == context.0 {
                    return stays;
                }
                match folder {
                    Some(folder) => folder_exists && (stays || folder.0 != id.0),
                    None => true,
                }
            },
        }
    }

    /// Gives a file a new path. What is at that path is replaced if `replace_if_exists`
    /// is `true`, unless it is a folder with something in it.
    ///
    /// A file that stays in its folder is no longer found there.
    #[verifier::spinoff_prover]
    pub fn rename(
        &mut self,
        context: WinFspMemFsFileId,
        new_path: &Vec<u16>,
        replace_if_exists: bool,
    ) -> (result: Result<(), MemFsError>)
        requires
            old(self).wf(),
            can_rename(old(self).files(), context.0, new_path@, replace_if_exists),
        ensures
            final(self).wf(),
            final(self).last_id() == old(self).last_id(),
            match renamed(old(self).files(), context.0, new_path@, replace_if_exists) {
                Ok(files) => result is Ok && final(self).files() == files,
                Err(e) => result == Err::<(), MemFsError>(e) && final(self).files() == old(
                    self,
                ).files(),
            },
    {
        let ghost before = self.files();
        proof {
            lemma_lookup(before, new_path@, self.prev_file_id);
        }
        let found = match self.lookup_node(new_path, None) {
            Ok(found) => found,
            Err(e) => {
                return Err(e);
            },
        };
        proof {
            lemma_cleared_ok(before, new_path@, found@, replace_if_exists, self.prev_file_id);
        }
        match self.clear_destination(new_path, &found, replace_if_exists) {
            Ok(()) => {},
            Err(e) => {
                return Err(e);
            },
        }
        let ghost cleared = self.files();
        self.move_node(context.0, found.parent.0, &found.name);
        proof {
            lemma_moved_ok(cleared, context.0, found.parent.0, found.name@, self.prev_file_id);
        }
        Ok(())
    }
}

/// The bytes of a file from an offset on, at most `len` of them and never more than
/// can be counted with 32 bits.
pub open spec fn bytes_at(data: Seq<u8>, len: int, offset: int) -> Seq<u8> {
    if offset >= data.len() {
        seq![]
    } else {
        let rest = data.len() - offset;
        let short = if len < rest {
            len
        } else {
            rest
        };
        data.subrange(
            offset,
            offset + if short > u32::MAX {
                u32::MAX as int
            } else {
                short
            },
        )
    }
}

/// How many bytes of `buffer_len` replace bytes that are in a file already.
pub open spec fn replaced_len(data_len: int, buffer_len: int, offset: int, to_end: bool) -> int {
    if to_end || offset >= data_len {
        0
    } else if buffer_len < data_len - offset {
        buffer_len
    } else {
        data_len - offset
    }
}

/// The bytes of a file after `buffer` was written to it. What does not replace other
/// bytes is added at the end, but not if the size of the file must stay.
pub open spec fn written_to(
    data: Seq<u8>,
    buffer: Seq<u8>,
    offset: int,
    to_end: bool,
    constrained: bool,
) -> Seq<u8> {
    let n = replaced_len(data.len() as int, buffer.len() as int, offset, to_end);
    let replaced = if n == 0 {
        data
    } else {
        data.take(offset) + buffer.take(n) + data.skip(offset + n)
    };
    if constrained {
        replaced
    } else {
        replaced + buffer.skip(n)
    }
}

/// The number of bytes in some of the files.
pub open spec fn used_by(files: Map<u64, FileView>, ids: Set<u64>) -> int {
    ids.fold(0int, |sum: int, id: u64| sum + file_of(files, id).data.len())
}

/// The number of bytes in all files.
pub open spec fn used_space(files: Map<u64, FileView>) -> int {
    used_by(files, files.dom())
}

/// No files have no bytes.
proof fn lemma_nothing_used(files: Map<u64, FileView>, ids: Seq<u64>)
    ensures
        used_by(files, ids.take(0).to_set()) == 0,
{
    assert(ids.take(0).to_set() == Set::<u64>::empty());
    vstd::set::fold::lemma_fold_empty(
        0int,
        |sum: int, id: u64| sum + file_of(files, id).data.len(),
    );
}

/// One more file of a list.
proof fn lemma_used_with_next(files: Map<u64, FileView>, ids: Seq<u64>, i: int)
    requires
        0 <= i < ids.len(),
        ids.no_duplicates(),
    ensures
        used_by(files, ids.take(i + 1).to_set()) == used_by(files, ids.take(i).to_set()) + file_of(
            files,
            ids[i],
        ).data.len(),
{
    let before = ids.take(i).to_set();
    let after = ids.take(i + 1);
    assert(!before.contains(ids[i])) by {
        if before.contains(ids[i]) {
            let k = choose|k: int| 0 <= k < i && ids.take(i)[k] == ids[i];
            assert(ids[k] == ids[i]);
        }
    }
    assert(after.to_set() == before.insert(ids[i])) by {
        assert forall|id: u64| after.to_set().contains(id) <==> before.insert(ids[i]).contains(
            id,
        ) by {
            if before.contains(id) {
                let k = choose|k: int| 0 <= k < i && ids.take(i)[k] == id;
                assert(after[k] == id);
            }
            if id == ids[i] {
                assert(after[i] == id);
            }
            if after.contains(id) && id != ids[i] {
                let k = choose|k: int| 0 <= k < i + 1 && after[k] == id;
                assert(ids.take(i)[k] == id);
            }
        }
    }
    vstd::seq_lib::seq_to_set_is_finite(ids.take(i));
    vstd::set::fold::lemma_fold_insert(
        before,
        0int,
        |sum: int, id: u64| sum + file_of(files, id).data.len(),
        ids[i],
    );
}

/// Different references to numbers are to different numbers.
proof fn lemma_no_duplicates(ids: Seq<&u64>)
    requires
        ids.no_duplicates(),
    ensures
        ids.unref().no_duplicates(),
{
    assert forall|i: int, j: int|
        0 <= i < ids.len() && 0 <= j < ids.len() && i != j implies ids.unref()[i]
        != ids.unref()[j] by {
        assert(ids[i] != ids[j]);
    }
}

/// What a file system tells about itself.
#[derive(Debug, Clone, Copy, PartialEq, Eq, Structural)]
pub struct MemFsVolumeInfo {
    pub total_size: u64,
    pub free_size: u64,
}

/// An entry of a folder with what the file system tells about it.
#[derive(Debug)]
pub struct MemFsDirEntry {
    pub name: Vec<u16>,
    pub info: MemFsFileInfo,
}

pub open spec fn dir_entry_views(entries: Seq<MemFsDirEntry>) -> Seq<(Seq<u16>, MemFsFileInfo)> {
    entries.map_values(|e: MemFsDirEntry| (e.name@, e.info))
}

/// What is listed for a folder.
pub open spec fn listing(files: Map<u64, FileView>, id: u64) -> Seq<(Seq<u16>, MemFsFileInfo)> {
    file_of(files, id).children.map_values(
        |c: (Seq<u16>, u64)| (c.0, info_of(file_of(files, c.1))),
    )
}

/// Whether a new file is a folder.
pub fn is_directory_request(create_options: u32) -> (result: bool)
    ensures
        result == (create_options & FILE_DIRECTORY_FILE != 0),
{
    create_options & FILE_DIRECTORY_FILE != 0
}

/// Whether a file has the same number, folder and entries as before.
pub open spec fn same_place(before: FileView, after: FileView) -> bool {
    &&& after.id == before.id
    &&& after.parent == before.parent
    &&& after.children == before.children
}

impl WinFspMemFsContextState {
    /// The file with the given number, or the one at the given path if no number is
    /// given.
    pub fn get_node(&self, path: &Vec<u16>, id: Option<WinFspMemFsFileId>) -> (result: Result<
        Option<&WinFspMemFsFile>,
        MemFsError,
    >)
        requires
            self.wf(),
        ensures
            match id {
                Some(id) => {
                    &&& result matches Ok(file)
                    &&& file is Some <==> has_file(self.files(), id.0)
                    &&& file matches Some(file) ==> file@ == file_of(self.files(), id.0)
                },
                None => match lookup(self.files(), path@, None) {
                    Err(e) => result matches Err(error) && error == e,
                    Ok(found) => {
                        &&& result matches Ok(file)
                        &&& file is Some <==> found.node is Some
                        &&& file matches Some(file) ==> file@ == file_of(
                            self.files(),
                            found.node->0,
                        )
                    },
                },
            },
    {
        proof {
            lemma_lookup(self.files(), path@, self.prev_file_id);
        }
        let id = match id {
            Some(id) => id,
            None => match self.lookup_node(path, None) {
                Err(e) => {
                    return Err(e);
                },
                Ok(found) => match found.node {
                    Some(id) => id,
                    None => {
                        return Ok(None);
                    },
                },
            },
        };
        Ok(self.find(id.0))
    }

    /// The file with the given number, or the one at the given path if no number is
    /// given. What is changed of it is changed in the file system.
    pub fn get_node_mut(&mut self, path: &Vec<u16>, id: Option<WinFspMemFsFileId>) -> (result:
        Result<Option<&mut WinFspMemFsFile>, MemFsError>)
        requires
            old(self).wf(),
        ensures
            final(self).last_id() == old(self).last_id(),
            ({
                let files = old(self).files();
                let found = match id {
                    Some(id) => if has_file(files, id.0) {
                        Ok(Some(id.0))
                    } else {
                        Ok(None)
                    },
                    None => match lookup(files, path@, None) {
                        Err(e) => Err(e),
                        Ok(found) => Ok(found.node),
                    },
                };
                match result {
                    Err(e) => {
                        &&& found == Err::<Option<u64>, MemFsError>(e)
                        &&& final(self).files() == files
                    },
                    Ok(None) => {
                        &&& found == Ok::<Option<u64>, MemFsError>(None)
                        &&& final(self).files() == files
                    },
                    Ok(Some(file)) => {
                        let after = files.insert(found->Ok_0->0, final(file)@);
                        &&& found is Ok && found->Ok_0 is Some
                        &&& file@ == file_of(files, found->Ok_0->0)
                        &&& final(self).files() == after
                        &&& same_place(file@, final(file)@) ==> files_ok(
                            after,
                            final(self).last_id(),
                        )
                    },
                }
            }),
    {
        proof {
            lemma_lookup(self.files(), path@, self.prev_file_id);
        }
        let id = match id {
            Some(id) => id,
            None => match self.lookup_node(path, None) {
                Err(e) => {
                    return Err(e);
                },
                Ok(found) => match found.node {
                    Some(id) => id,
                    None => {
                        return Ok(None);
                    },
                },
            },
        };
        let ghost files = self.files();
        proof {
            if has_file(files, id.0) {
                assert forall|after: FileView| #[trigger]
                    same_place(file_of(files, id.0), after) implies files_ok(
                    files.insert(id.0, after),
                    self.prev_file_id,
                ) by {
                    lemma_contents_changed(files, after, self.prev_file_id);
                }
            }
        }
        Ok(self.find_mut(id.0))
    }

    /// What the file system tells about a file.
    pub fn get_file_info(&self, context: WinFspMemFsFileId) -> (info: MemFsFileInfo)
        requires
            has_file(self.files(), context.0),
        ensures
            info == info_of(file_of(self.files(), context.0)),
    {
        match self.find(context.0) {
            Some(file) => file.fill_in_file_info(),
            None => {
                assert(false);
                MemFsFileInfo { attributes: 0, hard_links: 0, size: 0 }
            },
        }
    }

    /// The attributes of the file at the given path.
    pub fn get_security_by_name(&self, path: &Vec<u16>) -> (result: Result<u32, MemFsError>)
        requires
            self.wf(),
        ensures
            result == match lookup(self.files(), path@, None) {
                Err(e) => Err(e),
                Ok(found) => match found.node {
                    None => Err(MemFsError::NotFound),
                    Some(id) => Ok(info_of(file_of(self.files(), id)).attributes),
                },
            },
    {
        match self.get_node(path, None) {
            Err(e) => Err(e),
            Ok(None) => Err(MemFsError::NotFound),
            Ok(Some(file)) => Ok(file.file_attributes()),
        }
    }

    /// The entries of a folder.
    pub fn read_directory(&self, context: WinFspMemFsFileId) -> (entries: Vec<MemFsDirEntry>)
        requires
            self.wf(),
            has_file(self.files(), context.0),
        ensures
            dir_entry_views(entries@) == listing(self.files(), context.0),
    {
        let mut entries: Vec<MemFsDirEntry> = Vec::new();
        let ghost files = self.files();
        let folder = match self.find(context.0) {
            Some(folder) => folder,
            None => {
                assert(false);
                return entries;
            },
        };
        let ghost all = listing(files, context.0);
        let ghost children = file_of(files, context.0).children;
        proof {
            assert(children == child_views(folder.children@));
            assert(dir_entry_views(entries@) == all.take(0));
        }
        let mut i: usize = 0;
        while i < folder.children.len()
            invariant
                self.wf(),
                has_file(files, context.0),
                files == self.files(),
                children == child_views(folder.children@),
                children == file_of(files, context.0).children,
                i <= children.len(),
                all == listing(files, context.0),
                dir_entry_views(entries@) == all.take(i as int),
            decreases children.len() - i,
        {
            let child = &folder.children[i];
            let ghost before = entries@;
            proof {
                assert(children[i as int] == (child.name@, child.id.0));
                assert(has_file(files, file_of(files, context.0).children[i as int].1));
            }
            let info = self.get_file_info(child.id);
            let name = child.name.clone();
            assert(name@ == child.name@);
            entries.push(MemFsDirEntry { name, info });
            proof {
                assert(all[i as int] == (child.name@, info));
                assert(dir_entry_views(entries@) == dir_entry_views(before).push(all[i as int]));
                assert(all.take(i + 1) == all.take(i as int).push(all[i as int]));
            }
            i = i + 1;
        }
        assert(all.take(i as int) == all);
        entries
    }

    /// Reads at most `len` bytes from an offset on.
    pub fn read(&self, context: WinFspMemFsFileId, len: usize, offset: u64) -> (bytes: Vec<u8>)
        requires
            has_file(self.files(), context.0),
        ensures
            bytes@ == bytes_at(file_of(self.files(), context.0).data, len as int, offset as int),
    {
        let file = match self.find(context.0) {
            Some(file) => file,
            None => {
                assert(false);
                return Vec::new();
            },
        };
        let data = &file.data;
        let data_len: usize = data.len();
        if offset >= data_len as u64 {
            let bytes: Vec<u8> = Vec::new();
            assert(bytes@ == Seq::<u8>::empty());
            return bytes;
        }
        let start: usize = offset as usize;
        let rest: usize = data_len - start;
        let short: usize = if len < rest {
            len
        } else {
            rest
        };
        let count: usize = if short as u64 > u32::MAX as u64 {
            u32::MAX as usize
        } else {
            short
        };
        let mut bytes: Vec<u8> = Vec::new();
        let mut i: usize = 0;
        while i < count
            invariant
                i <= count,
                start + count <= data_len,
                data_len == data@.len(),
                bytes@ == data@.subrange(start as int, start + i),
            decreases count - i,
        {
            bytes.push(data[start + i]);
            i = i + 1;
        }
        bytes
    }

    /// Writes bytes to a file. From `offset` on they replace those of the file, unless
    /// they are written to the end of it. The rest is added at the end, unless the size
    /// of the file must stay; nothing is told about the file in that case.
    #[verifier::spinoff_prover]
    pub fn write(
        &mut self,
        context: WinFspMemFsFileId,
        buffer: &Vec<u8>,
        offset: u64,
        write_to_eof: bool,
        constrained_io: bool,
    ) -> (result: (u32, Option<MemFsFileInfo>))
        requires
            old(self).wf(),
            has_file(old(self).files(), context.0),
            buffer@.len() <= u32::MAX,
        ensures
            final(self).wf(),
            final(self).last_id() == old(self).last_id(),
            ({
                let file = file_of(old(self).files(), context.0);
                let after = FileView {
                    data: written_to(
                        file.data,
                        buffer@,
                        offset as int,
                        write_to_eof,
                        constrained_io,
                    ),
                    ..file
                };
                &&& final(self).files() == with_file(old(self).files(), after)
                &&& result.0 == if constrained_io {
                    replaced_len(
                        file.data.len() as int,
                        buffer@.len() as int,
                        offset as int,
                        write_to_eof,
                    )
                } else {
                    buffer@.len() as int
                }
                &&& result.1 == if constrained_io {
                    None
                } else {
                    Some(info_of(after))
                }
            }),
    {
        let ghost before = self.files();
        let node = match self.find(context.0) {
            Some(node) => node,
            None => {
                assert(false);
                return (0, None);
            },
        };
        let ghost file = file_of(before, context.0);
        let ghost data = file.data;
        let data_len: usize = node.data.len();
        let buffer_len: usize = buffer.len();
        let count: usize = if write_to_eof || offset >= data_len as u64 {
            0
        } else {
            let rest: usize = data_len - offset as usize;
            if buffer_len < rest {
                buffer_len
            } else {
                rest
            }
        };
        let ghost all = written_to(data, buffer@, offset as int, write_to_eof, constrained_io);
        let mut bytes: Vec<u8> = Vec::new();
        let mut i: usize = 0;
        let start: usize = if count > 0 {
            offset as usize
        } else {
            0
        };
        while i < data_len
            invariant
                i <= data_len,
                node.data@ == data,
                data_len == data.len(),
                count <= buffer@.len(),
                start + count <= data_len,
                bytes@.len() == i,
                forall|k: int|
                    0 <= k < i ==> #[trigger] bytes@[k] == if start <= k < start + count {
                        buffer@[k - start]
                    } else {
                        data[k]
                    },
            decreases data_len - i,
        {
            if start <= i && i - start < count {
                bytes.push(buffer[i - start]);
            } else {
                bytes.push(node.data[i]);
            }
            i = i + 1;
        }
        let ghost replaced = if count == 0 {
            data
        } else {
            data.take(offset as int) + buffer@.take(count as int) + data.skip(offset + count)
        };
        assert(bytes@ == replaced);
        if !constrained_io {
            let mut j: usize = count;
            assert(buffer@.subrange(count as int, count as int) == Seq::<u8>::empty());
            while j < buffer_len
                invariant
                    count <= j <= buffer_len,
                    buffer_len == buffer@.len(),
                    bytes@ == replaced + buffer@.subrange(count as int, j as int),
                decreases buffer_len - j,
            {
                bytes.push(buffer[j]);
                j = j + 1;
                assert(buffer@.subrange(count as int, j as int) == buffer@.subrange(
                    count as int,
                    j - 1,
                ).push(buffer@[j - 1]));
            }
            assert(buffer@.subrange(count as int, j as int) == buffer@.skip(count as int));
        }
        assert(bytes@ == all);
        let mut info: Option<MemFsFileInfo> = None;
        if let Some(node) = self.find_mut(context.0) {
            node.data = bytes;
            if !constrained_io {
                info = Some(node.fill_in_file_info());
            }
        }
        proof {
            let after = FileView { data: all, ..file };
            assert(self.files() == with_file(before, after));
            lemma_contents_changed(before, after, self.prev_file_id);
        }
        if constrained_io {
            (count as u32, info)
        } else {
            (buffer_len as u32, info)
        }
    }

    /// The size of the file system and how much of it is not in use.
    pub fn get_volume_info(&self) -> (info: MemFsVolumeInfo)
        ensures
            info.total_size == TOTAL_SIZE,
            info.free_size == if used_space(self.files()) < TOTAL_SIZE {
                TOTAL_SIZE - used_space(self.files())
            } else {
                0
            },
    {
        broadcast use vstd::std_specs::hash::group_hash_axioms;

        let ghost files = self.files();
        let mut used: u64 = 0;
        let ghost ids = self.files.keys().remaining().unref();
        proof {
            lemma_no_duplicates(self.files.keys().remaining());
            lemma_nothing_used(files, ids);
        }
        for id in iter: self.files.keys()
            invariant
                files == self.files(),
                iter.seq().unref() == ids,
                ids.no_duplicates(),
                ids.to_set() == files.dom(),
                used_by(files, ids.take(iter.index()).to_set()) <= u64::MAX ==> used == used_by(
                    files,
                    ids.take(iter.index()).to_set(),
                ),
                used_by(files, ids.take(iter.index()).to_set()) > u64::MAX ==> used == u64::MAX,
        {
            proof {
                let i = iter.index();
                assert(ids[i] == *id);
                lemma_used_with_next(files, ids, i);
                assert(ids.to_set().contains(*id));
            }
            if let Some(file) = self.find(*id) {
                used = used.saturating_add(file.data.len() as u64);
            }
        }
        assert(ids.take(ids.len() as int) == ids);
        MemFsVolumeInfo { total_size: TOTAL_SIZE, free_size: TOTAL_SIZE.saturating_sub(used) }
    }
}

/// Bytes that were written are read at the place they were written to. That is the end
/// of the file if they are to be written there or beyond it.
pub proof fn law_written_bytes_are_read(data: Seq<u8>, buffer: Seq<u8>, offset: int, to_end: bool)
    requires
        0 <= offset,
        buffer.len() <= u32::MAX,
    ensures
        ({
            let place = if to_end || offset > data.len() {
                data.len() as int
            } else {
                offset
            };
            bytes_at(
                written_to(data, buffer, offset, to_end, false),
                buffer.len() as int,
                place,
            ) == buffer
        }),
{
    let n = replaced_len(data.len() as int, buffer.len() as int, offset, to_end);
    let all = written_to(data, buffer, offset, to_end, false);
    let place = if to_end || offset > data.len() {
        data.len() as int
    } else {
        offset
    };
    if n == 0 {
        assert(all == data + buffer);
    }
    assert(all.len() >= place + buffer.len());
    assert(all.subrange(place, place + buffer.len()) == buffer);
}

/// Bytes in front of the place that is written to stay, and a file whose size must
/// stay keeps it.
pub proof fn law_other_bytes_stay(
    data: Seq<u8>,
    buffer: Seq<u8>,
    offset: int,
    to_end: bool,
    constrained: bool,
    i: int,
)
    requires
        0 <= offset,
        0 <= i < data.len(),
        to_end || i < offset || offset + buffer.len() <= i,
    ensures
        ({
            let all = written_to(data, buffer, offset, to_end, constrained);
            &&& all.len() >= data.len()
            &&& all[i] == data[i]
            &&& constrained ==> all.len() == data.len()
        }),
{
}

/// Looking for one more name.
pub proof fn lemma_one_more_piece(
    files: Map<u64, FileView>,
    pieces: Seq<Seq<u16>>,
    name: Seq<u16>,
    k: int,
    found: FoundView,
    last_len: int,
)
    requires
        0 < name.len() <= MAX_NAME_LEN,
        0 <= k <= pieces.len(),
        found_from(files, pieces, k, found, last_len, None) matches Ok(r) && r.node is Some,
    ensures
        ({
            let folder = (found_from(files, pieces, k, found, last_len, None)->Ok_0).node->0;
            found_from(files, pieces.push(name), k, found, last_len, None) matches Ok(r) && {
                &&& r.parent == folder
                &&& r.name == name
                &&& r.node == child_with(file_of(files, folder).children, name)
            }
        }),
    decreases pieces.len() - k,
{
    let all = pieces.push(name);
    if k == pieces.len() {
        assert(all[k] == name);
        let n = found.node->0;
        let start = found.parent_len + if k > 0 {
            1int
        } else {
            0int
        };
        let next = FoundView {
            parent: n,
            parent_len: start + last_len,
            name,
            node: child_with(file_of(files, n).children, name),
        };
        assert(found_from(files, all, k + 1, next, name.len() as int, None) == Ok::<
            FoundView,
            MemFsError,
        >(next));
    } else {
        let piece = pieces[k];
        assert(all[k] == piece);
        let start = found.parent_len + if k > 0 {
            1int
        } else {
            0int
        };
        if piece.len() == 0 {
            lemma_one_more_piece(
                files,
                pieces,
                name,
                k + 1,
                FoundView { parent_len: start + last_len, ..found },
                0,
            );
        } else {
            let n = found.node->0;
            lemma_one_more_piece(
                files,
                pieces,
                name,
                k + 1,
                FoundView {
                    parent: n,
                    parent_len: start + last_len,
                    name: piece,
                    node: child_with(file_of(files, n).children, piece),
                },
                piece.len() as int,
            );
        }
    }
}

/// A path ends with what follows its last separator.
pub proof fn lemma_last_piece(head: Seq<u16>, path: Seq<u16>, name: Seq<u16>, slash: u16)
    requires
        is_slash(slash),
        forall|i: int| 0 <= i < name.len() ==> !is_slash(#[trigger] name[i]),
    ensures
        pieces_after(head, path + seq![slash] + name) == pieces_after(head, path).push(name),
    decreases path.len(),
{
    let all = path + seq![slash] + name;
    if path.len() == 0 {
        assert(all[0] == slash);
        assert(all.skip(1) == name);
        lemma_only_piece(Seq::empty(), name);
        assert(Seq::<u16>::empty() + name == name);
        assert(seq![head] + seq![name] == seq![head].push(name));
    } else {
        assert(all[0] == path[0]);
        assert(all.skip(1) == path.skip(1) + seq![slash] + name);
        if is_slash(path[0]) {
            lemma_last_piece(Seq::empty(), path.skip(1), name, slash);
            let rest = pieces_after(Seq::empty(), path.skip(1));
            assert(seq![head] + rest.push(name) == (seq![head] + rest).push(name));
        } else {
            lemma_last_piece(head.push(path[0]), path.skip(1), name, slash);
        }
    }
}

proof fn lemma_only_piece(head: Seq<u16>, name: Seq<u16>)
    requires
        forall|i: int| 0 <= i < name.len() ==> !is_slash(#[trigger] name[i]),
    ensures
        pieces_after(head, name) == seq![head + name],
    decreases name.len(),
{
    if name.len() == 0 {
        assert(head + name == head);
    } else {
        assert(!is_slash(name[0]));
        assert forall|i: int| 0 <= i < name.skip(1).len() implies !is_slash(
            #[trigger] name.skip(1)[i],
        ) by {
            assert(name.skip(1)[i] == name[i + 1]);
        }
        lemma_only_piece(head.push(name[0]), name.skip(1));
        assert(head.push(name[0]) + name.skip(1) == head + name);
    }
}

/// What was found is found after one more file was made.
proof fn lemma_still_found(
    files: Map<u64, FileView>,
    after: Map<u64, FileView>,
    folder: u64,
    name: Seq<u16>,
    id: u64,
    pieces: Seq<Seq<u16>>,
    k: int,
    found: FoundView,
    last_len: int,
)
    requires
        forall|x: u64| #[trigger] has_file(files, x) ==> children_ok(files, file_of(files, x)),
        forall|x: u64|
            has_file(files, x) ==> (#[trigger] file_of(after, x)).children == if x == folder {
                file_of(files, folder).children.push((name, id))
            } else {
                file_of(files, x).children
            },
        name_place(file_of(files, folder).children, name) is None,
        found.node matches Some(n) ==> has_file(files, n),
        0 <= k,
        found_from(files, pieces, k, found, last_len, None) matches Ok(r) && r.node is Some,
    ensures
        found_from(after, pieces, k, found, last_len, None) == found_from(
            files,
            pieces,
            k,
            found,
            last_len,
            None,
        ),
    decreases pieces.len() - k,
{
    if k < pieces.len() {
        let piece = pieces[k];
        let start = found.parent_len + if k > 0 {
            1int
        } else {
            0int
        };
        if piece.len() == 0 {
            lemma_still_found(
                files,
                after,
                folder,
                name,
                id,
                pieces,
                k + 1,
                FoundView { parent_len: start + last_len, ..found },
                0,
            );
        } else if piece.len() <= MAX_NAME_LEN {
            let n = found.node->0;
            let file = file_of(files, n);
            let next = FoundView {
                parent: n,
                parent_len: start + last_len,
                name: piece,
                node: child_with(file.children, piece),
            };
            lemma_name_place(file.children, piece);
            if next.node is None {
                lemma_nothing_below(files, pieces, k + 1, next, piece.len() as int);
            }
            let i = name_place(file.children, piece)->0;
            assert(has_file(files, file.children[i].1));
            assert(piece != name || n != folder);
            let changed = file_of(after, n).children;
            if n == folder {
                assert(changed.drop_last() == file.children);
                assert(changed.last() == (name, id));
            }
            assert(child_with(changed, piece) == child_with(file.children, piece));
            lemma_still_found(
                files,
                after,
                folder,
                name,
                id,
                pieces,
                k + 1,
                next,
                piece.len() as int,
            );
        }
    }
}

/// Nothing is found below a name that is not found.
proof fn lemma_nothing_below(
    files: Map<u64, FileView>,
    pieces: Seq<Seq<u16>>,
    k: int,
    found: FoundView,
    last_len: int,
)
    requires
        found.node is None,
        0 <= k,
    ensures
        found_from(files, pieces, k, found, last_len, None) matches Ok(r) ==> r.node is None,
    decreases pieces.len() - k,
{
    if k < pieces.len() && pieces[k].len() == 0 {
        let start = found.parent_len + if k > 0 {
            1int
        } else {
            0int
        };
        lemma_nothing_below(
            files,
            pieces,
            k + 1,
            FoundView { parent_len: start + last_len, ..found },
            0,
        );
    }
}

/// A file that was made in a folder is found at its path, with the bytes that it was
/// made with.
pub proof fn law_made_files_are_found(
    files: Map<u64, FileView>,
    last_id: u64,
    folder_path: Seq<u16>,
    slash: u16,
    name: Seq<u16>,
    is_dir: bool,
    data: Seq<u8>,
    id: u64,
)
    requires
        files_ok(files, last_id),
        last_id < id,
        lookup(files, folder_path, None) matches Ok(found) && found.node is Some,
        is_slash(slash),
        forall|i: int| 0 <= i < name.len() ==> !is_slash(#[trigger] name[i]),
        0 < name.len() <= MAX_NAME_LEN,
    ensures
        ({
            let path = folder_path + seq![slash] + name;
            made(files, path, is_dir, data, id) matches Ok(after) ==> {
                &&& lookup(after, path, None) matches Ok(found) && found.node == Some(id)
                &&& file_of(after, id).data == data
                &&& file_of(after, id).is_dir == is_dir
            }
        }),
{
    let path = folder_path + seq![slash] + name;
    let list = pieces(folder_path);
    let start = FoundView {
        parent: ROOT_ID,
        parent_len: 0,
        name: seq![],
        node: Some(ROOT_ID),
    };
    lemma_last_piece(Seq::empty(), folder_path, name, slash);
    lemma_lookup(files, folder_path, last_id);
    lemma_one_more_piece(files, list, name, 0, start, 0);
    let folder = (lookup(files, folder_path, None)->Ok_0).node->0;
    if let Ok(after) = made(files, path, is_dir, data, id) {
        let parent = file_of(files, folder);
        let file = FileView { data, parent: Some(folder), ..FileView::fresh(id, is_dir) };
        let more = FileView { children: with_child(parent.children, name, id), ..parent };
        lemma_name_place(parent.children, name);
        assert(after == with_file(with_file(files, more), file));
        assert forall|x: u64| has_file(files, x) implies (#[trigger] file_of(after, x)).children
            == if x == folder {
            parent.children.push((name, id))
        } else {
            file_of(files, x).children
        } by {
            assert(x <= last_id);
        }
        lemma_still_found(files, after, folder, name, id, list, 0, start, 0);
        lemma_one_more_piece(after, list, name, 0, start, 0);
        let entries = file_of(after, folder).children;
        assert(entries.last() == (name, id));
    }
}

/// A file that moves to another folder is in that folder under its new name, knows
/// that it is there, and is in the folder it came from no more.
pub proof fn law_moved_files_are_in_their_folder(
    files: Map<u64, FileView>,
    context: u64,
    folder: u64,
    name: Seq<u16>,
)
    requires
        has_file(files, context),
        has_file(files, folder),
        numbered(files),
        file_of(files, context).parent matches Some(previous) ==> has_file(files, previous)
            && previous != folder,
    ensures
        ({
            let after = moved(files, context, folder, name);
            &&& child_with(file_of(after, folder).children, name) == Some(context)
            &&& file_of(after, context).parent == Some(folder)
            &&& file_of(after, context).data == file_of(files, context).data
            &&& file_of(files, context).parent matches Some(previous) ==> forall|k: int|
                0 <= k < file_of(after, previous).children.len() ==> (
                #[trigger] file_of(after, previous).children[k]).1 != context
        }),
{
    let target = file_of(files, folder);
    let more = with_child(target.children, name, context);
    let filled = FileView { children: more, ..target };
    let first = with_file(files, filled);
    let node = file_of(first, context);
    let second = with_file(first, FileView { parent: Some(folder), ..node });
    lemma_name_place(target.children, name);
    match name_place(target.children, name) {
        Some(i) => {
            lemma_entry_replaced(target.children, name, context, i);
        },
        None => {
            assert(more.last() == (name, context));
        },
    }
    if let Some(previous) = node.parent {
        lemma_without_id(file_of(second, previous).children, context);
    }
}

proof fn lemma_entry_replaced(children: Seq<(Seq<u16>, u64)>, name: Seq<u16>, id: u64, i: int)
    requires
        name_place(children, name) == Some(i),
    ensures
        child_with(children.update(i, (name, id)), name) == Some(id),
    decreases children.len(),
{
    lemma_name_place(children, name);
    let after = children.update(i, (name, id));
    if i < children.len() - 1 {
        assert(after.drop_last() == children.drop_last().update(i, (name, id)));
        lemma_entry_replaced(children.drop_last(), name, id, i);
        assert(name_place(after, name) == name_place(after.drop_last(), name));
        lemma_name_place(after.drop_last(), name);
    }
}

} // verus!
