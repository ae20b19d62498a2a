//! Reading the snapshots that eDirStat makes.
//!
//! A snapshot is an arena of nodes that are linked by their places in it.
use edirstat_core::arena::FileArenaSnapshot;
use vstd::prelude::*;

use crate::fs_build::{built_tree, FsIndexBuildOptions};
use crate::fs_builder::record_views;
use crate::fs_index::FsIndex;
use crate::metadata::FsEntryMetadata;
use crate::text::{
    char_is_separator, chars_of, ends_with_separator, is_separator, text_ends_with_separator,
    views, DEFAULT_PATH_SEPARATOR,
};
use crate::text_lines::{is_blank, text_is_blank};
use crate::timestamp::{law_unix_seconds_are_unique, Timestamp};
use crate::wiztree_csv::{RecordView, WizTreeCsvRecord};

verus! {

/// The place that means that there is no node.
pub const NO_NODE: u32 = 0xffff_ffff;

/// A file or a folder of a snapshot.
#[derive(Debug)]
pub struct SnapshotNode {
    /// The name, `None` if it is not known.
    pub name: Option<String>,
    pub size: u64,
    /// Seconds since the start of 1970.
    pub modified: i64,
    pub is_directory: bool,
    /// The place of the parent, `NO_NODE` if there is none.
    pub parent: u32,
    pub first_child: Option<u32>,
    pub next_sibling: Option<u32>,
    pub file_count: u32,
    /// The number of folders inside the node, `None` if it is not known.
    pub dir_count: Option<u32>,
}

/// What a node of a snapshot says.
#[verifier::ext_equal]
pub struct NodeView {
    pub name: Option<Seq<char>>,
    pub size: u64,
    pub modified: i64,
    pub is_directory: bool,
    pub parent: u32,
    pub first_child: Option<u32>,
    pub next_sibling: Option<u32>,
    pub file_count: u32,
    pub dir_count: Option<u32>,
}

impl View for SnapshotNode {
    type V = NodeView;

    open spec fn view(&self) -> NodeView {
        NodeView {
            name: match self.name {
                Some(name) => Some(name@),
                None => None,
            },
            size: self.size,
            modified: self.modified,
            is_directory: self.is_directory,
            parent: self.parent,
            first_child: self.first_child,
            next_sibling: self.next_sibling,
            file_count: self.file_count,
            dir_count: self.dir_count,
        }
    }
}

pub open spec fn node_views(nodes: Seq<SnapshotNode>) -> Seq<NodeView> {
    nodes.map_values(|n: SnapshotNode| n@)
}

/// Why a snapshot cannot be read.
#[derive(Debug, Clone, Copy, PartialEq, Eq, Structural)]
pub enum SnapshotError {
    /// A link leads outside of the arena, or links to siblings or parents never end.
    BrokenLink,
    /// A modification time cannot be represented.
    InvalidTime,
    /// A name has a path separator in it.
    SeparatorInName,
    /// The records of the nodes do not form an index.
    NotAnIndex,
}

/// The next sibling that belongs to the same parent. Others are left out, at most
/// the given number.
pub open spec fn sibling_of(
    nodes: Seq<NodeView>,
    sibling: Option<u32>,
    parent: u32,
    others: nat,
) -> Result<Option<u32>, SnapshotError>
    decreases others,
{
    match sibling {
        None => Ok(None),
        Some(s) => if s >= nodes.len() {
            Err(SnapshotError::BrokenLink)
        } else if nodes[s as int].parent == parent {
            Ok(Some(s))
        } else if others == 0 {
            Err(SnapshotError::BrokenLink)
        } else {
            sibling_of(nodes, nodes[s as int].next_sibling, parent, (others - 1) as nat)
        },
    }
}

/// The places to visit next, the last one first, after the node at the last place
/// was visited. Children come before siblings.
pub open spec fn next_places(nodes: Seq<NodeView>, places: Seq<u32>) -> Result<
    Seq<u32>,
    SnapshotError,
> {
    let at = places.last();
    if at >= nodes.len() {
        Err(SnapshotError::BrokenLink)
    } else {
        let node = nodes[at as int];
        match sibling_of(nodes, node.next_sibling, node.parent, nodes.len()) {
            Err(e) => Err(e),
            Ok(sibling) => {
                let after = match sibling {
                    Some(s) => places.drop_last().push(s),
                    None => places.drop_last(),
                };
                match node.first_child {
                    Some(child) => if child >= nodes.len() {
                        Err(SnapshotError::BrokenLink)
                    } else if nodes[child as int].parent == at {
                        Ok(after.push(child))
                    } else {
                        Ok(after)
                    },
                    None => Ok(after),
                }
            },
        }
    }
}

/// A walk over the nodes of a snapshot, folders before everything inside them.
pub struct SnapshotWalk {
    nodes: Vec<SnapshotNode>,
    places: Vec<u32>,
}

impl SnapshotWalk {
    pub closed spec fn nodes(self) -> Seq<NodeView> {
        node_views(self.nodes@)
    }

    /// The places to visit next, the last one first.
    pub closed spec fn places(self) -> Seq<u32> {
        self.places@
    }

    /// Starts at the first node, which is the root.
    pub fn new(nodes: Vec<SnapshotNode>) -> (walk: Self)
        ensures
            walk.nodes() == node_views(nodes@),
            walk.places() == if nodes@.len() == 0 {
                Seq::<u32>::empty()
            } else {
                seq![0u32]
            },
    {
        let mut places: Vec<u32> = Vec::new();
        if nodes.len() > 0 {
            places.push(0);
        }
        let walk = SnapshotWalk { nodes, places };
        assert(nodes@.len() > 0 ==> walk.places() == seq![0u32]);
        walk
    }

    /// A node of the snapshot.
    pub fn node(&self, at: u32) -> (node: Option<&SnapshotNode>)
        ensures
            node is Some <==> at < self.nodes().len(),
            node matches Some(node) ==> node@ == self.nodes()[at as int],
    {
        if (at as usize) < self.nodes.len() {
            Some(&self.nodes[at as usize])
        } else {
            None
        }
    }

    /// The place of the next node. `None` if there are no more.
    pub fn next(&mut self) -> (place: Result<Option<u32>, SnapshotError>)
        ensures
            final(self).nodes() == old(self).nodes(),
            old(self).places().len() == 0 ==> place == Ok::<Option<u32>, SnapshotError>(None)
                && final(self).places() == old(self).places(),
            old(self).places().len() > 0 ==> match next_places(
                old(self).nodes(),
                old(self).places(),
            ) {
                Ok(after) => place == Ok::<Option<u32>, SnapshotError>(
                    Some(old(self).places().last()),
                ) && final(self).places() == after,
                Err(e) => place == Err::<Option<u32>, SnapshotError>(e) && final(self).places()
                    == old(self).places(),
            },
    {
        let ghost before = self.places@;
        let count: usize = self.places.len();
        if count == 0 {
            return Ok(None);
        }
        let at: u32 = self.places[count - 1];
        if at as usize >= self.nodes.len() {
            return Err(SnapshotError::BrokenLink);
        }
        assert(self.nodes()[at as int] == self.nodes@[at as int]@);
        let parent: u32 = self.nodes[at as usize].parent;
        let sibling = match self.find_sibling(self.nodes[at as usize].next_sibling, parent) {
            Ok(sibling) => sibling,
            Err(e) => {
                return Err(e);
            },
        };
        let child: Option<u32> = match self.nodes[at as usize].first_child {
            Some(child) => {
                if child as usize >= self.nodes.len() {
                    return Err(SnapshotError::BrokenLink);
                }
                assert(self.nodes()[child as int] == self.nodes@[child as int]@);
                if self.nodes[child as usize].parent == at {
                    Some(child)
                } else {
                    None
                }
            },
            None => None,
        };
        self.places.pop();
        assert(self.places@ == before.drop_last());
        if let Some(sibling) = sibling {
            self.places.push(sibling);
        }
        if let Some(child) = child {
            self.places.push(child);
        }
        Ok(Some(at))
    }

    /// Whether the parents of a node end.
    fn has_end(&self, at: u32) -> (result: bool)
        ensures
            result == parents_end(self.nodes(), at, self.nodes().len()),
    {
        parents_have_end(&self.nodes, at)
    }

    fn find_sibling(&self, sibling: Option<u32>, parent: u32) -> (found: Result<
        Option<u32>,
        SnapshotError,
    >)
        ensures
            found == sibling_of(self.nodes(), sibling, parent, self.nodes().len()),
    {
        let mut next: Option<u32> = sibling;
        let mut others: usize = self.nodes.len();
        loop
            invariant
                others <= self.nodes@.len(),
                sibling_of(self.nodes(), sibling, parent, self.nodes().len()) == sibling_of(
                    self.nodes(),
                    next,
                    parent,
                    others as nat,
                ),
            decreases others,
        {
            let at: u32 = match next {
                None => {
                    return Ok(None);
                },
                Some(at) => at,
            };
            if at as usize >= self.nodes.len() {
                return Err(SnapshotError::BrokenLink);
            }
            assert(self.nodes()[at as int] == self.nodes@[at as int]@);
            if self.nodes[at as usize].parent == parent {
                return Ok(Some(at));
            }
            if others == 0 {
                return Err(SnapshotError::BrokenLink);
            }
            others = others - 1;
            next = self.nodes[at as usize].next_sibling;
        }
    }
}

pub open spec fn is_folder(node: NodeView) -> bool {
    node.is_directory || node.first_child is Some
}

/// The name of a node, a replacement if it is blank.
pub open spec fn node_name(node: NodeView) -> Seq<char> {
    match node.name {
        Some(name) if !is_blank(name) => name,
        _ => "unknown"@,
    }
}

/// Whether a name is missing, so that the full path of the node lacks it.
pub open spec fn lacks_name(node: NodeView) -> bool {
    match node.name {
        Some(name) => is_blank(name),
        None => true,
    }
}

pub open spec fn with_separator(path: Seq<char>) -> Seq<char> {
    if ends_with_separator(path) {
        path
    } else {
        path.push(DEFAULT_PATH_SEPARATOR)
    }
}

/// The path of the record of a node with the given full path.
pub open spec fn record_path(node: NodeView, full_path: Seq<char>) -> Seq<char> {
    let named = if lacks_name(node) {
        with_separator(full_path) + node_name(node)
    } else {
        full_path
    };
    if is_folder(node) {
        with_separator(named)
    } else {
        named
    }
}

pub open spec fn has_separator(name: Seq<char>) -> bool {
    exists|i: int| 0 <= i < name.len() && is_separator(#[trigger] name[i])
}

/// Whether metadata is what a node says, which was modified at the given time.
pub open spec fn node_metadata(node: NodeView, modified: Timestamp) -> FsEntryMetadata {
    let is_dir = is_folder(node);
    FsEntryMetadata {
        size: node.size,
        allocated: node.size,
        modified,
        attributes: if is_dir {
            0x10
        } else {
            0x20
        },
        files: if is_dir {
            node.file_count as u64
        } else {
            0
        },
        folders: if is_dir && node.dir_count is Some {
            node.dir_count->0 as u64
        } else {
            0
        },
        is_dir,
        children: None,
        drive_capacity: None,
        free_space: None,
        used_space: None,
        reserved_space: None,
    }
}

/// Whether a number of seconds since the start of 1970 can be represented.
pub open spec fn time_exists(seconds: i64) -> bool {
    exists|t: Timestamp|
        #![trigger t.spec_unix_seconds()]
        t.valid() && t.spec_unix_seconds() == seconds
}

/// The record of a node. The name of the root can have path separators in it, other
/// names cannot.
pub fn node_record(node: &SnapshotNode, is_root: bool, full_path: &str) -> (record: Result<
    WizTreeCsvRecord,
    SnapshotError,
>)
    ensures
        match record {
            Ok(record) => {
                &&& time_exists(node.modified)
                &&& is_root || !has_separator(node_name(node@))
                &&& record.modified.valid()
                &&& record.modified.nanos == 0
                &&& record.modified.spec_unix_seconds() == node.modified
                &&& record@ == node_metadata(node@, record.modified).record(
                    record_path(node@, full_path@),
                )
            },
            Err(SnapshotError::InvalidTime) => !time_exists(node.modified),
            Err(SnapshotError::SeparatorInName) => {
                &&& time_exists(node.modified)
                &&& !is_root
                &&& has_separator(node_name(node@))
            },
            Err(SnapshotError::BrokenLink) | Err(SnapshotError::NotAnIndex) => false,
        },
{
    let is_dir: bool = node.is_directory || node.first_child.is_some();
    let modified = match Timestamp::from_unix_timestamp(node.modified) {
        Some(modified) => {
            assert(modified.spec_unix_seconds() == node.modified);
            modified
        },
        None => {
            return Err(SnapshotError::InvalidTime);
        },
    };
    let mut path: String = full_path.to_owned();
    let mut name: &str = "unknown";
    let mut named: bool = false;
    if let Some(text) = &node.name {
        if !text_is_blank(text.as_str()) {
            name = text.as_str();
            named = true;
        }
    }
    assert(name@ == node_name(node@));
    assert(named == !lacks_name(node@));
    if !named {
        if !text_ends_with_separator(path.as_str()) {
            path.push(DEFAULT_PATH_SEPARATOR);
        }
        path.append(name);
    }
    if is_dir && !text_ends_with_separator(path.as_str()) {
        path.push(DEFAULT_PATH_SEPARATOR);
    }
    assert(path@ == record_path(node@, full_path@));
    if !is_root && text_has_separator(name) {
        return Err(SnapshotError::SeparatorInName);
    }
    let info = FsEntryMetadata {
        size: node.size,
        allocated: node.size,
        modified,
        attributes: if is_dir {
            0x10
        } else {
            0x20
        },
        files: if is_dir {
            node.file_count as u64
        } else {
            0
        },
        folders: if is_dir {
            match node.dir_count {
                Some(count) => count as u64,
                None => 0,
            }
        } else {
            0
        },
        is_dir,
        children: None,
        drive_capacity: None,
        free_space: None,
        used_space: None,
        reserved_space: None,
    };
    let mut record = info.to_csv_record_without_filename();
    record.file_name = path;
    Ok(record)
}

fn text_has_separator(text: &str) -> (result: bool)
    ensures
        result == has_separator(text@),
{
    let chars = chars_of(text);
    let mut i: usize = 0;
    while i < chars.len()
        invariant
            i <= chars@.len(),
            chars@ == text@,
            forall|k: int| 0 <= k < i ==> !is_separator(#[trigger] text@[k]),
        decreases chars@.len() - i,
    {
        if char_is_separator(chars[i]) {
            assert(is_separator(text@[i as int]));
            return true;
        }
        i = i + 1;
    }
    false
}

/// The time that is a number of seconds after the start of 1970.
pub open spec fn time_of(seconds: i64) -> Timestamp {
    choose|t: Timestamp|
        #![trigger t.spec_unix_seconds()]
        t.valid() && t.nanos == 0 && t.spec_unix_seconds() == seconds
}

/// The record of a node with the given full path.
pub open spec fn record_of(node: NodeView, is_root: bool, full_path: Seq<char>) -> Result<
    RecordView,
    SnapshotError,
> {
    if !time_exists(node.modified) {
        Err(SnapshotError::InvalidTime)
    } else if !is_root && has_separator(node_name(node)) {
        Err(SnapshotError::SeparatorInName)
    } else {
        Ok(node_metadata(node, time_of(node.modified)).record(record_path(node, full_path)))
    }
}

/// Whether the parents of a node end after at most the given number of steps.
pub open spec fn parents_end(nodes: Seq<NodeView>, at: u32, steps: nat) -> bool
    decreases steps,
{
    ||| at >= nodes.len()
    ||| nodes[at as int].parent == NO_NODE
    ||| steps > 0 && parents_end(nodes, nodes[at as int].parent, (steps - 1) as nat)
}

/// The records of the nodes that are visited from some places on, at most the given
/// number. A walk over more of them never ends.
pub open spec fn walk_records(
    nodes: Seq<NodeView>,
    paths: Seq<Seq<char>>,
    places: Seq<u32>,
    left: nat,
) -> Result<Seq<RecordView>, SnapshotError>
    decreases left,
{
    if places.len() == 0 {
        Ok(seq![])
    } else if left == 0 {
        Err(SnapshotError::BrokenLink)
    } else {
        let at = places.last() as int;
        match next_places(nodes, places) {
            Err(e) => Err(e),
            Ok(after) => if !parents_end(nodes, places.last(), nodes.len()) {
                Err(SnapshotError::BrokenLink)
            } else {
                match record_of(nodes[at], at == 0, paths[at]) {
                    Err(e) => Err(e),
                    Ok(record) => match walk_records(nodes, paths, after, (left - 1) as nat) {
                        Err(e) => Err(e),
                        Ok(rest) => Ok(seq![record] + rest),
                    },
                }
            },
        }
    }
}

/// The records of a snapshot whose nodes have the given full paths.
pub open spec fn snapshot_records(nodes: Seq<NodeView>, paths: Seq<Seq<char>>) -> Result<
    Seq<RecordView>,
    SnapshotError,
> {
    walk_records(nodes, paths, seq![0u32], nodes.len())
}

/// Whether a result is the index of nodes with the given full paths. The index of a
/// snapshot without nodes is empty.
pub open spec fn is_index_of(
    nodes: Seq<NodeView>,
    paths: Seq<Seq<char>>,
    options: FsIndexBuildOptions<'_>,
    result: Result<FsIndex, SnapshotError>,
) -> bool {
    if nodes.len() == 0 {
        result matches Ok(index) && index.wf() && index.spec_root() is None
    } else {
        match snapshot_records(nodes, paths) {
            Err(e) => result matches Err(error) && error == e,
            Ok(records) => match built_tree(records[0], records, options) {
                Some(tree) => result matches Ok(index) && index.wf() && index.rooted()
                    && index.root_tree() == tree,
                None => result matches Err(SnapshotError::NotAnIndex),
            },
        }
    }
}

/// Makes an index of nodes with the given full paths.
pub fn index_of_nodes(
    nodes: Vec<SnapshotNode>,
    paths: &Vec<String>,
    options: FsIndexBuildOptions<'_>,
) -> (result: Result<FsIndex, SnapshotError>)
    requires
        paths@.len() == nodes@.len(),
    ensures
        is_index_of(node_views(nodes@), views(paths@), options, result),
{
    let count: usize = nodes.len();
    if count == 0 {
        return Ok(FsIndex::new());
    }
    let ghost all = node_views(nodes@);
    let ghost texts = views(paths@);
    let ghost goal = snapshot_records(all, texts);
    let mut walk = SnapshotWalk::new(nodes);
    let mut records: Vec<WizTreeCsvRecord> = Vec::new();
    let mut left: usize = count;
    proof {
        assert(record_views(records@) == Seq::<RecordView>::empty());
        if let Ok(rest) = goal {
            assert(record_views(records@) + rest == rest);
        }
    }
    loop
        invariant_except_break
            0 < count == all.len(),
            all == node_views(nodes@),
            walk.nodes() == all,
            texts == views(paths@),
            paths@.len() == count,
            left <= count,
            goal == snapshot_records(all, texts),
            records@.len() == count - left,
            left == count ==> walk.places() == seq![0u32],
            match walk_records(all, texts, walk.places(), left as nat) {
                Err(e) => goal == Err::<Seq<RecordView>, SnapshotError>(e),
                Ok(rest) => goal == Ok::<Seq<RecordView>, SnapshotError>(
                    record_views(records@) + rest,
                ),
            },
        ensures
            goal == Ok::<Seq<RecordView>, SnapshotError>(record_views(records@)),
            records@.len() > 0,
        decreases left,
    {
        let ghost places = walk.places();
        let ghost before = record_views(records@);
        let at: u32 = match walk.next() {
            Ok(Some(at)) => at,
            Ok(None) => {
                assert(before + Seq::<RecordView>::empty() == before);
                break;
            },
            Err(e) => {
                return Err(
                    if left == 0 {
                        SnapshotError::BrokenLink
                    } else {
                        e
                    },
                );
            },
        };
        if left == 0 {
            // More nodes than there are can only be visited by a walk that never ends.
            return Err(SnapshotError::BrokenLink);
        }
        let node = match walk.node(at) {
            Some(node) => node,
            None => {
                assert(false);
                return Err(SnapshotError::BrokenLink);
            },
        };
        assert(texts[at as int] == paths@[at as int]@);
        if !walk.has_end(at) {
            return Err(SnapshotError::BrokenLink);
        }
        let made = node_record(node, at == 0, paths[at as usize].as_str());
        proof {
            lemma_node_record(node@, at == 0, texts[at as int], made);
        }
        let record = match made {
            Ok(record) => record,
            Err(e) => {
                return Err(e);
            },
        };
        let ghost view = record@;
        records.push(record);
        left = left - 1;
        proof {
            assert(record_views(records@) == before.push(view));
            if let Ok(rest) = walk_records(all, texts, walk.places(), left as nat) {
                assert(before + (seq![view] + rest) == before.push(view) + rest);
            }
        }
    }
    finish_snapshot(&records, options)
}

/// Whether the parents of a node end.
fn parents_have_end(nodes: &Vec<SnapshotNode>, at: u32) -> (result: bool)
    ensures
        result == parents_end(node_views(nodes@), at, nodes@.len()),
{
    let ghost all = node_views(nodes@);
    let mut place: u32 = at;
    let mut steps: usize = nodes.len();
    loop
        invariant
            all == node_views(nodes@),
            parents_end(all, at, nodes@.len()) == parents_end(all, place, steps as nat),
        decreases steps,
    {
        if place as usize >= nodes.len() {
            return true;
        }
        let parent: u32 = nodes[place as usize].parent;
        assert(all[place as int].parent == parent);
        if parent == NO_NODE {
            return true;
        }
        if steps == 0 {
            return false;
        }
        steps = steps - 1;
        place = parent;
    }
}

/// An arena of nodes with names, from the crate `edirstat_core`.
#[verifier::external_type_specification]
#[verifier::external_body]
pub struct ExFileArenaSnapshot(edirstat_core::arena::FileArenaSnapshot);

/// The nodes of an arena.
pub uninterp spec fn arena_nodes(snapshot: FileArenaSnapshot) -> Seq<NodeView>;

/// The number of nodes of an arena: `len` of the slice that
/// `edirstat_core::arena::NodeStorage` dereferences to.
#[verifier::external_body]
fn node_count(snapshot: &FileArenaSnapshot) -> (count: usize)
    ensures
        count == arena_nodes(*snapshot).len(),
{
    snapshot.nodes.len()
}

/// A node of an arena: the fields of `edirstat_core::arena::FileNode`, its links as
/// `FileNode::first_child_opt` and `FileNode::next_sibling_opt` return them, its kind
/// as `FileNode::is_directory` does, its name as `edirstat_core::arena::StringPool::get`
/// does and its entry in the list of folder counts.
#[verifier::external_body]
fn node_at(snapshot: &FileArenaSnapshot, at: usize) -> (node: SnapshotNode)
    requires
        at < arena_nodes(*snapshot).len(),
    ensures
        node@ == arena_nodes(*snapshot)[at as int],
{
    let node = &snapshot.nodes[at];
    SnapshotNode {
        name: snapshot.string_pool.get(node.name_id).map(|name| name.to_owned()),
        size: node.size,
        modified: i64::from(node.modified_timestamp),
        is_directory: node.is_directory(),
        parent: node.parent,
        first_child: node.first_child_opt(),
        next_sibling: node.next_sibling_opt(),
        file_count: node.file_count,
        dir_count: snapshot.dir_counts.get(at).copied(),
    }
}

/// The names of a node and its parents, the last parent first. Unknown and empty ones
/// are left out.
pub open spec fn names_to(nodes: Seq<NodeView>, at: u32, steps: nat) -> Seq<Seq<char>>
    decreases steps,
{
    if at >= nodes.len() {
        seq![]
    } else {
        let node = nodes[at as int];
        let before = if node.parent == NO_NODE || steps == 0 {
            seq![]
        } else {
            names_to(nodes, node.parent, (steps - 1) as nat)
        };
        match node.name {
            Some(name) => if name.len() > 0 {
                before.push(name)
            } else {
                before
            },
            None => before,
        }
    }
}

/// A path that goes on with some names, each behind a separator. An absolute path that
/// ends with a separator already gets no other one.
pub open spec fn path_with_names(
    path: Seq<char>,
    names: Seq<Seq<char>>,
    separator: char,
    absolute: bool,
) -> Seq<char>
    decreases names.len(),
{
    if names.len() == 0 {
        path
    } else {
        let folder = if absolute && ends_with_separator(path) {
            path
        } else {
            path.push(separator)
        };
        path_with_names(folder + names[0], names.drop_first(), separator, absolute)
    }
}

/// The path that is made of some names. The first one tells whether it is absolute and
/// which separators it has.
pub open spec fn path_of_names(names: Seq<Seq<char>>) -> Seq<char> {
    if names.len() == 0 {
        seq!['/']
    } else {
        let first = names[0];
        let absolute = first[0] == '/' || first.contains(':');
        let separator = if absolute && first.contains('\\') {
            '\\'
        } else {
            '/'
        };
        path_with_names(first, names.drop_first(), separator, absolute)
    }
}

/// The full path of a node: `edirstat_core::arena::FileArenaSnapshot::get_full_path`,
/// which joins the names of the node and its parents and never returns if there is no
/// end to them.
#[verifier::external_body]
fn full_path(snapshot: &FileArenaSnapshot, at: u32) -> (path: String)
    requires
        parents_end(arena_nodes(*snapshot), at, arena_nodes(*snapshot).len()),
    ensures
        path@ == path_of_names(
            names_to(arena_nodes(*snapshot), at, arena_nodes(*snapshot).len()),
        ),
{
    snapshot.get_full_path(at)
}

/// The full paths of all nodes. Those with no end to their parents, or behind all
/// places that a link can lead to, have none.
pub open spec fn full_paths(nodes: Seq<NodeView>) -> Seq<Seq<char>> {
    Seq::new(
        nodes.len(),
        |i: int|
            if i <= u32::MAX && parents_end(nodes, i as u32, nodes.len()) {
                path_of_names(names_to(nodes, i as u32, nodes.len()))
            } else {
                Seq::<char>::empty()
            },
    )
}

/// Makes an index of a snapshot.
pub fn edirstat_snapshot_to_fs_index(
    snapshot: FileArenaSnapshot,
    options: FsIndexBuildOptions<'_>,
) -> (result: Result<FsIndex, SnapshotError>)
    ensures
        is_index_of(arena_nodes(snapshot), full_paths(arena_nodes(snapshot)), options, result),
{
    let count: usize = node_count(&snapshot);
    let ghost all = arena_nodes(snapshot);
    let ghost texts = full_paths(arena_nodes(snapshot));
    let mut nodes: Vec<SnapshotNode> = Vec::new();
    while nodes.len() < count
        invariant
            count == all.len(),
            all == arena_nodes(snapshot),
            nodes@.len() <= count,
            node_views(nodes@) == all.take(nodes@.len() as int),
        decreases count - nodes@.len(),
    {
        let ghost before = nodes@;
        let node = node_at(&snapshot, nodes.len());
        nodes.push(node);
        assert(node_views(nodes@) == node_views(before).push(node@));
    }
    assert(node_views(nodes@) == all);
    let mut paths: Vec<String> = Vec::new();
    while paths.len() < count
        invariant
            count == all.len(),
            count == nodes@.len(),
            all == arena_nodes(snapshot),
            all == node_views(nodes@),
            texts == full_paths(arena_nodes(snapshot)),
            paths@.len() <= count,
            views(paths@) == texts.take(paths@.len() as int),
        decreases count - paths@.len(),
    {
        let ghost before = paths@;
        let i: usize = paths.len();
        let path = if i as u64 <= u32::MAX as u64 && parents_have_end(&nodes, i as u32) {
            full_path(&snapshot, i as u32)
        } else {
            String::new()
        };
        assert(path@ == texts[i as int]);
        paths.push(path);
        assert(views(paths@) == views(before).push(path@));
    }
    assert(views(paths@) == texts);
    index_of_nodes(nodes, &paths, options)
}

/// Makes an index of the records of a snapshot.
fn finish_snapshot(records: &Vec<WizTreeCsvRecord>, options: FsIndexBuildOptions<'_>) -> (result:
    Result<FsIndex, SnapshotError>)
    requires
        records@.len() > 0,
    ensures
        match built_tree(records@[0]@, record_views(records@), options) {
            Some(tree) => result matches Ok(index) && index.wf() && index.rooted()
                && index.root_tree() == tree,
            None => result matches Err(SnapshotError::NotAnIndex),
        },
{
    match FsIndex::checked_from_csv_records_with_root(records, &records[0], options) {
        Some(index) => Ok(index),
        None => Err(SnapshotError::NotAnIndex),
    }
}

/// What is made of a node is its record.
proof fn lemma_node_record(
    node: NodeView,
    is_root: bool,
    path: Seq<char>,
    made: Result<WizTreeCsvRecord, SnapshotError>,
)
    requires
        match made {
            Ok(record) => {
                &&& time_exists(node.modified)
                &&& is_root || !has_separator(node_name(node))
                &&& record.modified.valid()
                &&& record.modified.nanos == 0
                &&& record.modified.spec_unix_seconds() == node.modified
                &&& record@ == node_metadata(node, record.modified).record(
                    record_path(node, path),
                )
            },
            Err(SnapshotError::InvalidTime) => !time_exists(node.modified),
            Err(SnapshotError::SeparatorInName) => {
                &&& time_exists(node.modified)
                &&& !is_root
                &&& has_separator(node_name(node))
            },
            Err(SnapshotError::BrokenLink) | Err(SnapshotError::NotAnIndex) => false,
        },
    ensures
        match record_of(node, is_root, path) {
            Ok(record) => made matches Ok(own) && own@ == record,
            Err(e) => made matches Err(own) && own == e,
        },
{
    if let Ok(record) = made {
        let t = record.modified;
        assert(t.valid() && t.nanos == 0 && t.spec_unix_seconds() == node.modified);
        law_unix_seconds_are_unique(t, time_of(node.modified));
        assert(t.whole() == t);
        assert(time_of(node.modified).whole() == time_of(node.modified));
    }
}

/// A walk visits a node only right after its parent, or after a node with the same
/// parent was visited.
pub proof fn law_visited_nodes_are_linked(nodes: Seq<NodeView>, places: Seq<u32>)
    requires
        places.len() > 0,
        next_places(nodes, places) is Ok,
    ensures
        ({
            let at = places.last();
            let after = next_places(nodes, places)->Ok_0;
            after.len() > 0 ==> {
                let next = after.last();
                ||| next < nodes.len() && nodes[next as int].parent == at
                ||| next < nodes.len() && nodes[next as int].parent == nodes[at as int].parent
                ||| after == places.drop_last()
            }
        }),
{
    let at = places.last();
    let node = nodes[at as int];
    lemma_sibling(nodes, node.next_sibling, node.parent, nodes.len());
}

proof fn lemma_sibling(
    nodes: Seq<NodeView>,
    sibling: Option<u32>,
    parent: u32,
    others: nat,
)
    ensures
        sibling_of(nodes, sibling, parent, others) matches Ok(Some(found)) ==> found < nodes.len()
            && nodes[found as int].parent == parent,
    decreases others,
{
    if let Some(s) = sibling {
        if s < nodes.len() && nodes[s as int].parent != parent && others > 0 {
            lemma_sibling(nodes, nodes[s as int].next_sibling, parent, (others - 1) as nat);
        }
    }
}

/// The record of a node has its size, its time and the numbers of what is in it. Its path
/// starts with the full path of the node, and ends with a separator if the node is a folder
/// or has nodes in it.
pub proof fn law_nodes_are_recorded(node: NodeView, is_root: bool, full_path: Seq<char>)
    ensures
        record_of(node, is_root, full_path) is Ok <==> time_exists(node.modified) && (is_root
            || !has_separator(node_name(node))),
        record_of(node, is_root, full_path) matches Ok(record) ==> {
            let is_dir = node.is_directory || node.first_child is Some;
            &&& record.size == node.size
            &&& record.allocated == node.size
            &&& record.modified.valid()
            &&& record.modified.spec_unix_seconds() == node.modified
            &&& record.modified.nanos == 0
            &&& record.file_name.len() >= full_path.len()
            &&& record.file_name.take(full_path.len() as int) == full_path
            &&& is_dir ==> ends_with_separator(record.file_name)
            &&& is_dir ==> record.files == node.file_count
            &&& is_dir ==> (node.dir_count matches Some(count) ==> record.folders == count)
            &&& !is_dir ==> record.files == 0 && record.folders == 0
            &&& record.attributes == if is_dir {
                0x10u64
            } else {
                0x20u64
            }
            &&& (node.name matches Some(name) && !is_blank(name)) && !is_dir ==> record.file_name
                == full_path
        },
{
    if time_exists(node.modified) {
        let t = choose|t: Timestamp|
            #![trigger t.spec_unix_seconds()]
            t.valid() && t.spec_unix_seconds() == node.modified;
        let whole = t.whole();
        assert(whole.valid() && whole.nanos == 0 && whole.spec_unix_seconds() == node.modified);
    }
    let named = if lacks_name(node) {
        with_separator(full_path) + node_name(node)
    } else {
        full_path
    };
    assert(named.take(full_path.len() as int) == full_path);
    let path = record_path(node, full_path);
    assert(path.take(full_path.len() as int) == full_path);
}

/// The places that a walk visits from some places on, at most the given number.
pub open spec fn visited_places(nodes: Seq<NodeView>, places: Seq<u32>, left: nat) -> Seq<u32>
    decreases left,
{
    if places.len() == 0 || left == 0 {
        seq![]
    } else {
        match next_places(nodes, places) {
            Err(_) => seq![],
            Ok(after) => seq![places.last()] + visited_places(nodes, after, (left - 1) as nat),
        }
    }
}

/// There is one record for each visited node. A walk visits all places that it starts with,
/// and with each node its first child, if that belongs to it.
pub proof fn law_children_are_visited(
    nodes: Seq<NodeView>,
    paths: Seq<Seq<char>>,
    places: Seq<u32>,
    left: nat,
    i: int,
)
    requires
        walk_records(nodes, paths, places, left) is Ok,
    ensures
        ({
            let records = walk_records(nodes, paths, places, left)->Ok_0;
            let visited = visited_places(nodes, places, left);
            &&& records.len() == visited.len()
            &&& 0 <= i < places.len() ==> visited.contains(places[i])
            &&& 0 <= i < visited.len() ==> {
                let node = nodes[visited[i] as int];
                &&& visited[i] < nodes.len()
                &&& record_of(node, visited[i] == 0, paths[visited[i] as int]) == Ok::<
                    RecordView,
                    SnapshotError,
                >(records[i])
                &&& node.first_child matches Some(child) ==> child < nodes.len() && (
                nodes[child as int].parent == visited[i] ==> visited.contains(child))
                &&& node.next_sibling matches Some(next) ==> next < nodes.len() && (
                nodes[next as int].parent == node.parent ==> visited.contains(next))
            }
        }),
    decreases left,
{
    if places.len() > 0 {
        let at = places.last();
        let after = next_places(nodes, places)->Ok_0;
        let visited = visited_places(nodes, places, left);
        let rest = visited_places(nodes, after, (left - 1) as nat);
        let records = walk_records(nodes, paths, places, left)->Ok_0;
        let rest_records = walk_records(nodes, paths, after, (left - 1) as nat)->Ok_0;
        assert(visited == seq![at] + rest);
        assert(records[0] == record_of(nodes[at as int], at == 0, paths[at as int])->Ok_0);
        law_children_are_visited(nodes, paths, after, (left - 1) as nat, i - 1);
        assert(visited[0] == at);
        if 0 <= i < places.len() {
            if i == places.len() - 1 {
                assert(visited.contains(at));
            } else {
                assert(after[i] == places[i]);
                law_children_are_visited(nodes, paths, after, (left - 1) as nat, i);
                lemma_also_visited(visited, rest, places[i]);
            }
        }
        if i == 0 {
            let node = nodes[at as int];
            if let Some(child) = node.first_child {
                if nodes[child as int].parent == at {
                    let k = after.len() - 1;
                    assert(after[k] == child);
                    law_children_are_visited(nodes, paths, after, (left - 1) as nat, k as int);
                    lemma_also_visited(visited, rest, child);
                }
            }
            if let Some(next) = node.next_sibling {
                if nodes[next as int].parent == node.parent {
                    let k = places.len() - 1;
                    assert(after[k] == next);
                    law_children_are_visited(nodes, paths, after, (left - 1) as nat, k as int);
                    lemma_also_visited(visited, rest, next);
                }
            }
        }
        if 0 < i < visited.len() {
            assert(visited[i] == rest[i - 1]);
            assert(records[i] == rest_records[i - 1]);
            let node = nodes[visited[i] as int];
            if let Some(child) = node.first_child {
                if nodes[child as int].parent == visited[i] {
                    lemma_also_visited(visited, rest, child);
                }
            }
            if let Some(next) = node.next_sibling {
                if nodes[next as int].parent == node.parent {
                    lemma_also_visited(visited, rest, next);
                }
            }
        }
    }
}

proof fn lemma_also_visited(all: Seq<u32>, rest: Seq<u32>, place: u32)
    requires
        all.len() > 0,
        all == seq![all[0]] + rest,
        rest.contains(place),
    ensures
        all.contains(place),
{
    let k = choose|k: int| 0 <= k < rest.len() && rest[k] == place;
    assert(all[k + 1] == place);
}

/// The path of one more name is the path of the names before, a separator and the name.
pub proof fn law_paths_go_on_with_names(names: Seq<Seq<char>>, name: Seq<char>)
    requires
        names.len() > 0,
        names[0].len() > 0,
    ensures
        path_of_names(seq![name]) == name,
        ({
            let path = path_of_names(names);
            let longer = path_of_names(names.push(name));
            ||| longer == path.push('/') + name
            ||| longer == path.push('\\') + name && names[0].contains('\\')
            ||| longer == path + name && ends_with_separator(path)
        }),
{
    let first = names[0];
    let more = names.push(name);
    assert(more[0] == first);
    assert(more.drop_first() == names.drop_first().push(name));
    assert(seq![name].drop_first() == Seq::<Seq<char>>::empty());
    let absolute = first[0] == '/' || first.contains(':');
    let separator = if absolute && first.contains('\\') {
        '\\'
    } else {
        '/'
    };
    lemma_one_more_name(first, names.drop_first(), name, separator, absolute);
}

proof fn lemma_one_more_name(
    path: Seq<char>,
    names: Seq<Seq<char>>,
    name: Seq<char>,
    separator: char,
    absolute: bool,
)
    ensures
        ({
            let before = path_with_names(path, names, separator, absolute);
            path_with_names(path, names.push(name), separator, absolute) == if absolute
                && ends_with_separator(before) {
                before + name
            } else {
                before.push(separator) + name
            }
        }),
    decreases names.len(),
{
    let more = names.push(name);
    if names.len() == 0 {
        assert(more[0] == name);
        assert(more.drop_first() == names);
        let folder = if absolute && ends_with_separator(path) {
            path
        } else {
            path.push(separator)
        };
        assert(path_with_names(folder + name, names, separator, absolute) == folder + name);
    } else {
        assert(more[0] == names[0]);
        assert(more.drop_first() == names.drop_first().push(name));
        let folder = if absolute && ends_with_separator(path) {
            path
        } else {
            path.push(separator)
        };
        lemma_one_more_name(folder + names[0], names.drop_first(), name, separator, absolute);
    }
}

} // verus!
