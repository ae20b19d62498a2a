//! Browsing a backup as if it was a file system.
use std::sync::Arc;

use vstd::prelude::*;
use vstd::utf8::{encode_utf8, valid_utf8};

use crate::file_type::{
    csv_input, is_csv_input, resolved_type, BackupFileType, CsvInput, CsvInputError,
    FileSystemType,
};
use crate::fs_build::{
    arranged, built_tree, finish, finish_list, insert_below, lemma_finish_list,
    lemma_insert_spine, lemma_spine_step, list_entries, next_state, record_place, reordered,
    spine, spine_ok, start_state, state_after, FsIndexBuildOptions,
};
use crate::fs_builder::record_views;
use crate::fs_cursor::{children_start, meta_of, FsCursor};
use crate::fs_export::{lemma_folder_of_tree, tree_records};
use crate::fs_index::{nth_path, FsEntryId, FsIndex};
use crate::fs_lookup::{find_in_list, find_node, lemma_find_entry};
use crate::fs_tree::{lemma_list_holds, path_holds, FsNode};
use crate::gzip::decompressed;
use crate::laws::keeps_everything;
use crate::logging::CommonOpt;
use crate::metadata::FsEntryMetadata;
use crate::sorting::{law_listing_has_all_entries, listing_order};
use crate::text::{
    byte_len, chars_of, ends_with_separator, path_segments, segments, starts_with, text_ends_with_separator,
    text_of_bytes, text_starts_with, views, DEFAULT_PATH_SEPARATOR,
};
use crate::text_format::{append_decimal, decimal, percent_decoded, url_decode};
use crate::text_lines::{lines, split_lines};
use crate::timestamp::lemma_unix_seconds_bound;
use crate::wiztree_csv::{RecordView, WizTreeCsvRecord};

verus! {

/// Whether all entries of a tree have metadata.
pub open spec fn complete(node: FsNode) -> bool
    decreases node, 1nat,
{
    node.info is Some && complete_list(node.children)
}

pub open spec fn complete_list(list: Seq<FsNode>) -> bool
    decreases list, 2nat,
{
    list.len() == 0 || (complete_list(list.drop_last()) && complete(list.last()))
}

pub proof fn lemma_complete_list(list: Seq<FsNode>)
    ensures
        complete_list(list) <==> forall|i: int| 0 <= i < list.len() ==> complete(#[trigger] list[i]),
    decreases list.len(),
{
    if list.len() > 0 {
        let rest = list.drop_last();
        lemma_complete_list(rest);
        assert(list[list.len() - 1] == list.last());
        if complete_list(rest) && complete(list.last()) {
            assert forall|i: int| 0 <= i < list.len() implies complete(#[trigger] list[i]) by {
                if i < rest.len() {
                    assert(rest[i] == list[i]);
                }
            }
        }
        if forall|i: int| 0 <= i < list.len() ==> complete(#[trigger] list[i]) {
            assert forall|i: int| 0 <= i < rest.len() implies complete(#[trigger] rest[i]) by {
                assert(rest[i] == list[i]);
            }
        }
    }
}

/// Everything that is found in a complete tree is complete.
proof fn lemma_found_complete(tree: FsNode, names: Seq<Seq<char>>, case_sensitive: bool)
    requires
        complete(tree),
    ensures
        find_node(tree, names, case_sensitive) matches Some(node) ==> complete(node),
    decreases names.len(),
{
    if names.len() > 0 && tree.is_folder() {
        lemma_found_place(tree.children, names[0], case_sensitive, 0);
        if let Some(i) = find_in_list(tree.children, names[0], case_sensitive, 0) {
            lemma_complete_list(tree.children);
            lemma_found_complete(tree.children[i as int], names.drop_first(), case_sensitive);
        }
    }
}

proof fn lemma_found_place(list: Seq<FsNode>, name: Seq<char>, case_sensitive: bool, i: nat)
    ensures
        find_in_list(list, name, case_sensitive, i) matches Some(k) ==> k < list.len(),
    decreases list.len() - i,
{
    if i < list.len() {
        lemma_found_place(list, name, case_sensitive, i + 1);
    }
}

proof fn lemma_insert_complete(tree: FsNode, depth: nat, leaf: FsNode)
    requires
        complete(tree),
        complete(leaf),
        forall|j: nat| j < depth ==> (#[trigger] spine(tree, j)).children.len() > 0,
    ensures
        complete(insert_below(tree, depth, leaf)),
    decreases depth,
{
    let after = insert_below(tree, depth, leaf);
    lemma_complete_list(tree.children);
    lemma_complete_list(after.children);
    if depth > 0 {
        assert(spine(tree, 0) == tree);
        let sub = tree.children.last();
        let prev = (depth - 1) as nat;
        assert(tree.children[tree.children.len() - 1] == sub);
        assert forall|j: nat| j < prev implies (#[trigger] spine(sub, j)).children.len() > 0 by {
            lemma_spine_step(tree, j);
            assert(spine(tree, j + 1).children.len() > 0);
        }
        lemma_insert_complete(sub, prev, leaf);
        assert forall|i: int| 0 <= i < after.children.len() implies complete(
            #[trigger] after.children[i],
        ) by {
            if i < tree.children.len() - 1 {
                assert(after.children[i] == tree.children[i]);
            }
        }
    } else {
        assert forall|i: int| 0 <= i < after.children.len() implies complete(
            #[trigger] after.children[i],
        ) by {
            if i < tree.children.len() {
                assert(after.children[i] == tree.children[i]);
            }
        }
    }
}

/// What was read so far is complete.
pub proof fn lemma_state_complete(
    root: RecordView,
    records: Seq<RecordView>,
    options: FsIndexBuildOptions<'_>,
)
    ensures
        state_after(root, records, options) matches Some(state) ==> complete(state.tree)
            && spine_ok(state.tree, state.depth),
    decreases records.len(),
{
    if records.len() == 0 {
        if let Some(state) = start_state(root, options) {
            assert(spine(state.tree, 0) == state.tree);
        }
    } else {
        lemma_state_complete(root, records.drop_last(), options);
        if let Some(state) = state_after(root, records.drop_last(), options) {
            let record = records.last();
            let prefix = crate::fs_build::prefix_len(root);
            if let Some(place) = record_place(record, prefix) {
                if let Some(next) = next_state(state, record, prefix, options) {
                    let depth = (place.len() - 1) as nat;
                    let info = FsEntryMetadata::of_record(record);
                    let leaf = FsNode { name: place.last(), info: Some(info), children: seq![] };
                    lemma_insert_spine(state.tree, depth, leaf);
                    lemma_insert_complete(state.tree, depth, leaf);
                    let after = next.tree;
                    assert(spine(after, depth + 1) == leaf);
                    assert forall|j: nat| j <= next.depth implies (
                    #[trigger] spine(after, j)).is_folder() by {
                        if j <= depth {
                            assert(spine(after, j).info == spine(state.tree, j).info);
                        }
                    }
                    assert forall|j: nat| j < next.depth implies (
                    #[trigger] spine(after, j)).children.len() > 0 by {
                        if j == depth {
                            assert(spine(after, depth).children == spine(
                                state.tree,
                                depth,
                            ).children.push(leaf));
                        }
                    }
                }
            }
        }
    }
}

proof fn lemma_finish_complete(node: FsNode, options: FsIndexBuildOptions<'_>)
    requires
        complete(node),
    ensures
        complete(finish(node, options)),
    decreases node,
{
    let info = node.info->0;
    if info.is_dir {
        let finished = finish_list(node.children, options);
        let stored = arranged(finished, options);
        lemma_finish_list(node.children, options);
        lemma_complete_list(node.children);
        assert forall|i: int| 0 <= i < finished.len() implies complete(#[trigger] finished[i]) by {
            assert(finished[i] == finish(node.children[i], options));
            assert(complete(node.children[i]));
            lemma_finish_complete(node.children[i], options);
        }
        lemma_complete_list(stored);
        assert forall|i: int| 0 <= i < stored.len() implies complete(#[trigger] stored[i]) by {
            if options.resort {
                let entries = list_entries(finished);
                law_listing_has_all_entries(entries);
                let order = listing_order(entries);
                assert(stored == reordered(finished, order));
                assert(order.contains(order[i]));
                assert(stored[i] == finished[order[i]]);
            }
        }
    }
}

/// All entries of an index that is built from records have metadata.
pub proof fn law_built_indexes_are_complete(
    root: RecordView,
    records: Seq<RecordView>,
    options: FsIndexBuildOptions<'_>,
)
    ensures
        built_tree(root, records, options) matches Some(tree) ==> complete(tree),
{
    lemma_state_complete(root, records, options);
    if let Some(state) = state_after(root, records, options) {
        lemma_finish_complete(state.tree, options);
    }
}

/// The entry of a tree with the given path, which starts with `/` for the root.
pub open spec fn found_node(tree: FsNode, path: Seq<char>) -> Option<FsNode> {
    if tree.is_folder() && starts_with(path, "/"@) {
        find_node(tree, segments(path.skip(1)), false)
    } else {
        None
    }
}

/// Finds the entry with the given path.
#[verifier::spinoff_prover]
fn find_id(index: &FsIndex, path: &str) -> (id: Option<FsEntryId>)
    requires
        index.wf(),
        index.rooted(),
        index.spec_root() is Some,
    ensures
        id is Some <==> found_node(index.root_tree(), path@) is Some,
        id matches Some(id) ==> path_holds(
            index.items(),
            id.at(),
            found_node(index.root_tree(), path@)->0,
        ),
{
    let ghost items = index.items();
    let ghost tree = index.root_tree();
    let mut cursor = FsCursor::new('/');
    let root = match index.root() {
        Some(root) => root,
        None => {
            return None;
        },
    };
    proof {
        reveal_strlit("/");
        assert(index.holds(root.at(), tree));
        index.lemma_places();
        lemma_folder_of_tree(items, root.at(), tree);
        assert(cursor.wf(items));
    }
    cursor.set_root(root, Some("/"), index);
    let ghost before = cursor@;
    proof {
        cursor.lemma_current_ok(items);
        if tree.is_folder() {
            assert("/"@.last() == '/');
            assert(before.frames[0].path == "/"@);
            assert(before.frames[0].path.len() == 1);
            if starts_with(path@, "/"@) {
                before.lemma_went_to(items, path@);
                lemma_find_entry(items, root.at(), tree, segments(path@.skip(1)), false);
            }
        }
    }
    let found = cursor.go_to_path(path, index);
    proof {
        cursor.lemma_current_ok(items);
    }
    if found {
        cursor.current_id()
    } else {
        None
    }
}

/// What is known about an entry with the given path, which has to be a folder or a
/// file if that is asked for.
pub open spec fn found_metadata(
    tree: FsNode,
    path: Seq<char>,
    find_dir: Option<bool>,
) -> Option<FsEntryMetadata> {
    match found_node(tree, path) {
        Some(node) => {
            let info = node.info->0;
            match find_dir {
                Some(find_dir) => if find_dir == info.is_dir {
                    Some(info)
                } else {
                    None
                },
                None => Some(info),
            }
        },
        None => None,
    }
}

/// The name and the metadata of an entry.
#[derive(Debug)]
pub struct DirectoryEntry {
    pub name: String,
    pub info: FsEntryMetadata,
}

pub open spec fn listed_entries(list: Seq<FsNode>) -> Seq<(Seq<char>, FsEntryMetadata)> {
    list.map_values(|node: FsNode| (node.name, node.info->0))
}

pub open spec fn directory_views(entries: Seq<DirectoryEntry>) -> Seq<
    (Seq<char>, FsEntryMetadata),
> {
    entries.map_values(|e: DirectoryEntry| (e.name@, e.info))
}

/// A backup that was loaded.
pub struct AutoCompressedFsIndex {
    root: WizTreeCsvRecord,
    cache: CompressibleFsIndex,
}

/// An index that can be replaced by its compressed data to save memory. What was
/// replaced can still be in use elsewhere. It is used again in that case.
pub enum CompressibleFsIndex {
    Compressed {
        data: Arc<Vec<u8>>,
        /// The index that was replaced by the data.
        last_index: Ghost<FsIndex>,
    },
    Available {
        index: Arc<FsIndex>,
        /// The data that was replaced by the index.
        last_data: Ghost<Seq<u8>>,
    },
}

/// Options for browsing a backup.
#[derive(Debug)]
pub struct MountOpts {
    pub common: CommonOpt,
    pub file_type: BackupFileType,
    pub file_system: FileSystemType,
}

impl MountOpts {
    /// Decides how the backup is read, whose type was guessed from its name if it has
    /// one. Backups that are not compressed yet are compressed first.
    pub fn input(&self, guessed: Option<BackupFileType>) -> (input: Result<CsvInput, CsvInputError>)
        ensures
            is_csv_input(input, resolved_type(self.file_type, guessed)),
    {
        csv_input(self.file_type, guessed)
    }
}

/// Whether an index can be browsed.
pub open spec fn browsable(index: FsIndex) -> bool {
    &&& index.wf()
    &&& index.spec_root() is Some
    &&& index.rooted()
    &&& complete(index.root_tree())
}

impl CompressibleFsIndex {
    pub open spec fn wf(self) -> bool {
        match self {
            CompressibleFsIndex::Available { index, .. } => browsable(*index),
            CompressibleFsIndex::Compressed { last_index, .. } => browsable(last_index@),
        }
    }

    /// The index if it is available.
    pub open spec fn spec_index(self) -> FsIndex {
        *self->index
    }

    /// Whether data is what was replaced by the index.
    pub open spec fn is_last_data(self, data: Seq<u8>) -> bool {
        self matches CompressibleFsIndex::Available { last_data, .. } ==> data == last_data@
    }

    /// Whether an index is what was replaced by the data.
    pub open spec fn is_last_index(self, index: FsIndex) -> bool {
        self matches CompressibleFsIndex::Compressed { last_index, .. } ==> index == last_index@
    }

    /// The index, `None` if it is compressed.
    pub fn index(&self) -> (index: Option<&Arc<FsIndex>>)
        ensures
            match self {
                CompressibleFsIndex::Available { index: own, .. } => index == Some(own),
                CompressibleFsIndex::Compressed { .. } => index is None,
            },
    {
        match self {
            CompressibleFsIndex::Available { index, .. } => Some(index),
            CompressibleFsIndex::Compressed { .. } => None,
        }
    }

    /// The compressed data, `None` if the index is available.
    pub fn data(&self) -> (data: Option<&Arc<Vec<u8>>>)
        ensures
            match self {
                CompressibleFsIndex::Compressed { data: own, .. } => data == Some(own),
                CompressibleFsIndex::Available { .. } => data is None,
            },
    {
        match self {
            CompressibleFsIndex::Compressed { data, .. } => Some(data),
            CompressibleFsIndex::Available { .. } => None,
        }
    }

    /// The records that have to be written as CSV to compress them, `None` if the index
    /// is compressed already.
    pub fn records_to_compress(&self) -> (records: Option<Vec<WizTreeCsvRecord>>)
        requires
            self.wf(),
        ensures
            match self {
                CompressibleFsIndex::Available { index, .. } => records matches Some(records)
                    && record_views(records@) == tree_records(
                    index.root_tree(),
                    None,
                    DEFAULT_PATH_SEPARATOR,
                    false,
                ),
                CompressibleFsIndex::Compressed { .. } => records is None,
            },
    {
        match self {
            CompressibleFsIndex::Available { index, .. } => {
                let iter = index.csv_iter(None, DEFAULT_PATH_SEPARATOR, false);
                let records = iter.collect();
                assert(record_views(records@) == records@.map_values(
                    |record: WizTreeCsvRecord| record@,
                ));
                Some(records)
            },
            CompressibleFsIndex::Compressed { .. } => None,
        }
    }

    /// Replaces the index by compressed data: by the data that it has replaced if that
    /// is still in use, otherwise by the compressed CSV of its records. Both are ignored
    /// if the index is compressed already.
    pub fn compressed_data(&mut self, in_use: Option<Arc<Vec<u8>>>, csv: &[u8])
        requires
            old(self).wf(),
            in_use matches Some(data) ==> old(self).is_last_data(data@),
        ensures
            final(self).wf(),
            match *old(self) {
                CompressibleFsIndex::Available { index, .. } => {
                    &&& *final(self) matches CompressibleFsIndex::Compressed { data, last_index }
                    &&& last_index@ == *index
                    &&& in_use is Some ==> in_use == Some(data)
                    &&& in_use is None ==> decompressed(data@) == Some(csv@)
                },
                CompressibleFsIndex::Compressed { .. } => *final(self) == *old(self),
            },
    {
        let ghost last = self.spec_index();
        if let CompressibleFsIndex::Available { .. } = self {
            let data = match in_use {
                Some(data) => data,
                None => Arc::new(WizTreeCsvRecord::create_compressed_csv(csv)),
            };
            *self = CompressibleFsIndex::Compressed { data, last_index: Ghost(last) };
        }
    }

    /// The CSV that has to be read to get at the index. `None` if the index is available
    /// or the data cannot be decompressed.
    pub fn csv_to_parse(&self) -> (csv: Option<Vec<u8>>)
        ensures
            match self {
                CompressibleFsIndex::Compressed { data, .. } => match decompressed(data@) {
                    Some(text) => csv matches Some(csv) && csv@ == text,
                    None => csv is None,
                },
                CompressibleFsIndex::Available { .. } => csv is None,
            },
    {
        match self {
            CompressibleFsIndex::Compressed { data, .. } => {
                WizTreeCsvRecord::parse_compressed_csv(data.as_slice())
            },
            CompressibleFsIndex::Available { .. } => None,
        }
    }

    /// Replaces the compressed data by an index: by the index that it has replaced if
    /// that is still in use, otherwise by one that is made from the records that were
    /// read from the data, with the first one as its root. Both are ignored if the index
    /// is available already.
    ///
    /// Returns `false` if the records do not form an index.
    pub fn decompressed_index(
        &mut self,
        in_use: Option<Arc<FsIndex>>,
        records: &Vec<WizTreeCsvRecord>,
    ) -> (ok: bool)
        requires
            old(self).wf(),
            in_use matches Some(index) ==> old(self).is_last_index(*index),
        ensures
            final(self).wf(),
            match *old(self) {
                CompressibleFsIndex::Available { .. } => ok && *final(self) == *old(self),
                CompressibleFsIndex::Compressed { data, .. } => {
                    &&& !ok ==> *final(self) == *old(self)
                    &&& ok ==> (*final(self) matches CompressibleFsIndex::Available {
                        last_data,
                        ..
                    } && last_data@ == data@)
                    &&& in_use matches Some(index) ==> ok && (*final(self))->index == index
                    &&& in_use is None ==> forall|options: FsIndexBuildOptions<'_>| #[trigger]
                        keeps_everything(options) ==> {
                            let built = built_tree(
                                records@[0]@,
                                record_views(records@),
                                options,
                            );
                            &&& ok == (records@.len() > 0 && built is Some)
                            &&& ok ==> built == Some((*final(self))->index.root_tree())
                        }
                },
            },
    {
        if let CompressibleFsIndex::Compressed { data, .. } = self {
            let ghost last = data@;
            if let Some(index) = in_use {
                *self = CompressibleFsIndex::Available { index, last_data: Ghost(last) };
                return true;
            }
            let own: FsIndexBuildOptions<'_> = FsIndexBuildOptions::default();
            proof {
                assert forall|options: FsIndexBuildOptions<'_>| #[trigger]
                    keeps_everything(options) implies options == own by {}
            }
            if records.len() == 0 {
                return false;
            }
            match FsIndex::checked_from_csv_records_with_root(records, &records[0], own) {
                Some(index) => {
                    proof {
                        law_built_indexes_are_complete(
                            records@[0]@,
                            record_views(records@),
                            own,
                        );
                    }
                    *self = CompressibleFsIndex::Available {
                        index: Arc::new(index),
                        last_data: Ghost(last),
                    };
                },
                None => {
                    return false;
                },
            }
        }
        true
    }
}

/// The place of the root among some records: the folder with the shortest path, the
/// first of these.
pub open spec fn root_place(records: Seq<RecordView>) -> Option<int>
    decreases records.len(),
{
    if records.len() == 0 {
        None
    } else {
        let last = records.len() - 1;
        let before = root_place(records.drop_last());
        if ends_with_separator(records[last].file_name) && (before matches Some(best)
            ==> encode_utf8(records[last].file_name).len() < encode_utf8(
            records[best].file_name,
        ).len()) {
            Some(last)
        } else {
            before
        }
    }
}

/// Finds the root among some records.
pub fn find_root(records: &Vec<WizTreeCsvRecord>) -> (place: Option<usize>)
    ensures
        place is Some <==> root_place(record_views(records@)) is Some,
        place matches Some(i) ==> i < records@.len() && root_place(record_views(records@)) == Some(
            i as int,
        ),
{
    let ghost all = record_views(records@);
    let mut best: Option<usize> = None;
    let mut i: usize = 0;
    assert(all.take(0) == Seq::<RecordView>::empty());
    while i < records.len()
        invariant
            i <= records@.len(),
            all == record_views(records@),
            best is Some <==> root_place(all.take(i as int)) is Some,
            best matches Some(k) ==> k < i && root_place(all.take(i as int)) == Some(k as int),
        decreases records@.len() - i,
    {
        proof {
            assert(all.take(i + 1).drop_last() == all.take(i as int));
            assert(all.take(i + 1)[i as int] == records@[i as int]@);
        }
        if text_ends_with_separator(records[i].file_name.as_str()) {
            let shorter: bool = match best {
                Some(k) => {
                    assert(all.take(i + 1)[k as int] == records@[k as int]@);
                    byte_len(records[i].file_name.as_str()) < byte_len(
                        records[k].file_name.as_str(),
                    )
                },
                None => true,
            };
            if shorter {
                best = Some(i);
            }
        }
        i = i + 1;
    }
    assert(all.take(i as int) == all);
    best
}

/// Compares two records.
pub fn same_record(a: &WizTreeCsvRecord, b: &WizTreeCsvRecord) -> (same: bool)
    ensures
        same == (a@ == b@),
{
    crate::text::same_text(a.file_name.as_str(), b.file_name.as_str()) && a.size == b.size
        && a.allocated == b.allocated && a.modified == b.modified && a.attributes == b.attributes
        && a.files == b.files && a.folders == b.folders && same_option(
        a.drive_capacity,
        b.drive_capacity,
    ) && same_option(a.free_space, b.free_space) && same_option(a.used_space, b.used_space)
        && same_option(a.reserved_space, b.reserved_space)
}

fn same_option(a: Option<u64>, b: Option<u64>) -> (same: bool)
    ensures
        same == (a == b),
{
    match (a, b) {
        (Some(a), Some(b)) => a == b,
        (None, None) => true,
        _ => false,
    }
}

/// How records differ from those that an index lists.
#[derive(Debug, Clone, Copy, PartialEq, Eq, Structural)]
pub enum Recreation {
    /// They are the same.
    Perfect,
    /// The index lists more records.
    TooMany,
    /// The index lists fewer records.
    TooFew,
    /// The first different record has this number.
    Different(usize),
}

/// How some records differ from others from a place on.
pub open spec fn recreation_of(
    given: Seq<RecordView>,
    listed: Seq<RecordView>,
    from: int,
) -> Recreation
    decreases given.len() - from,
{
    if from >= given.len() {
        if from >= listed.len() {
            Recreation::Perfect
        } else {
            Recreation::TooMany
        }
    } else if from >= listed.len() {
        Recreation::TooFew
    } else if given[from] != listed[from] {
        Recreation::Different(from as usize)
    } else {
        recreation_of(given, listed, from + 1)
    }
}

/// Compares records with those that an index lists.
pub fn check_for_perfect_recreation(index: &FsIndex, records: &Vec<WizTreeCsvRecord>) -> (result:
    Recreation)
    requires
        index.wf(),
        index.rooted(),
        index.spec_root() is Some,
    ensures
        result == recreation_of(
            record_views(records@),
            tree_records(index.root_tree(), None, DEFAULT_PATH_SEPARATOR, false),
            0,
        ),
{
    let iter = index.csv_iter(None, DEFAULT_PATH_SEPARATOR, false);
    let listed = iter.collect();
    let ghost given_all = record_views(records@);
    let ghost listed_all = record_views(listed@);
    assert(listed_all == tree_records(index.root_tree(), None, DEFAULT_PATH_SEPARATOR, false));
    let mut i: usize = 0;
    loop
        invariant
            i <= records@.len(),
            i <= listed@.len(),
            given_all == record_views(records@),
            listed_all == record_views(listed@),
            listed_all == tree_records(
                index.root_tree(),
                None,
                DEFAULT_PATH_SEPARATOR,
                false,
            ),
            recreation_of(given_all, listed_all, 0) == recreation_of(given_all, listed_all, i as int),
        decreases records@.len() - i,
    {
        if i >= records.len() {
            return if i >= listed.len() {
                Recreation::Perfect
            } else {
                Recreation::TooMany
            };
        }
        if i >= listed.len() {
            return Recreation::TooFew;
        }
        proof {
            assert(given_all[i as int] == records@[i as int]@);
            assert(listed_all[i as int] == listed@[i as int]@);
        }
        if !same_record(&records[i], &listed[i]) {
            return Recreation::Different(i);
        }
        i = i + 1;
    }
}

/// Why a backup cannot be loaded.
#[derive(Debug, Clone, Copy, PartialEq, Eq, Structural)]
pub enum LoadError {
    /// There is no folder.
    NoRoot,
    /// The records do not form an index.
    NotAnIndex,
}

impl AutoCompressedFsIndex {
    pub closed spec fn wf(self) -> bool {
        self.cache.wf()
    }

    /// The record of the root.
    pub closed spec fn spec_root(self) -> RecordView {
        self.root@
    }

    /// What is in memory.
    pub closed spec fn cache(self) -> CompressibleFsIndex {
        self.cache
    }

    /// Whether the index is in memory.
    pub open spec fn available(self) -> bool {
        self.cache() is Available
    }

    /// The tree of the index in memory.
    pub open spec fn tree(self) -> FsNode {
        self.cache()->index.root_tree()
    }

    /// Makes an index of the records of a backup, which were read from compressed data,
    /// in any case with the folder that has the shortest path as its root. Also gives
    /// how well the records can be made from the index again.
    pub fn from_compressed(data: &Arc<Vec<u8>>, records: &Vec<WizTreeCsvRecord>) -> (result: Result<
        (Self, Recreation),
        LoadError,
    >)
        ensures
            match root_place(record_views(records@)) {
                None => result matches Err(e) && e == LoadError::NoRoot,
                Some(place) => forall|options: FsIndexBuildOptions<'_>| #[trigger]
                    keeps_everything(options) ==> match built_tree(
                        records@[place]@,
                        record_views(records@),
                        options,
                    ) {
                        None => result matches Err(e) && e == LoadError::NotAnIndex,
                        Some(tree) => result matches Ok((index, recreation)) && {
                            &&& index.wf()
                            &&& index.available()
                            &&& index.cache()->last_data@ == data@
                            &&& index.tree() == tree
                            &&& index.spec_root() == records@[place]@
                            &&& recreation == recreation_of(
                                record_views(records@),
                                tree_records(tree, None, DEFAULT_PATH_SEPARATOR, false),
                                0,
                            )
                        },
                    },
            },
    {
        let place = match find_root(records) {
            Some(place) => place,
            None => {
                return Err(LoadError::NoRoot);
            },
        };
        let own: FsIndexBuildOptions<'_> = FsIndexBuildOptions::default();
        proof {
            assert forall|options: FsIndexBuildOptions<'_>| #[trigger]
                keeps_everything(options) implies options == own by {}
        }
        let index = match FsIndex::checked_from_csv_records_with_root(
            records,
            &records[place],
            own,
        ) {
            Some(index) => index,
            None => {
                return Err(LoadError::NotAnIndex);
            },
        };
        proof {
            law_built_indexes_are_complete(records@[place as int]@, record_views(records@), own);
        }
        let recreation = check_for_perfect_recreation(&index, records);
        let root = crate::fs_builder::copy_record(&records[place]);
        Ok(
            (
                AutoCompressedFsIndex {
                    root,
                    cache: CompressibleFsIndex::Available {
                        index: Arc::new(index),
                        last_data: Ghost(data@),
                    },
                },
                recreation,
            ),
        )
    }

    /// The last segment of the path of the root folder. `None` if that path is `/`.
    pub fn root_name(&self) -> (name: Option<String>)
        ensures
            ({
                let names = segments(self.spec_root().file_name);
                match name {
                    Some(name) => names.len() > 0 && name@ == names.last(),
                    None => names.len() == 0,
                }
            }),
    {
        let mut names = path_segments(self.root.file_name.as_str());
        let ghost all = views(names@);
        let name = names.pop();
        assert(name matches Some(n) ==> n@ == all.last());
        name
    }

    /// The record of the root.
    pub fn root(&self) -> (root: &WizTreeCsvRecord)
        ensures
            root@ == self.spec_root(),
    {
        &self.root
    }

    /// What is in memory, to compress or decompress it.
    pub fn cached(&self) -> (cache: &CompressibleFsIndex)
        requires
            self.wf(),
        ensures
            *cache == self.cache(),
            cache.wf(),
    {
        &self.cache
    }

    /// Replaces the index in memory by the data that it was made from, if that is still
    /// in use, or by the compressed CSV of its records.
    pub fn compress(&mut self, in_use: Option<Arc<Vec<u8>>>, csv: &[u8])
        requires
            old(self).wf(),
            in_use matches Some(data) ==> old(self).cache().is_last_data(data@),
        ensures
            final(self).wf(),
            !final(self).available(),
            final(self).spec_root() == old(self).spec_root(),
            old(self).available() ==> {
                &&& final(self).cache() matches CompressibleFsIndex::Compressed {
                    data,
                    last_index,
                }
                &&& last_index@ == *old(self).cache()->index
                &&& in_use is Some ==> in_use == Some(data)
                &&& in_use is None ==> decompressed(data@) == Some(csv@)
            },
            !old(self).available() ==> final(self).cache() == old(self).cache(),
    {
        self.cache.compressed_data(in_use, csv);
    }

    /// Gets at the index again: at the one that was replaced by compressed data, if that
    /// is still in use, or at one that is made from the records of the data. Returns
    /// `false` if these do not form an index.
    pub fn decompress(
        &mut self,
        in_use: Option<Arc<FsIndex>>,
        records: &Vec<WizTreeCsvRecord>,
    ) -> (ok: bool)
        requires
            old(self).wf(),
            in_use matches Some(index) ==> old(self).cache().is_last_index(*index),
        ensures
            final(self).wf(),
            ok == final(self).available(),
            final(self).spec_root() == old(self).spec_root(),
            old(self).available() ==> final(self).cache() == old(self).cache(),
            !ok ==> final(self).cache() == old(self).cache(),
            !old(self).available() && ok ==> final(self).cache()->last_data@
                == old(self).cache()->data@,
            !old(self).available() ==> (in_use matches Some(index) ==> {
                &&& ok
                &&& final(self).cache()->index == index
            }),
            !old(self).available() && in_use is None ==> forall|
                options: FsIndexBuildOptions<'_>,
            | #[trigger]
                keeps_everything(options) ==> {
                    let built = built_tree(records@[0]@, record_views(records@), options);
                    &&& ok == (records@.len() > 0 && built is Some)
                    &&& ok ==> built == Some(final(self).tree())
                },
    {
        self.cache.decompressed_index(in_use, records)
    }

    /// What is known about a folder and the entries in it. `None` if there is no
    /// folder with that path.
    pub fn get_directory_info(&self, folder_path: &str) -> (result: Option<
        (FsEntryMetadata, Vec<DirectoryEntry>),
    >)
        requires
            self.wf(),
            self.available(),
        ensures
            match found_node(self.tree(), folder_path@) {
                Some(node) if node.is_folder() => result matches Some((info, entries)) && node.info
                    == Some(info) && directory_views(entries@) == listed_entries(node.children),
                _ => result is None,
            },
    {
        match &self.cache {
            CompressibleFsIndex::Available { index, .. } => directory_info(index, folder_path),
            CompressibleFsIndex::Compressed { .. } => None,
        }
    }

    /// What is known about a file or a folder.
    pub fn get_metadata(&self, name: &str, find_dir: Option<bool>) -> (info: Option<
        FsEntryMetadata,
    >)
        requires
            self.wf(),
            self.available(),
        ensures
            info == found_metadata(self.tree(), name@, find_dir),
    {
        match &self.cache {
            CompressibleFsIndex::Available { index, .. } => entry_metadata(index, name, find_dir),
            CompressibleFsIndex::Compressed { .. } => None,
        }
    }
}

/// The metadata of an entry.
fn metadata_of(index: &FsIndex, id: FsEntryId, node: Ghost<FsNode>) -> (info: FsEntryMetadata)
    requires
        index.wf(),
        path_holds(index.items(), id.at(), node@),
        node@.info is Some,
    ensures
        node@.info == Some(info),
{
    match id.load_metadata(index) {
        Some(entry) => {
            proof {
                entry.lemma_loaded(index.items(), meta_of(index.items(), id.at()));
            }
            *entry.metadata()
        },
        None => {
            assert(false);
            FsEntryMetadata::from_csv_record(&WizTreeCsvRecord::default())
        },
    }
}

/// What is known about a file or a folder of an index.
pub fn entry_metadata(index: &FsIndex, name: &str, find_dir: Option<bool>) -> (info: Option<
    FsEntryMetadata,
>)
    requires
        browsable(*index),
    ensures
        info == found_metadata(index.root_tree(), name@, find_dir),
{
    let id = match find_id(index, name) {
        Some(id) => id,
        None => {
            return None;
        },
    };
    let ghost node = found_node(index.root_tree(), name@)->0;
    proof {
        lemma_found_complete(index.root_tree(), segments(name@.skip(1)), false);
    }
    let info = metadata_of(index, id, Ghost(node));
    match find_dir {
        Some(find_dir) => if find_dir == info.is_dir {
            Some(info)
        } else {
            None
        },
        None => Some(info),
    }
}

/// What is known about a folder of an index and the entries in it. `None` if there is no
/// folder with that path.
pub fn directory_info(index: &FsIndex, folder_path: &str) -> (result: Option<
    (FsEntryMetadata, Vec<DirectoryEntry>),
>)
    requires
        browsable(*index),
    ensures
        match found_node(index.root_tree(), folder_path@) {
            Some(node) if node.is_folder() => result matches Some((info, entries)) && node.info
                == Some(info) && directory_views(entries@) == listed_entries(node.children),
            _ => result is None,
        },
{
    let ghost items = index.items();
    let id = match find_id(index, folder_path) {
        Some(id) => id,
        None => {
            return None;
        },
    };
    let ghost node = found_node(index.root_tree(), folder_path@)->0;
    proof {
        lemma_found_complete(index.root_tree(), segments(folder_path@.skip(1)), false);
        index.lemma_places();
        lemma_folder_of_tree(items, id.at(), node);
    }
    let info = metadata_of(index, id, Ghost(node));
    let children = match id.children(index) {
        Some(children) => children,
        None => {
            return None;
        },
    };
    let ids = children.iter(index);
    let ghost list = node.children;
    let mut entries: Vec<DirectoryEntry> = Vec::new();
    let mut i: usize = 0;
    proof {
        lemma_list_holds(items, children_start(items, id.at()), list);
        lemma_complete_list(list);
        assert(directory_views(entries@) == listed_entries(list).take(0));
    }
    while i < ids.len()
        invariant
            i <= ids@.len(),
            index.wf(),
            items == index.items(),
            ids@.len() == list.len(),
            forall|k: int|
                0 <= k < ids@.len() ==> (#[trigger] ids@[k]).at() == nth_path(
                    items,
                    children_start(items, id.at()),
                    k as nat,
                ),
            forall|k: int|
                0 <= k < list.len() ==> path_holds(
                    items,
                    nth_path(items, children_start(items, id.at()), k as nat),
                    #[trigger] list[k],
                ),
            forall|k: int| 0 <= k < list.len() ==> complete(#[trigger] list[k]),
            directory_views(entries@) == listed_entries(list).take(i as int),
        decreases ids@.len() - i,
    {
        let entry_id = ids[i];
        let ghost own = list[i as int];
        assert(ids@[i as int].at() == nth_path(items, children_start(items, id.at()), i as nat));
        let name: String = entry_id.file_name(index).to_owned();
        let entry_info = metadata_of(index, entry_id, Ghost(own));
        let ghost before = entries@;
        let ghost pair = (name@, entry_info);
        entries.push(DirectoryEntry { name, info: entry_info });
        proof {
            assert(listed_entries(list)[i as int] == pair);
            assert(directory_views(entries@) == directory_views(before).push(pair));
            assert(listed_entries(list).take(i + 1) == listed_entries(list).take(i as int).push(
                pair,
            ));
        }
        i = i + 1;
    }
    assert(listed_entries(list).take(i as int) == listed_entries(list));
    Some((info, entries))
}

/// A drive letter that a network path is mounted to.
pub struct MountedDrive(Option<char>);

impl MountedDrive {
    pub closed spec fn drive(self) -> Option<char> {
        self.0
    }

    pub fn new(letter: char) -> (drive: Self)
        ensures
            drive.drive() == Some(letter),
    {
        MountedDrive(Some(letter))
    }

    pub fn letter(&self) -> (letter: char)
        requires
            self.drive() is Some,
        ensures
            self.drive() == Some(letter),
    {
        self.0.unwrap()
    }
}

/// Why the output of a mount command was not understood.
#[derive(Debug, Clone, Copy, PartialEq, Eq, Structural)]
pub enum NetUseError {
    /// There is no output.
    NoOutput,
    /// The first line does not start as expected.
    UnexpectedLine,
    /// The first line has no drive letter.
    NoLetter,
}

/// The drive letter in the output of a mount command, whose first line looks like
/// `Drive Q: is now connected to http://127.0.0.1:51515.`.
pub open spec fn letter_in_output(output: Seq<char>) -> Result<char, NetUseError> {
    let all = lines(output);
    if all.len() == 0 {
        Err(NetUseError::NoOutput)
    } else if !starts_with(all[0], "Drive "@) {
        Err(NetUseError::UnexpectedLine)
    } else if all[0].len() == 6 {
        Err(NetUseError::NoLetter)
    } else {
        Ok(all[0][6])
    }
}

/// Finds the drive letter in the output of a mount command.
pub fn mounted_drive(output: &str) -> (drive: Result<MountedDrive, NetUseError>)
    ensures
        match letter_in_output(output@) {
            Ok(letter) => drive matches Ok(drive) && drive.drive() == Some(letter),
            Err(e) => drive matches Err(error) && error == e,
        },
{
    let all = split_lines(output);
    if all.len() == 0 {
        return Err(NetUseError::NoOutput);
    }
    let line = all[0].as_str();
    assert(lines(output@)[0] == line@);
    if !text_starts_with(line, "Drive ") {
        return Err(NetUseError::UnexpectedLine);
    }
    proof {
        reveal_strlit("Drive ");
        assert("Drive "@.len() == 6);
    }
    let chars = chars_of(line);
    if chars.len() == 6 {
        return Err(NetUseError::NoLetter);
    }
    Ok(MountedDrive::new(chars[6]))
}

/// The drive argument of a mount command: a letter, or any free one.
pub fn drive_argument(drive: Option<char>) -> (argument: String)
    ensures
        argument@ == match drive {
            Some(letter) => seq![letter, ':'],
            None => "*"@,
        },
{
    match drive {
        Some(letter) => {
            let mut argument = String::new();
            argument.push(letter);
            argument.push(':');
            assert(argument@ == seq![letter, ':']);
            argument
        },
        None => "*".to_owned(),
    }
}

/// What a path starts with on Windows.
#[derive(Debug, Clone, Copy, PartialEq, Eq, Structural)]
pub enum PathPrefix {
    /// A disk with the given letter.
    Disk(char),
    /// A server and a share.
    Unc,
    /// A device or something else without a letter.
    Other,
}

/// Where a file system is mounted.
#[derive(Debug, Clone, Copy, PartialEq, Eq, Structural)]
pub enum MountPlace {
    /// The drive with the given letter, or the first free one.
    Drive(Option<char>),
    /// A folder.
    Folder,
}

/// Where a file system is mounted. A mount point that is a prefix and nothing else
/// can be a drive, but not a share. `None` if it is one.
pub open spec fn place_of(
    mount_point: bool,
    prefix: Option<PathPrefix>,
    has_more: bool,
) -> Option<MountPlace> {
    if !mount_point {
        Some(MountPlace::Drive(None))
    } else if has_more {
        Some(MountPlace::Folder)
    } else {
        match prefix {
            Some(PathPrefix::Disk(letter)) => Some(MountPlace::Drive(Some(letter))),
            Some(PathPrefix::Unc) => None,
            _ => Some(MountPlace::Folder),
        }
    }
}

/// Decides where a file system is mounted.
pub fn mount_place(mount_point: bool, prefix: Option<PathPrefix>, has_more: bool) -> (place: Option<
    MountPlace,
>)
    ensures
        place == place_of(mount_point, prefix, has_more),
{
    if !mount_point {
        return Some(MountPlace::Drive(None));
    }
    if has_more {
        return Some(MountPlace::Folder);
    }
    match prefix {
        Some(PathPrefix::Disk(letter)) => Some(MountPlace::Drive(Some(letter))),
        Some(PathPrefix::Unc) => None,
        _ => Some(MountPlace::Folder),
    }
}

/// The address of a WebDAV server on this computer.
pub fn server_url(port: u16) -> (url: String)
    ensures
        url@ == "http://127.0.0.1:"@ + decimal(port as nat),
{
    let mut url: String = "http://127.0.0.1:".to_owned();
    append_decimal(&mut url, port as u64);
    url
}

/// The network path of a WebDAV server on this computer.
pub fn network_path(port: u16) -> (path: String)
    ensures
        path@ == "//127.0.0.1@"@ + decimal(port as nat) + "/DavWWWRoot"@,
{
    let mut path: String = "//127.0.0.1@".to_owned();
    append_decimal(&mut path, port as u64);
    path.append("/DavWWWRoot");
    path
}

/// What is shown of an entry in a mounted backup.
#[derive(Debug, Clone, Copy, PartialEq, Eq, Structural)]
pub struct MountedEntry {
    pub is_dir: bool,
    /// The size of the file, folders have none.
    pub len: u64,
    /// When the entry was modified, in microseconds since the start of 1970. Times
    /// before it are counted down from the largest number.
    pub modified: u64,
}

/// What is shown of an entry with the given metadata.
pub open spec fn shown_entry(info: FsEntryMetadata) -> MountedEntry {
    let micros = info.modified.spec_unix_seconds() * 1_000_000 + info.modified.nanos / 1000;
    MountedEntry {
        is_dir: info.is_dir,
        len: if info.is_dir {
            0
        } else {
            info.size
        },
        modified: if micros < 0 {
            (micros + 0x1_0000_0000_0000_0000) as u64
        } else {
            micros as u64
        },
    }
}

/// What is shown of an entry with the given metadata.
pub fn mounted_entry(info: &FsEntryMetadata) -> (entry: MountedEntry)
    requires
        info.modified.valid(),
    ensures
        entry == shown_entry(*info),
        entry.is_dir == info.is_dir,
        entry.len == if info.is_dir {
            0
        } else {
            info.size
        },
        ({
            let micros = info.modified.spec_unix_seconds() * 1_000_000 + info.modified.nanos / 1000;
            entry.modified == if micros < 0 {
                micros + 0x1_0000_0000_0000_0000
            } else {
                micros
            }
        }),
{
    let micros: i64 = info.modified.unix_timestamp_micros();
    proof {
        let t = info.modified;
        lemma_unix_seconds_bound(t.year as int, t.ordinal as int, t.secs as int);
    }
    MountedEntry {
        is_dir: info.is_dir,
        len: if info.is_dir {
            0
        } else {
            info.size
        },
        modified: if micros < 0 {
            u64::MAX - (-(micros + 1)) as u64
        } else {
            micros as u64
        },
    }
}

/// The path that a WebDAV request is about. `None` if it is not UTF-8, before or
/// after percent signs in it were decoded.
pub fn request_path(bytes: &[u8]) -> (path: Option<String>)
    ensures
        path is Some <==> valid_utf8(bytes@) && valid_utf8(percent_decoded(bytes@)),
        path matches Some(path) ==> encode_utf8(path@) == percent_decoded(bytes@),
{
    match text_of_bytes(bytes) {
        Some(text) => url_decode(text),
        None => None,
    }
}

} // verus!
