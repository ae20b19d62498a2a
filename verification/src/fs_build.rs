//! What the tree of an index is that is built from a list of records.
use vstd::prelude::*;
use vstd::utf8::encode_utf8;

use crate::fs_tree::FsNode;
use crate::metadata::{record_counts_ok, FsEntryMetadata};
use crate::sorting::listing_order;
use crate::text::{byte_suffix, ends_with_separator, segments};
use crate::wiztree_csv::RecordView;

verus! {

/// Options for builders of [`FsIndex`](crate::fs_index::FsIndex).
#[derive(Debug, Clone, Copy, PartialEq, Eq, Hash)]
pub struct FsIndexBuildOptions<'a> {
    /// Recalculate the number of children inside each directory. This discards
    /// child counts that are provided to the builder.
    pub recount_children: bool,
    /// Recalculate the total size for folders.
    pub recalculate_folder_size: bool,
    /// Resort the children of each directory to match WizTree's sort order
    /// (alphabetically but with folders before files).
    pub resort: bool,
    /// Override the root path segment.
    pub custom_root: Option<&'a str>,
}

impl<'a> Default for FsIndexBuildOptions<'a> {
    /// Keep everything as it is in the records.
    fn default() -> (options: Self)
        ensures
            !options.recount_children,
            !options.recalculate_folder_size,
            !options.resort,
            options.custom_root is None,
    {
        FsIndexBuildOptions {
            recount_children: false,
            recalculate_folder_size: false,
            resort: false,
            custom_root: None,
        }
    }
}

/// Number of files in a list of trees.
pub open spec fn count_files(list: Seq<FsNode>) -> nat
    decreases list,
{
    if list.len() == 0 {
        0
    } else {
        count_files(list.drop_last()) + if list.last().is_folder() {
            count_files(list.last().children)
        } else {
            1
        }
    }
}

/// Number of folders in a list of trees.
pub open spec fn count_folders(list: Seq<FsNode>) -> nat
    decreases list,
{
    if list.len() == 0 {
        0
    } else {
        count_folders(list.drop_last()) + if list.last().is_folder() {
            1 + count_folders(list.last().children)
        } else {
            0
        }
    }
}

/// Sum of the sizes of some entries.
pub open spec fn sum_size(list: Seq<FsNode>) -> int
    decreases list.len(),
{
    if list.len() == 0 {
        0
    } else {
        sum_size(list.drop_last()) + list.last().info->0.size
    }
}

/// Sum of the allocated sizes of some entries.
pub open spec fn sum_allocated(list: Seq<FsNode>) -> int
    decreases list.len(),
{
    if list.len() == 0 {
        0
    } else {
        sum_allocated(list.drop_last()) + list.last().info->0.allocated
    }
}

pub open spec fn list_entries(list: Seq<FsNode>) -> Seq<(Seq<char>, bool)> {
    list.map_values(|node: FsNode| (node.name, node.is_folder()))
}

/// Trees in another order.
pub open spec fn reordered(list: Seq<FsNode>, order: Seq<int>) -> Seq<FsNode> {
    Seq::new(order.len(), |i: int| list[order[i]])
}

/// Trees in the order in which they are stored.
pub open spec fn arranged(list: Seq<FsNode>, options: FsIndexBuildOptions<'_>) -> Seq<FsNode> {
    if options.resort {
        reordered(list, listing_order(list_entries(list)))
    } else {
        list
    }
}

/// The metadata that is stored for a folder with the given metadata and contents.
pub open spec fn folder_info(
    info: FsEntryMetadata,
    children: Seq<FsNode>,
    finished: Seq<FsNode>,
    options: FsIndexBuildOptions<'_>,
) -> FsEntryMetadata {
    FsEntryMetadata {
        files: if options.recount_children {
            count_files(children) as u64
        } else {
            info.files
        },
        folders: if options.recount_children {
            count_folders(children) as u64
        } else {
            info.folders
        },
        size: if options.recalculate_folder_size {
            sum_size(finished) as u64
        } else {
            info.size
        },
        allocated: if options.recalculate_folder_size {
            sum_allocated(finished) as u64
        } else {
            info.allocated
        },
        children: Some(children.len() as u32),
        ..info
    }
}

/// The tree that is stored for entries with the metadata of their records.
pub open spec fn finish(node: FsNode, options: FsIndexBuildOptions<'_>) -> FsNode
    decreases node, 1nat,
{
    let info = node.info->0;
    if info.is_dir {
        let finished = finish_list(node.children, options);
        FsNode {
            name: node.name,
            info: Some(folder_info(info, node.children, finished, options).stored()),
            children: arranged(finished, options),
        }
    } else {
        FsNode { name: node.name, info: Some(info.stored()), children: seq![] }
    }
}

pub open spec fn finish_list(list: Seq<FsNode>, options: FsIndexBuildOptions<'_>) -> Seq<FsNode>
    decreases list, 2nat,
{
    if list.len() == 0 {
        seq![]
    } else {
        finish_list(list.drop_last(), options).push(finish(list.last(), options))
    }
}

/// Whether the recalculated sizes of all folders are 64 bit numbers.
pub open spec fn sums_ok(node: FsNode, options: FsIndexBuildOptions<'_>) -> bool
    decreases node, 1nat,
{
    node.is_folder() ==> {
        &&& sum_size(finish_list(node.children, options)) <= u64::MAX
        &&& sum_allocated(finish_list(node.children, options)) <= u64::MAX
        &&& list_sums_ok(node.children, options)
    }
}

pub open spec fn list_sums_ok(list: Seq<FsNode>, options: FsIndexBuildOptions<'_>) -> bool
    decreases list, 2nat,
{
    list.len() > 0 ==> list_sums_ok(list.drop_last(), options) && sums_ok(list.last(), options)
}

/// Number of bytes taken by the names of some entries.
pub open spec fn names_bytes(list: Seq<FsNode>) -> int
    decreases list.len(),
{
    if list.len() == 0 {
        0
    } else {
        names_bytes(list.drop_last()) + 6 + encode_utf8(list.last().name).len()
    }
}

/// Number of bytes taken by the metadata of an entry and everything inside it.
pub open spec fn meta_bytes(node: FsNode, options: FsIndexBuildOptions<'_>) -> int
    decreases node, 1nat,
{
    let finished = finish(node, options);
    finished.info->0.encoded().len() + if node.is_folder() {
        names_bytes(finished.children) + list_meta_bytes(node.children, options)
    } else {
        0
    }
}

pub open spec fn list_meta_bytes(list: Seq<FsNode>, options: FsIndexBuildOptions<'_>) -> int
    decreases list, 2nat,
{
    if list.len() == 0 {
        0
    } else {
        list_meta_bytes(list.drop_last(), options) + meta_bytes(list.last(), options)
    }
}

/// The entries read so far. The last entry of a folder can be a folder that is
/// not complete yet.
#[verifier::ext_equal]
pub struct BuildState {
    pub tree: FsNode,
    /// How many folders inside the root are not complete. Each is the last entry
    /// of the one before.
    pub depth: nat,
}

/// The folder that is reached by following last entries `depth` times.
pub open spec fn spine(tree: FsNode, depth: nat) -> FsNode
    decreases depth,
{
    if depth == 0 {
        tree
    } else {
        spine(tree, (depth - 1) as nat).children.last()
    }
}

/// Whether following last entries leads to folders with the given names.
pub open spec fn spine_matches(tree: FsNode, names: Seq<Seq<char>>) -> bool {
    forall|i: int|
        0 <= i < names.len() ==> spine(tree, (i + 1) as nat).name == #[trigger] names[i]
}

/// A tree with one more entry, at the end of the folder that is reached by
/// following last entries `depth` times.
pub open spec fn insert_below(tree: FsNode, depth: nat, leaf: FsNode) -> FsNode
    decreases depth,
{
    if depth == 0 {
        FsNode { children: tree.children.push(leaf), ..tree }
    } else {
        FsNode {
            children: tree.children.drop_last().push(
                insert_below(tree.children.last(), (depth - 1) as nat, leaf),
            ),
            ..tree
        }
    }
}

/// Number of bytes written for all complete entries of the folders before the
/// one at `depth`.
pub open spec fn open_bytes(
    tree: FsNode,
    depth: nat,
    options: FsIndexBuildOptions<'_>,
) -> int
    decreases depth,
{
    if depth == 0 {
        0
    } else {
        open_bytes(tree, (depth - 1) as nat, options) + list_meta_bytes(
            spine(tree, (depth - 1) as nat).children.drop_last(),
            options,
        )
    }
}

/// Whether the sums of sizes of all complete entries of the folders before the one
/// at `depth` are 64 bit numbers.
pub open spec fn open_sums_ok(
    tree: FsNode,
    depth: nat,
    options: FsIndexBuildOptions<'_>,
) -> bool
    decreases depth,
{
    depth > 0 ==> {
        &&& open_sums_ok(tree, (depth - 1) as nat, options)
        &&& closed_sums_ok(spine(tree, (depth - 1) as nat).children.drop_last(), options)
    }
}

pub open spec fn closed_sums_ok(list: Seq<FsNode>, options: FsIndexBuildOptions<'_>) -> bool {
    &&& sum_size(finish_list(list, options)) <= u64::MAX
    &&& sum_allocated(finish_list(list, options)) <= u64::MAX
    &&& list_sums_ok(list, options)
}

/// The name of the root entry.
pub open spec fn root_name(root: RecordView, options: FsIndexBuildOptions<'_>) -> Seq<char> {
    match options.custom_root {
        Some(name) => name@,
        None => root.file_name.drop_last(),
    }
}

/// Number of bytes before the names of entries in the paths of all records.
pub open spec fn prefix_len(root: RecordView) -> int {
    encode_utf8(root.file_name).len() - 1
}

/// Whether what was read so far can be stored.
pub open spec fn has_room(state: BuildState, options: FsIndexBuildOptions<'_>) -> bool {
    let top = spine(state.tree, state.depth).children;
    &&& 6 + encode_utf8(state.tree.name).len() + open_bytes(state.tree, state.depth, options)
        + list_meta_bytes(top, options) <= u32::MAX
    &&& options.recalculate_folder_size ==> open_sums_ok(state.tree, state.depth, options)
        && closed_sums_ok(top, options)
}

/// The names of the folders that lead from the root to the entry of a record and
/// the name of the entry itself, `None` for the root and entries outside of it.
pub open spec fn record_place(record: RecordView, prefix: int) -> Option<Seq<Seq<char>>> {
    match byte_suffix(record.file_name, prefix) {
        Some(relative) => if segments(relative).len() > 0 {
            Some(segments(relative))
        } else {
            None
        },
        None => None,
    }
}

/// The root without any entries, `None` if it can't be the root of an index.
pub open spec fn start_state(
    root: RecordView,
    options: FsIndexBuildOptions<'_>,
) -> Option<BuildState> {
    let name = root_name(root, options);
    if ends_with_separator(root.file_name) && root.modified.valid() && encode_utf8(name).len()
        <= u16::MAX {
        Some(
            BuildState {
                tree: FsNode {
                    name,
                    info: Some(FsEntryMetadata::of_record(root)),
                    children: seq![],
                },
                depth: 0,
            },
        )
    } else {
        None
    }
}

/// The folder that an entry is added to must have been the last one added, or one
/// of those that it is in. Folders after it are complete then.
pub open spec fn next_state(
    state: BuildState,
    record: RecordView,
    prefix: int,
    options: FsIndexBuildOptions<'_>,
) -> Option<BuildState> {
    match record_place(record, prefix) {
        None => Some(state),
        Some(place) => {
            let depth = (place.len() - 1) as nat;
            let info = FsEntryMetadata::of_record(record);
            let leaf = FsNode { name: place.last(), info: Some(info), children: seq![] };
            let next = BuildState {
                tree: insert_below(state.tree, depth, leaf),
                depth: if info.is_dir {
                    depth + 1
                } else {
                    depth
                },
            };
            if record_counts_ok(record) && record.modified.valid() && encode_utf8(
                place.last(),
            ).len() <= u16::MAX && depth <= state.depth && spine_matches(
                state.tree,
                place.drop_last(),
            ) && has_room(next, options) {
                Some(next)
            } else {
                None
            }
        },
    }
}

/// What was read after all records.
pub open spec fn state_after(
    root: RecordView,
    records: Seq<RecordView>,
    options: FsIndexBuildOptions<'_>,
) -> Option<BuildState>
    decreases records.len(),
{
    if records.len() == 0 {
        start_state(root, options)
    } else {
        match state_after(root, records.drop_last(), options) {
            None => None,
            Some(state) => next_state(state, records.last(), prefix_len(root), options),
        }
    }
}

/// Whether everything that was read can be stored.
pub open spec fn can_finish(tree: FsNode, options: FsIndexBuildOptions<'_>) -> bool {
    &&& 6 + encode_utf8(tree.name).len() + meta_bytes(tree, options) <= u32::MAX
    &&& options.recalculate_folder_size ==> sums_ok(tree, options)
}

/// The tree of the index that is built from some records, `None` if they are not
/// in the required order or do not fit in an index.
pub open spec fn built_tree(
    root: RecordView,
    records: Seq<RecordView>,
    options: FsIndexBuildOptions<'_>,
) -> Option<FsNode> {
    match state_after(root, records, options) {
        Some(state) => if can_finish(state.tree, options) {
            Some(finish(state.tree, options))
        } else {
            None
        },
        None => None,
    }
}

pub proof fn lemma_finish_list(list: Seq<FsNode>, options: FsIndexBuildOptions<'_>)
    ensures
        finish_list(list, options).len() == list.len(),
        forall|i: int|
            0 <= i < list.len() ==> #[trigger] finish_list(list, options)[i] == finish(
                list[i],
                options,
            ),
    decreases list.len(),
{
    if list.len() > 0 {
        lemma_finish_list(list.drop_last(), options);
        assert forall|i: int| 0 <= i < list.len() implies #[trigger] finish_list(list, options)[i]
            == finish(list[i], options) by {
            if i < list.len() - 1 {
                assert(finish_list(list.drop_last(), options)[i] == finish(
                    list.drop_last()[i],
                    options,
                ));
            }
        }
    }
}

/// Every entry takes at least one byte.
pub proof fn lemma_count_bytes(list: Seq<FsNode>, options: FsIndexBuildOptions<'_>)
    ensures
        count_files(list) + count_folders(list) <= list_meta_bytes(list, options),
        list_meta_bytes(list, options) >= list.len(),
    decreases list, 2nat,
{
    if list.len() > 0 {
        lemma_count_bytes(list.drop_last(), options);
        lemma_node_bytes(list.last(), options);
    }
}

pub proof fn lemma_node_bytes(node: FsNode, options: FsIndexBuildOptions<'_>)
    ensures
        meta_bytes(node, options) >= 1,
        node.is_folder() ==> count_files(node.children) + count_folders(node.children) + 1
            <= meta_bytes(node, options),
        node.is_folder() ==> list_meta_bytes(node.children, options) + names_bytes(
            finish(node, options).children,
        ) + 1 <= meta_bytes(node, options),
    decreases node, 1nat,
{
    if node.is_folder() {
        lemma_count_bytes(node.children, options);
    }
    lemma_names_bytes(finish(node, options).children);
}

pub proof fn lemma_names_bytes(list: Seq<FsNode>)
    ensures
        names_bytes(list) >= 6 * list.len(),
    decreases list.len(),
{
    if list.len() > 0 {
        lemma_names_bytes(list.drop_last());
    }
}

pub proof fn lemma_sum_nonnegative(list: Seq<FsNode>)
    ensures
        sum_size(list) >= 0,
        sum_allocated(list) >= 0,
    decreases list.len(),
{
    if list.len() > 0 {
        lemma_sum_nonnegative(list.drop_last());
    }
}

/// Adding an entry changes only the folder it is added to and what it is in.
pub proof fn lemma_insert_spine(tree: FsNode, depth: nat, leaf: FsNode)
    requires
        forall|j: nat| j < depth ==> (#[trigger] spine(tree, j)).children.len() > 0,
    ensures
        forall|j: nat|
            j <= depth ==> (#[trigger] spine(insert_below(tree, depth, leaf), j)).name == spine(
                tree,
                j,
            ).name && spine(insert_below(tree, depth, leaf), j).info == spine(tree, j).info,
        forall|j: nat|
            j < depth ==> {
                &&& (#[trigger] spine(insert_below(tree, depth, leaf), j)).children.len() > 0
                &&& spine(insert_below(tree, depth, leaf), j).children.drop_last() == spine(
                    tree,
                    j,
                ).children.drop_last()
            },
        spine(insert_below(tree, depth, leaf), depth).children == spine(
            tree,
            depth,
        ).children.push(leaf),
        spine(insert_below(tree, depth, leaf), depth + 1) == leaf,
    decreases depth,
{
    let after = insert_below(tree, depth, leaf);
    if depth == 0 {
        assert(spine(after, 0) == after);
        assert(spine(after, 1) == spine(after, 0).children.last());
    } else {
        assert(spine(tree, 0) == tree);
        let sub = tree.children.last();
        let prev = (depth - 1) as nat;
        assert forall|j: nat| j < prev implies (#[trigger] spine(sub, j)).children.len() > 0 by {
            lemma_spine_step(tree, j);
            assert(spine(tree, j + 1).children.len() > 0);
        }
        lemma_insert_spine(sub, prev, leaf);
        let after_sub = insert_below(sub, prev, leaf);
        assert(after.children.last() == after_sub);
        assert(after.children.drop_last() == tree.children.drop_last());
        assert forall|j: nat| j <= depth implies (#[trigger] spine(after, j)).name == spine(
            tree,
            j,
        ).name && spine(after, j).info == spine(tree, j).info && (j < depth ==> spine(
            after,
            j,
        ).children.len() > 0 && spine(after, j).children.drop_last() == spine(
            tree,
            j,
        ).children.drop_last()) by {
            if j > 0 {
                let i = (j - 1) as nat;
                lemma_spine_step(after, i);
                lemma_spine_step(tree, i);
                assert(spine(after_sub, i).name == spine(sub, i).name);
            }
        }
        lemma_spine_step(after, prev);
        lemma_spine_step(tree, prev);
        lemma_spine_step(after, depth);
    }
}

/// The first step of following last entries.
pub proof fn lemma_spine_step(tree: FsNode, depth: nat)
    ensures
        spine(tree, depth + 1) == spine(tree.children.last(), depth),
    decreases depth,
{
    if depth > 0 {
        lemma_spine_step(tree, (depth - 1) as nat);
    } else {
        assert(spine(tree, 0) == tree);
        assert(spine(tree, 1) == spine(tree, 0).children.last());
    }
}

/// What was written for folders that are not complete only depends on their
/// complete entries.
pub proof fn lemma_open_same(
    a: FsNode,
    b: FsNode,
    depth: nat,
    options: FsIndexBuildOptions<'_>,
)
    requires
        forall|j: nat|
            j < depth ==> (#[trigger] spine(a, j)).children.drop_last() == spine(
                b,
                j,
            ).children.drop_last(),
    ensures
        open_bytes(a, depth, options) == open_bytes(b, depth, options),
        open_sums_ok(a, depth, options) == open_sums_ok(b, depth, options),
    decreases depth,
{
    if depth > 0 {
        let prev = (depth - 1) as nat;
        lemma_open_same(a, b, prev, options);
        assert(spine(a, prev).children.drop_last() == spine(b, prev).children.drop_last());
    }
}

/// Whether following last entries leads to folders, at least `depth` times.
pub open spec fn spine_ok(tree: FsNode, depth: nat) -> bool {
    &&& forall|j: nat| j < depth ==> (#[trigger] spine(tree, j)).children.len() > 0
    &&& forall|j: nat| j <= depth ==> (#[trigger] spine(tree, j)).is_folder()
}

/// What was written when fewer folders were complete took no more room.
pub proof fn lemma_room_before(
    tree: FsNode,
    depth: nat,
    deeper: nat,
    options: FsIndexBuildOptions<'_>,
)
    requires
        depth <= deeper,
        spine_ok(tree, deeper),
        has_room(BuildState { tree, depth }, options),
    ensures
        has_room(BuildState { tree, depth: deeper }, options),
    decreases deeper,
{
    if depth < deeper {
        let prev = (deeper - 1) as nat;
        lemma_room_before(tree, depth, prev, options);
        let list = spine(tree, prev).children;
        let folder = spine(tree, deeper);
        assert(spine(tree, prev).children.len() > 0);
        assert(folder == list.last());
        assert(folder.is_folder());
        lemma_node_bytes(folder, options);
        lemma_names_bytes(finish(folder, options).children);
        if options.recalculate_folder_size {
            let finished = finish_list(list, options);
            assert(finished == finish_list(list.drop_last(), options).push(
                finish(folder, options),
            ));
            assert(finished.drop_last() == finish_list(list.drop_last(), options));
            assert(sum_size(finished) == sum_size(finished.drop_last())
                + finished.last().info->0.size);
            assert(sum_allocated(finished) == sum_allocated(finished.drop_last())
                + finished.last().info->0.allocated);
            assert(list_sums_ok(list, options));
            assert(sums_ok(folder, options));
            assert(closed_sums_ok(list.drop_last(), options));
            assert(closed_sums_ok(folder.children, options));
            assert(open_sums_ok(tree, deeper, options));
        }
    }
}

/// If everything can be stored then there is room for all entries of the root.
pub proof fn lemma_room_before_finish(tree: FsNode, options: FsIndexBuildOptions<'_>)
    requires
        tree.is_folder(),
        can_finish(tree, options),
    ensures
        has_room(BuildState { tree, depth: 0 }, options),
{
    assert(spine(tree, 0) == tree);
    lemma_node_bytes(tree, options);
    lemma_names_bytes(finish(tree, options).children);
}

/// The room taken after adding an entry to the folder at `depth`.
pub proof fn lemma_room_after_insert(
    tree: FsNode,
    depth: nat,
    leaf: FsNode,
    options: FsIndexBuildOptions<'_>,
)
    requires
        spine_ok(tree, depth),
        leaf.children.len() == 0,
        leaf.info is Some,
    ensures
        leaf.is_folder() ==> (has_room(
            BuildState { tree: insert_below(tree, depth, leaf), depth: depth + 1 },
            options,
        ) <==> has_room(BuildState { tree, depth }, options)),
        !leaf.is_folder() ==> (has_room(
            BuildState { tree: insert_below(tree, depth, leaf), depth },
            options,
        ) <==> {
            let list = spine(tree, depth).children;
            &&& 6 + encode_utf8(tree.name).len() + open_bytes(tree, depth, options)
                + list_meta_bytes(list, options) + meta_bytes(leaf, options) <= u32::MAX
            &&& options.recalculate_folder_size ==> {
                &&& open_sums_ok(tree, depth, options)
                &&& list_sums_ok(list, options)
                &&& sum_size(finish_list(list, options)) + leaf.info->0.size <= u64::MAX
                &&& sum_allocated(finish_list(list, options)) + leaf.info->0.allocated <= u64::MAX
            }
        }),
        open_bytes(insert_below(tree, depth, leaf), depth, options) == open_bytes(
            tree,
            depth,
            options,
        ),
        open_bytes(insert_below(tree, depth, leaf), depth + 1, options) == open_bytes(
            tree,
            depth,
            options,
        ) + list_meta_bytes(spine(tree, depth).children, options),
{
    let after = insert_below(tree, depth, leaf);
    let list = spine(tree, depth).children;
    lemma_insert_spine(tree, depth, leaf);
    assert(after.name == tree.name) by {
        assert(spine(after, 0).name == spine(tree, 0).name);
    }
    assert forall|j: nat| j < depth implies (#[trigger] spine(after, j)).children.drop_last()
        == spine(tree, j).children.drop_last() by {}
    lemma_open_same(after, tree, depth, options);
    assert(list.push(leaf).drop_last() == list);
    assert(spine(after, depth).children.drop_last() == list);
    assert(open_bytes(after, depth + 1, options) == open_bytes(after, depth, options)
        + list_meta_bytes(list, options));
    assert(open_sums_ok(after, depth + 1, options) == (open_sums_ok(after, depth, options)
        && closed_sums_ok(list, options)));
    let more = list.push(leaf);
    let finished = finish_list(more, options);
    assert(more.last() == leaf);
    assert(finished == finish_list(list, options).push(finish(leaf, options)));
    assert(finished.drop_last() == finish_list(list, options));
    assert(finished.last() == finish(leaf, options));
    assert(list_meta_bytes(more, options) == list_meta_bytes(list, options) + meta_bytes(
        leaf,
        options,
    ));
    if !leaf.is_folder() {
        assert(sums_ok(leaf, options));
        assert(list_sums_ok(more, options) == list_sums_ok(list, options));
        assert(sum_size(finished) == sum_size(finish_list(list, options)) + leaf.info->0.size);
        assert(sum_allocated(finished) == sum_allocated(finish_list(list, options))
            + leaf.info->0.allocated);
        assert(spine(after, depth).children == more);
    }
}

} // verus!
