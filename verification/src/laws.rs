//! Properties that relate several operations.
use vstd::prelude::*;

use crate::fs_build::{
    built_tree, finish, finish_list, insert_below, lemma_insert_spine, lemma_spine_step, prefix_len,
    record_place, spine, spine_matches, spine_ok, start_state, state_after, FsIndexBuildOptions,
};
use crate::fs_export::{entry_path, list_records, node_records, root_full_path, tree_records};
use crate::fs_tree::FsNode;
use crate::metadata::FsEntryMetadata;
use crate::text::{ends_with_separator, is_separator};
use crate::wiztree_csv::RecordView;

verus! {

/// Full path of a folder that is reached from another folder by some names.
pub open spec fn folder_path(base: Seq<char>, names: Seq<Seq<char>>, separator: char) -> Seq<char>
    decreases names.len(),
{
    if names.len() == 0 {
        base
    } else {
        folder_path((base + names[0]).push(separator), names.drop_first(), separator)
    }
}

/// Whether the record of an entry has exactly the path that the entry gets in an
/// index with the given root.
pub open spec fn canonical(
    record: RecordView,
    root: RecordView,
    separator: char,
    force_ext: bool,
) -> bool {
    record_place(record, prefix_len(root)) matches Some(place) && record.file_name == entry_path(
        folder_path(root.file_name, place.drop_last(), separator),
        place.last(),
        ends_with_separator(record.file_name),
        separator,
        force_ext,
    )
}

/// Options that keep everything as it is in the records.
pub open spec fn keeps_everything(options: FsIndexBuildOptions<'_>) -> bool {
    &&& !options.recount_children
    &&& !options.recalculate_folder_size
    &&& !options.resort
    &&& options.custom_root is None
}

/// Whether all metadata of a tree is as it is read back after it was stored.
spec fn unchanged_by_storing(node: FsNode) -> bool
    decreases node, 1nat,
{
    &&& node.info matches Some(info) && info.modified.nanos == 0 && (!info.is_dir ==> info.files
        == 0 && info.folders == 0 && node.children.len() == 0)
    &&& list_unchanged_by_storing(node.children)
}

spec fn list_unchanged_by_storing(list: Seq<FsNode>) -> bool
    decreases list, 2nat,
{
    list.len() > 0 ==> list_unchanged_by_storing(list.drop_last()) && unchanged_by_storing(
        list.last(),
    )
}

/// The path of the folder that is reached by following last entries.
spec fn spine_path(tree: FsNode, depth: nat, path: Seq<char>, separator: char) -> Seq<char>
    decreases depth,
{
    if depth == 0 {
        path
    } else {
        let last = tree.children.last();
        spine_path(last, (depth - 1) as nat, (path + last.name).push(separator), separator)
    }
}

/// Storing a tree without recalculating anything keeps its records.
proof fn lemma_finish_keeps_records(
    node: FsNode,
    options: FsIndexBuildOptions<'_>,
    folder: Seq<char>,
    separator: char,
    force_ext: bool,
)
    requires
        keeps_everything(options),
        unchanged_by_storing(node),
    ensures
        node_records(finish(node, options), folder, separator, force_ext) == node_records(
            node,
            folder,
            separator,
            force_ext,
        ),
        finish(node, options).name == node.name,
        finish(node, options).is_folder() == node.is_folder(),
    decreases node, 1nat,
{
    let path = entry_path(folder, node.name, node.is_folder(), separator, force_ext);
    let info = node.info->0;
    if info.is_dir {
        lemma_finish_list_keeps_records(node.children, options, path, separator, force_ext);
    } else {
        assert(node.children == Seq::<FsNode>::empty());
    }
}

proof fn lemma_finish_list_keeps_records(
    list: Seq<FsNode>,
    options: FsIndexBuildOptions<'_>,
    folder: Seq<char>,
    separator: char,
    force_ext: bool,
)
    requires
        keeps_everything(options),
        list_unchanged_by_storing(list),
    ensures
        list_records(finish_list(list, options), folder, separator, force_ext) == list_records(
            list,
            folder,
            separator,
            force_ext,
        ),
    decreases list, 2nat,
{
    if list.len() > 0 {
        lemma_finish_list_keeps_records(list.drop_last(), options, folder, separator, force_ext);
        lemma_finish_keeps_records(list.last(), options, folder, separator, force_ext);
        let done = finish_list(list, options);
        assert(done.drop_last() == finish_list(list.drop_last(), options));
        assert(done.last() == finish(list.last(), options));
    }
}

/// An added entry comes after all others.
proof fn lemma_insert_records(
    tree: FsNode,
    depth: nat,
    leaf: FsNode,
    path: Seq<char>,
    separator: char,
    force_ext: bool,
)
    requires
        spine_ok(tree, depth),
        leaf.info is Some,
        leaf.children.len() == 0,
    ensures
        list_records(
            insert_below(tree, depth, leaf).children,
            path,
            separator,
            force_ext,
        ) == list_records(tree.children, path, separator, force_ext).push(
            leaf.info->0.record(
                entry_path(
                    spine_path(tree, depth, path, separator),
                    leaf.name,
                    leaf.is_folder(),
                    separator,
                    force_ext,
                ),
            ),
        ),
    decreases depth,
{
    let after = insert_below(tree, depth, leaf);
    assert(spine(tree, 0) == tree);
    if depth == 0 {
        assert(after.children.drop_last() == tree.children);
        assert(after.children.last() == leaf);
        let leaf_path = entry_path(path, leaf.name, leaf.is_folder(), separator, force_ext);
        let inside = list_records(leaf.children, leaf_path, separator, force_ext);
        let record = leaf.info->0.record(leaf_path);
        assert(inside == Seq::<RecordView>::empty());
        assert(node_records(leaf, path, separator, force_ext) == seq![record] + inside);
        assert(seq![record] + inside == seq![record]);
        let others = list_records(tree.children, path, separator, force_ext);
        assert(others + seq![record] == others.push(record));
        assert(list_records(after.children, path, separator, force_ext) == others + node_records(
            leaf,
            path,
            separator,
            force_ext,
        ));
    } else {
        let last = tree.children.last();
        let prev = (depth - 1) as nat;
        lemma_spine_tail(tree, depth);
        assert(spine(tree, 1).is_folder());
        lemma_spine_step(tree, 0);
        assert(spine(last, 0) == last);
        let last_path = entry_path(path, last.name, last.is_folder(), separator, force_ext);
        lemma_insert_records(last, prev, leaf, last_path, separator, force_ext);
        let after_last = insert_below(last, prev, leaf);
        lemma_insert_spine(last, prev, leaf);
        assert(spine(after_last, 0).info == spine(last, 0).info);
        assert(after.children.drop_last() == tree.children.drop_last());
        assert(after.children.last() == after_last);
        assert(after_last.name == last.name);
        let record = leaf.info->0.record(
            entry_path(
                spine_path(tree, depth, path, separator),
                leaf.name,
                leaf.is_folder(),
                separator,
                force_ext,
            ),
        );
        let first = last.info->0.record(last_path);
        let inside = list_records(last.children, last_path, separator, force_ext);
        let others = list_records(tree.children.drop_last(), path, separator, force_ext);
        assert(node_records(after_last, path, separator, force_ext) == seq![first] + inside.push(
            record,
        ));
        assert(seq![first] + inside.push(record) == (seq![first] + inside).push(record));
        assert(others + (seq![first] + inside).push(record) == (others + (seq![first]
            + inside)).push(record));
        assert(node_records(last, path, separator, force_ext) == seq![first] + inside);
        assert(list_records(tree.children, path, separator, force_ext) == others + node_records(
            last,
            path,
            separator,
            force_ext,
        ));
        assert(list_records(after.children, path, separator, force_ext) == others + node_records(
            after_last,
            path,
            separator,
            force_ext,
        ));
    }
}

/// Following last entries from the first of them.
pub proof fn lemma_spine_tail(tree: FsNode, depth: nat)
    requires
        spine_ok(tree, depth),
        depth > 0,
    ensures
        tree.children.len() > 0,
        spine_ok(tree.children.last(), (depth - 1) as nat),
{
    let last = tree.children.last();
    let prev = (depth - 1) as nat;
    assert(spine(tree, 0).children.len() > 0);
    assert forall|j: nat| j < prev implies (#[trigger] spine(last, j)).children.len() > 0 by {
        lemma_spine_step(tree, j);
        assert(spine(tree, j + 1).children.len() > 0);
    }
    assert forall|j: nat| j <= prev implies (#[trigger] spine(last, j)).is_folder() by {
        lemma_spine_step(tree, j);
        assert(spine(tree, j + 1).is_folder());
    }
}

/// The path of a folder that is reached by following last entries with the given
/// names.
proof fn lemma_spine_path(
    tree: FsNode,
    names: Seq<Seq<char>>,
    path: Seq<char>,
    separator: char,
)
    requires
        spine_matches(tree, names),
    ensures
        spine_path(tree, names.len(), path, separator) == folder_path(path, names, separator),
    decreases names.len(),
{
    if names.len() > 0 {
        let last = tree.children.last();
        let rest = names.drop_first();
        lemma_spine_step(tree, 0);
        assert(spine(last, 0) == last);
        assert(spine(tree, (0 + 1) as nat).name == names[0]);
        assert forall|i: int| 0 <= i < rest.len() implies spine(last, (i + 1) as nat).name
            == #[trigger] rest[i] by {
            lemma_spine_step(tree, (i + 1) as nat);
            assert(names[i + 1] == rest[i]);
            assert(spine(tree, (i + 1 + 1) as nat).name == names[i + 1]);
        }
        lemma_spine_path(last, rest, (path + last.name).push(separator), separator);
    }
}

proof fn lemma_insert_unchanged(tree: FsNode, depth: nat, leaf: FsNode)
    requires
        spine_ok(tree, depth),
        unchanged_by_storing(tree),
        unchanged_by_storing(leaf),
    ensures
        unchanged_by_storing(insert_below(tree, depth, leaf)),
    decreases depth,
{
    let after = insert_below(tree, depth, leaf);
    assert(spine(tree, 0).is_folder());
    if depth == 0 {
        assert(after.children.drop_last() == tree.children);
    } else {
        lemma_spine_tail(tree, depth);
        lemma_insert_unchanged(tree.children.last(), (depth - 1) as nat, leaf);
        assert(after.children.drop_last() == tree.children.drop_last());
    }
}

/// What was read so far lists the records that were read.
proof fn lemma_state_records(
    root: RecordView,
    records: Seq<RecordView>,
    options: FsIndexBuildOptions<'_>,
    separator: char,
    force_ext: bool,
)
    requires
        keeps_everything(options),
        root.file_name.len() > 0,
        root.modified.nanos == 0,
        state_after(root, records, options) is Some,
        forall|i: int|
            0 <= i < records.len() ==> canonical(#[trigger] records[i], root, separator, force_ext)
                && records[i].modified.nanos == 0,
    ensures
        ({
            let state = state_after(root, records, options)->0;
            &&& spine_ok(state.tree, state.depth)
            &&& state.tree.info == Some(FsEntryMetadata::of_record(root))
            &&& state.tree.name == root.file_name.drop_last()
            &&& unchanged_by_storing(state.tree)
            &&& list_records(state.tree.children, root.file_name, separator, force_ext) == records
        }),
    decreases records.len(),
{
    let state = state_after(root, records, options)->0;
    if records.len() == 0 {
        assert(spine(state.tree, 0) == state.tree);
        assert forall|j: nat| j < 0 implies (#[trigger] spine(state.tree, j)).children.len()
            > 0 by {}
        assert(list_records(state.tree.children, root.file_name, separator, force_ext) == records);
    } else {
        let rest = records.drop_last();
        let record = records.last();
        assert(records[records.len() - 1] == record);
        assert forall|i: int| 0 <= i < rest.len() implies canonical(
            #[trigger] rest[i],
            root,
            separator,
            force_ext,
        ) && rest[i].modified.nanos == 0 by {
            assert(rest[i] == records[i]);
        }
        lemma_state_records(root, rest, options, separator, force_ext);
        let before = state_after(root, rest, options)->0;
        let place = record_place(record, prefix_len(root))->0;
        let depth = (place.len() - 1) as nat;
        let info = FsEntryMetadata::of_record(record);
        let leaf = FsNode { name: place.last(), info: Some(info), children: seq![] };
        assert(spine_ok(before.tree, depth)) by {
            assert forall|j: nat| j < depth implies (
            #[trigger] spine(before.tree, j)).children.len() > 0 by {}
        }
        lemma_insert_records(
            before.tree,
            depth,
            leaf,
            root.file_name,
            separator,
            force_ext,
        );
        lemma_spine_path(before.tree, place.drop_last(), root.file_name, separator);
        lemma_insert_unchanged(before.tree, depth, leaf);
        lemma_insert_spine(before.tree, depth, leaf);
        assert(spine(state.tree, 0) == state.tree);
        assert(spine(before.tree, 0) == before.tree);
        assert(spine(state.tree, 0).info == spine(before.tree, 0).info);
        assert(spine_ok(state.tree, state.depth)) by {
            assert forall|j: nat| j < state.depth implies (
            #[trigger] spine(state.tree, j)).children.len() > 0 by {
                if j == depth {
                    assert(spine(state.tree, depth).children == spine(
                        before.tree,
                        depth,
                    ).children.push(leaf));
                }
            }
            assert forall|j: nat| j <= state.depth implies (
            #[trigger] spine(state.tree, j)).is_folder() by {
                if j <= depth {
                    assert(spine(state.tree, j).info == spine(before.tree, j).info);
                    assert(spine(before.tree, j).is_folder());
                }
            }
        }
        assert(leaf.info->0.record(record.file_name) == record);
        assert(records == rest.push(record));
    }
}

/// An index that was built from records without recalculating anything lists
/// exactly those records again, the root first and all others in the same order.
pub proof fn law_records_are_recreated(
    root: RecordView,
    records: Seq<RecordView>,
    options: FsIndexBuildOptions<'_>,
    separator: char,
    force_ext: bool,
)
    requires
        keeps_everything(options),
        built_tree(root, records, options) is Some,
        root.file_name.last() == separator,
        is_separator(separator),
        !ends_with_separator(root.file_name.drop_last()),
        root.modified.nanos == 0,
        forall|i: int|
            0 <= i < records.len() ==> canonical(#[trigger] records[i], root, separator, force_ext)
                && records[i].modified.nanos == 0,
    ensures
        tree_records(built_tree(root, records, options)->0, None, separator, force_ext)
            == seq![root] + records,
{
    lemma_start_is_folder(root, records, options);
    lemma_state_records(root, records, options, separator, force_ext);
    let state = state_after(root, records, options)->0;
    let tree = state.tree;
    let done = finish(tree, options);
    assert(root.file_name == root.file_name.drop_last().push(separator));
    lemma_finish_list_keeps_records(
        tree.children,
        options,
        root.file_name,
        separator,
        force_ext,
    );
    assert(root_full_path(done, None, separator) == root.file_name);
    assert(done.info->0.record(root.file_name) == root);
}

/// The root of what was read is a folder.
proof fn lemma_start_is_folder(
    root: RecordView,
    records: Seq<RecordView>,
    options: FsIndexBuildOptions<'_>,
)
    requires
        state_after(root, records, options) is Some,
    ensures
        start_state(root, options) is Some,
    decreases records.len(),
{
    if records.len() > 0 {
        lemma_start_is_folder(root, records.drop_last(), options);
    }
}

} // verus!
