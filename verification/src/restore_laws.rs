//! What an index lists can be made into that index again.
use vstd::prelude::*;
use vstd::utf8::encode_utf8;

use crate::build_laws::{lemma_total_arranged, total};
use crate::fs_build::{
    built_tree, can_finish, finish, finish_list, has_room, insert_below, lemma_count_bytes,
    lemma_finish_list, lemma_insert_spine, lemma_names_bytes, lemma_node_bytes, lemma_open_same,
    lemma_room_after_insert, list_meta_bytes, meta_bytes, next_state, open_bytes, prefix_len,
    record_place, spine, spine_matches, spine_ok, start_state, state_after, BuildState,
    FsIndexBuildOptions,
};
use crate::fs_builder::{lemma_open_bytes_nonnegative, lemma_separator_len};
use crate::fs_export::{entry_path, list_records, node_records, tree_records};
use crate::fs_tree::FsNode;
use crate::laws::{keeps_everything, lemma_spine_tail};
use crate::metadata::FsEntryMetadata;
use crate::mount::lemma_state_complete;
use crate::text::{
    byte_suffix, ends_with_separator, is_plain, is_separator, lemma_cut_concat,
    lemma_encode_concat, lemma_one_more_segment, segments, segments_after,
    DEFAULT_PATH_SEPARATOR,
};
use crate::wiztree_csv::RecordView;

verus! {

/// Whether a name can be stored.
pub open spec fn can_store_name(name: Seq<char>) -> bool {
    is_plain(name) && encode_utf8(name).len() <= u16::MAX
}

/// Whether metadata is as it is read back after it was stored for an entry with the
/// given number of entries in it.
pub open spec fn is_stored_info(info: FsEntryMetadata, count: nat) -> bool {
    &&& info.modified.valid()
    &&& info.modified.nanos == 0
    &&& if info.is_dir {
        info.children matches Some(children) && children == count
    } else {
        info.children is None && info.files == 0 && info.folders == 0 && count == 0
    }
}

/// Whether a tree is as it is read back after it was stored, with names that can stand
/// in paths.
pub open spec fn is_stored(node: FsNode) -> bool
    decreases node,
{
    &&& node.info matches Some(info) && is_stored_info(info, node.children.len())
    &&& forall|i: int|
        0 <= i < node.children.len() ==> can_store_name((#[trigger] node.children[i]).name)
            && is_stored(node.children[i])
}

/// A tree as it is read from the records that it lists.
spec fn read_tree(node: FsNode) -> FsNode
    decreases node, 1nat,
{
    FsNode {
        name: node.name,
        info: Some(FsEntryMetadata { children: None, ..node.info->0 }),
        children: read_list(node.children),
    }
}

spec fn read_list(list: Seq<FsNode>) -> Seq<FsNode>
    decreases list, 2nat,
{
    if list.len() == 0 {
        seq![]
    } else {
        read_list(list.drop_last()).push(read_tree(list.last()))
    }
}

/// Storing what was read from the records of a tree gives that tree.
proof fn lemma_finish_read(node: FsNode, options: FsIndexBuildOptions<'_>)
    requires
        keeps_everything(options),
        is_stored(node),
    ensures
        finish(read_tree(node), options) == node,
        finish(node, options) == node,
        meta_bytes(read_tree(node), options) == meta_bytes(node, options),
    decreases node, 1nat,
{
    let info = node.info->0;
    lemma_finish_read_list(node.children, options);
    assert(info.modified.whole() == info.modified);
    if info.is_dir {
        let count = info.children->0;
        assert(read_list(node.children).len() as u32 == count);
    } else {
        assert(node.children == Seq::<FsNode>::empty());
    }
}

proof fn lemma_finish_read_list(list: Seq<FsNode>, options: FsIndexBuildOptions<'_>)
    requires
        keeps_everything(options),
        forall|i: int| 0 <= i < list.len() ==> is_stored(#[trigger] list[i]),
    ensures
        read_list(list).len() == list.len(),
        finish_list(read_list(list), options) == list,
        finish_list(list, options) == list,
        list_meta_bytes(read_list(list), options) == list_meta_bytes(list, options),
    decreases list, 2nat,
{
    if list.len() > 0 {
        let rest = list.drop_last();
        assert(list[list.len() - 1] == list.last());
        assert forall|i: int| 0 <= i < rest.len() implies is_stored(#[trigger] rest[i]) by {
            assert(rest[i] == list[i]);
        }
        lemma_finish_read_list(rest, options);
        lemma_finish_read(list.last(), options);
        let read = read_list(list);
        assert(read.drop_last() == read_list(rest));
        assert(read.last() == read_tree(list.last()));
        assert(rest.push(list.last()) == list);
    }
}

/// What was read after some more records.
spec fn run(
    state: BuildState,
    records: Seq<RecordView>,
    prefix: int,
    options: FsIndexBuildOptions<'_>,
) -> Option<BuildState>
    decreases records.len(),
{
    if records.len() == 0 {
        Some(state)
    } else {
        match run(state, records.drop_last(), prefix, options) {
            None => None,
            Some(before) => next_state(before, records.last(), prefix, options),
        }
    }
}

proof fn lemma_run_add(
    state: BuildState,
    a: Seq<RecordView>,
    b: Seq<RecordView>,
    prefix: int,
    options: FsIndexBuildOptions<'_>,
)
    ensures
        run(state, a + b, prefix, options) == match run(state, a, prefix, options) {
            None => None,
            Some(middle) => run(middle, b, prefix, options),
        },
    decreases b.len(),
{
    if b.len() == 0 {
        assert(a + b == a);
    } else {
        lemma_run_add(state, a, b.drop_last(), prefix, options);
        assert((a + b).drop_last() == a + b.drop_last());
        assert((a + b).last() == b.last());
    }
}

proof fn lemma_state_is_run(
    root: RecordView,
    records: Seq<RecordView>,
    options: FsIndexBuildOptions<'_>,
)
    ensures
        state_after(root, records, options) == match start_state(root, options) {
            None => None,
            Some(state) => run(state, records, prefix_len(root), options),
        },
    decreases records.len(),
{
    if records.len() > 0 {
        lemma_state_is_run(root, records.drop_last(), options);
    }
}

/// A tree with some more entries at the end of the folder that is reached by following
/// last entries.
spec fn append_below(tree: FsNode, depth: nat, list: Seq<FsNode>) -> FsNode
    decreases list.len(),
{
    if list.len() == 0 {
        tree
    } else {
        insert_below(append_below(tree, depth, list.drop_last()), depth, list.last())
    }
}

/// An entry that is added to a folder right after the folder was added.
proof fn lemma_insert_twice(tree: FsNode, depth: nat, leaf: FsNode, entry: FsNode)
    ensures
        insert_below(insert_below(tree, depth, leaf), depth + 1, entry) == insert_below(
            tree,
            depth,
            FsNode { children: leaf.children.push(entry), ..leaf },
        ),
    decreases depth,
{
    let more = FsNode { children: leaf.children.push(entry), ..leaf };
    let once = insert_below(tree, depth, leaf);
    let twice = insert_below(once, depth + 1, entry);
    if depth == 0 {
        assert(once.children.last() == leaf);
        assert(once.children.drop_last() == tree.children);
        assert(insert_below(leaf, 0, entry) == more);
    } else {
        let last = tree.children.last();
        let prev = (depth - 1) as nat;
        lemma_insert_twice(last, prev, leaf, entry);
        assert(once.children.last() == insert_below(last, prev, leaf));
        assert(once.children.drop_last() == tree.children.drop_last());
    }
    assert(twice == insert_below(tree, depth, more));
}

proof fn lemma_append_inside(tree: FsNode, depth: nat, leaf: FsNode, list: Seq<FsNode>)
    ensures
        append_below(insert_below(tree, depth, leaf), depth + 1, list) == insert_below(
            tree,
            depth,
            FsNode { children: leaf.children + list, ..leaf },
        ),
    decreases list.len(),
{
    if list.len() == 0 {
        assert(leaf.children + list == leaf.children);
        assert(FsNode { children: leaf.children + list, ..leaf } == leaf);
    } else {
        let rest = list.drop_last();
        lemma_append_inside(tree, depth, leaf, rest);
        let before = FsNode { children: leaf.children + rest, ..leaf };
        lemma_insert_twice(tree, depth, before, list.last());
        assert((leaf.children + rest).push(list.last()) == leaf.children + list);
    }
}

proof fn lemma_append_to_root(tree: FsNode, list: Seq<FsNode>)
    ensures
        append_below(tree, 0, list) == (FsNode { children: tree.children + list, ..tree }),
    decreases list.len(),
{
    if list.len() == 0 {
        assert(tree.children + list == tree.children);
    } else {
        lemma_append_to_root(tree, list.drop_last());
        assert((tree.children + list.drop_last()).push(list.last()) == tree.children + list);
    }
}

/// What stays the same if an entry is added.
proof fn lemma_inserted(
    tree: FsNode,
    names: Seq<Seq<char>>,
    node: FsNode,
    options: FsIndexBuildOptions<'_>,
)
    requires
        spine_ok(tree, names.len()),
        spine_matches(tree, names),
    ensures
        ({
            let after = insert_below(tree, names.len(), node);
            &&& after.name == tree.name
            &&& spine_ok(after, names.len())
            &&& spine_matches(after, names)
            &&& spine(after, names.len()).children == spine(tree, names.len()).children.push(node)
            &&& open_bytes(after, names.len(), options) == open_bytes(tree, names.len(), options)
        }),
{
    let depth = names.len();
    let after = insert_below(tree, depth, node);
    lemma_insert_spine(tree, depth, node);
    assert(spine(after, 0) == after && spine(tree, 0) == tree);
    assert(spine(after, 0).name == spine(tree, 0).name);
    assert forall|j: nat| j <= depth implies (#[trigger] spine(after, j)).is_folder() by {
        assert(spine(after, j).info == spine(tree, j).info);
        assert(spine(tree, j).is_folder());
    }
    assert forall|i: int| 0 <= i < names.len() implies spine(after, (i + 1) as nat).name
        == #[trigger] names[i] by {
        assert(spine(tree, (i + 1) as nat).name == names[i]);
    }
    assert forall|j: nat| j < depth implies (#[trigger] spine(after, j)).children.drop_last()
        == spine(tree, j).children.drop_last() by {}
    lemma_open_same(after, tree, depth, options);
}

/// What stays the same if some entries are added.
proof fn lemma_appended(
    tree: FsNode,
    names: Seq<Seq<char>>,
    list: Seq<FsNode>,
    options: FsIndexBuildOptions<'_>,
)
    requires
        spine_ok(tree, names.len()),
        spine_matches(tree, names),
    ensures
        ({
            let after = append_below(tree, names.len(), list);
            &&& after.name == tree.name
            &&& spine_ok(after, names.len())
            &&& spine_matches(after, names)
            &&& open_bytes(after, names.len(), options) == open_bytes(tree, names.len(), options)
            &&& list_meta_bytes(spine(after, names.len()).children, options) == list_meta_bytes(
                spine(tree, names.len()).children,
                options,
            ) + list_meta_bytes(list, options)
        }),
    decreases list.len(),
{
    if list.len() > 0 {
        let before = append_below(tree, names.len(), list.drop_last());
        lemma_appended(tree, names, list.drop_last(), options);
        lemma_inserted(before, names, list.last(), options);
        let children = spine(before, names.len()).children;
        assert(children.push(list.last()).drop_last() == children);
    }
}

/// Whether a path leads from the root to a folder by some names.
spec fn leads_to(path: Seq<char>, names: Seq<Seq<char>>, base: Seq<char>) -> bool {
    &&& path.len() > base.len()
    &&& path.take(base.len() as int) == base
    &&& ends_with_separator(path)
    &&& segments(path.skip(base.len() as int)) == names
}

/// The place of an entry in a folder.
proof fn lemma_entry_place(
    root: RecordView,
    base: Seq<char>,
    path: Seq<char>,
    names: Seq<Seq<char>>,
    record: RecordView,
    name: Seq<char>,
    is_folder: bool,
)
    requires
        root.file_name == base.push(DEFAULT_PATH_SEPARATOR),
        leads_to(path, names, base),
        is_plain(name),
        record.file_name == entry_path(path, name, is_folder, DEFAULT_PATH_SEPARATOR, false),
    ensures
        record_place(record, prefix_len(root)) == Some(names.push(name)),
        is_folder ==> leads_to(record.file_name, names.push(name), base),
        ends_with_separator(record.file_name) == is_folder,
{
    let n = base.len() as int;
    let full = record.file_name;
    let start = path.skip(n);
    lemma_root_prefix(root, base);
    assert(start.last() == path.last());
    lemma_one_more_segment(Seq::empty(), start, name);
    assert((path + name).skip(n) == start + name);
    assert((path + name).push(DEFAULT_PATH_SEPARATOR).skip(n) == (start + name).push(
        DEFAULT_PATH_SEPARATOR,
    ));
    assert(full.take(n) == base) by {
        assert(full.take(n) == path.take(n));
    }
    assert(full == base + full.skip(n));
    lemma_cut_concat(base, full.skip(n));
    assert(segments(full.skip(n)) == names.push(name));
    if !is_folder {
        assert(full.last() == name[name.len() - 1]);
    }
}

/// The path of the root without its separator is the prefix of all paths.
proof fn lemma_root_prefix(root: RecordView, base: Seq<char>)
    requires
        root.file_name == base.push(DEFAULT_PATH_SEPARATOR),
    ensures
        prefix_len(root) == encode_utf8(base).len(),
{
    let end = seq![DEFAULT_PATH_SEPARATOR];
    assert(base.push(DEFAULT_PATH_SEPARATOR) == base + end);
    lemma_encode_concat(base, end);
    lemma_separator_len(DEFAULT_PATH_SEPARATOR);
}

/// Reading the records of a tree adds it to the folder that it is in.
#[verifier::spinoff_prover]
proof fn lemma_read_node(
    state: BuildState,
    node: FsNode,
    names: Seq<Seq<char>>,
    path: Seq<char>,
    root: RecordView,
    base: Seq<char>,
    options: FsIndexBuildOptions<'_>,
)
    requires
        keeps_everything(options),
        root.file_name == base.push(DEFAULT_PATH_SEPARATOR),
        is_stored(node),
        can_store_name(node.name),
        leads_to(path, names, base),
        names.len() <= state.depth,
        spine_ok(state.tree, names.len()),
        spine_matches(state.tree, names),
        6 + encode_utf8(state.tree.name).len() + open_bytes(state.tree, names.len(), options)
            + list_meta_bytes(spine(state.tree, names.len()).children, options) + meta_bytes(
            read_tree(node),
            options,
        ) <= u32::MAX,
    ensures
        ({
            let records = node_records(node, path, DEFAULT_PATH_SEPARATOR, false);
            run(state, records, prefix_len(root), options) matches Some(after) && after.tree
                == insert_below(state.tree, names.len(), read_tree(node)) && after.depth
                >= names.len()
        }),
    decreases node, 1nat,
{
    let prefix = prefix_len(root);
    let depth = names.len();
    let info = node.info->0;
    let full = entry_path(path, node.name, node.is_folder(), DEFAULT_PATH_SEPARATOR, false);
    let record = info.record(full);
    let inside = list_records(node.children, full, DEFAULT_PATH_SEPARATOR, false);
    let place = names.push(node.name);
    lemma_entry_place(root, base, path, names, record, node.name, node.is_folder());
    assert(place.drop_last() == names);
    let own = FsEntryMetadata::of_record(record);
    assert(own == FsEntryMetadata { children: None, ..info });
    let leaf = FsNode { name: node.name, info: Some(own), children: seq![] };
    let next = BuildState {
        tree: insert_below(state.tree, depth, leaf),
        depth: if own.is_dir {
            depth + 1
        } else {
            depth
        },
    };
    lemma_room_after_insert(state.tree, depth, leaf, options);
    lemma_node_bytes(read_tree(node), options);
    lemma_open_bytes_nonnegative(state.tree, depth, options);
    if !own.is_dir {
        assert(node.children == Seq::<FsNode>::empty());
        assert(leaf == read_tree(node));
    }
    assert(has_room(next, options));
    assert(next_state(state, record, prefix, options) == Some(next));
    let first = seq![record];
    assert(first.drop_last() == Seq::<RecordView>::empty());
    assert(run(state, first.drop_last(), prefix, options) == Some(state));
    assert(run(state, first, prefix, options) == Some(next));
    lemma_run_add(state, first, inside, prefix, options);
    if own.is_dir {
        lemma_insert_spine(state.tree, depth, leaf);
        lemma_inserted(state.tree, names, leaf, options);
        assert(spine(next.tree, depth + 1) == leaf);
        assert(spine_ok(next.tree, depth + 1)) by {
            assert forall|j: nat| j < depth + 1 implies (
            #[trigger] spine(next.tree, j)).children.len() > 0 by {}
        }
        assert(spine_matches(next.tree, place)) by {
            assert forall|i: int| 0 <= i < place.len() implies spine(
                next.tree,
                (i + 1) as nat,
            ).name == #[trigger] place[i] by {
                if i < names.len() {
                    assert(names[i] == place[i]);
                }
            }
        }
        lemma_names_bytes(finish(read_tree(node), options).children);
        assert(list_meta_bytes(leaf.children, options) == 0);
        assert(next.tree.name == state.tree.name);
        lemma_read_list(next, node.children, place, full, root, base, options);
        lemma_append_inside(state.tree, depth, leaf, read_list(node.children));
        assert(leaf.children + read_list(node.children) == read_list(node.children));
    } else {
        assert(inside == Seq::<RecordView>::empty());
    }
}

/// Reading the records of some trees adds them to the folder that they are in.
#[verifier::spinoff_prover]
proof fn lemma_read_list(
    state: BuildState,
    list: Seq<FsNode>,
    names: Seq<Seq<char>>,
    path: Seq<char>,
    root: RecordView,
    base: Seq<char>,
    options: FsIndexBuildOptions<'_>,
)
    requires
        keeps_everything(options),
        root.file_name == base.push(DEFAULT_PATH_SEPARATOR),
        forall|i: int|
            0 <= i < list.len() ==> can_store_name((#[trigger] list[i]).name) && is_stored(
                list[i],
            ),
        leads_to(path, names, base),
        names.len() <= state.depth,
        spine_ok(state.tree, names.len()),
        spine_matches(state.tree, names),
        6 + encode_utf8(state.tree.name).len() + open_bytes(state.tree, names.len(), options)
            + list_meta_bytes(spine(state.tree, names.len()).children, options) + list_meta_bytes(
            read_list(list),
            options,
        ) <= u32::MAX,
    ensures
        ({
            let records = list_records(list, path, DEFAULT_PATH_SEPARATOR, false);
            run(state, records, prefix_len(root), options) matches Some(after) && after.tree
                == append_below(state.tree, names.len(), read_list(list)) && after.depth
                >= names.len()
        }),
    decreases list, 2nat,
{
    if list.len() > 0 {
        let rest = list.drop_last();
        let last = list.last();
        let prefix = prefix_len(root);
        assert(list[list.len() - 1] == last);
        assert forall|i: int| 0 <= i < rest.len() implies can_store_name((#[trigger] rest[i]).name)
            && is_stored(rest[i]) by {
            assert(rest[i] == list[i]);
        }
        let read = read_list(list);
        assert(read.drop_last() == read_list(rest));
        assert(read.last() == read_tree(last));
        lemma_node_bytes(read_tree(last), options);
        lemma_read_list(state, rest, names, path, root, base, options);
        let before = list_records(rest, path, DEFAULT_PATH_SEPARATOR, false);
        let middle = run(state, before, prefix, options)->0;
        lemma_appended(state.tree, names, read_list(rest), options);
        lemma_read_node(middle, last, names, path, root, base, options);
        lemma_run_add(
            state,
            before,
            node_records(last, path, DEFAULT_PATH_SEPARATOR, false),
            prefix,
            options,
        );
    }
}

/// An index whose records are listed and read again is the same index: every folder has
/// the same entries in the same order, all with the same metadata. The first record is
/// that of the root. Only a root whose name ends with a path separator is left out: it
/// loses that separator.
pub proof fn law_listed_trees_are_restored(tree: FsNode, options: FsIndexBuildOptions<'_>)
    requires
        keeps_everything(options),
        tree.is_folder(),
        is_stored(tree),
        can_finish(tree, options),
        encode_utf8(tree.name).len() <= u16::MAX,
        !ends_with_separator(tree.name),
    ensures
        ({
            let records = tree_records(tree, None, DEFAULT_PATH_SEPARATOR, false);
            built_tree(records[0], records, options) == Some(tree)
        }),
{
    let records = tree_records(tree, None, DEFAULT_PATH_SEPARATOR, false);
    let root = records[0];
    let base = tree.name;
    let path = base.push(DEFAULT_PATH_SEPARATOR);
    let prefix = prefix_len(root);
    let inside = list_records(tree.children, path, DEFAULT_PATH_SEPARATOR, false);
    let first = seq![root];
    assert(root == tree.info->0.record(path));
    assert(records == first + inside);
    assert(path.drop_last() == base);
    let start = start_state(root, options)->0;
    let own = FsEntryMetadata::of_record(root);
    assert(own == FsEntryMetadata { children: None, ..tree.info->0 });
    assert(start_state(root, options) is Some);
    lemma_root_prefix(root, base);
    let end = seq![DEFAULT_PATH_SEPARATOR];
    assert(path == base + end);
    lemma_cut_concat(base, end);
    assert(segments(end) == Seq::<Seq<char>>::empty()) by {
        assert(end.drop_first() == Seq::<char>::empty());
        assert(segments_after(Seq::empty(), end.drop_first()) == Seq::<Seq<char>>::empty());
    }
    assert(record_place(root, prefix) is None);
    assert(first.drop_last() == Seq::<RecordView>::empty());
    assert(run(start, first.drop_last(), prefix, options) == Some(start));
    assert(run(start, first, prefix, options) == Some(start));
    lemma_run_add(start, first, inside, prefix, options);
    lemma_state_is_run(root, records, options);
    lemma_finish_read(tree, options);
    lemma_node_bytes(read_tree(tree), options);
    assert(path.take(base.len() as int) == base);
    assert(path.skip(base.len() as int) == end);
    assert(spine(start.tree, 0) == start.tree);
    assert(spine_ok(start.tree, 0)) by {
        assert forall|j: nat| j < 0 implies (#[trigger] spine(start.tree, j)).children.len()
            > 0 by {}
    }
    lemma_names_bytes(finish(read_tree(tree), options).children);
    assert(list_meta_bytes(start.tree.children, options) == 0);
    assert(open_bytes(start.tree, 0, options) == 0);
    lemma_read_list(start, tree.children, Seq::empty(), path, root, base, options);
    lemma_append_to_root(start.tree, read_list(tree.children));
    assert(start.tree.children + read_list(tree.children) == read_list(tree.children));
    let state = state_after(root, records, options)->0;
    assert(state.tree == read_tree(tree));
}

/// The pieces of a path are not empty and have no separators.
proof fn lemma_segments_plain(head: Seq<char>, path: Seq<char>)
    requires
        forall|i: int| 0 <= i < head.len() ==> !is_separator(#[trigger] head[i]),
    ensures
        forall|i: int|
            0 <= i < segments_after(head, path).len() ==> is_plain(
                #[trigger] segments_after(head, path)[i],
            ),
    decreases path.len(),
{
    if path.len() > 0 {
        let rest = path.drop_first();
        if is_separator(path[0]) {
            lemma_segments_plain(Seq::empty(), rest);
            let later = segments_after(Seq::empty(), rest);
            if head.len() > 0 {
                let all = seq![head] + later;
                assert forall|i: int| 0 <= i < all.len() implies is_plain(#[trigger] all[i]) by {
                    if i > 0 {
                        assert(all[i] == later[i - 1]);
                    }
                }
                assert(segments_after(head, path) == all);
            } else {
                assert(segments_after(head, path) == later);
            }
        } else {
            let longer = head.push(path[0]);
            assert forall|i: int| 0 <= i < longer.len() implies !is_separator(
                #[trigger] longer[i],
            ) by {
                if i < head.len() {
                    assert(longer[i] == head[i]);
                }
            }
            lemma_segments_plain(longer, rest);
            assert(segments_after(head, path) == segments_after(longer, rest));
        }
    }
}

/// Whether a tree was read from records.
spec fn is_read(node: FsNode) -> bool
    decreases node,
{
    &&& node.info matches Some(info) && info.modified.valid() && (!info.is_dir ==> info.files == 0
        && info.folders == 0 && info.children is None && node.children.len() == 0)
    &&& forall|i: int|
        0 <= i < node.children.len() ==> can_store_name((#[trigger] node.children[i]).name)
            && is_read(node.children[i])
}

proof fn lemma_insert_read(tree: FsNode, depth: nat, leaf: FsNode)
    requires
        spine_ok(tree, depth),
        is_read(tree),
        is_read(leaf),
        can_store_name(leaf.name),
    ensures
        is_read(insert_below(tree, depth, leaf)),
    decreases depth,
{
    let after = insert_below(tree, depth, leaf);
    assert(spine(tree, 0) == tree);
    assert(tree.is_folder());
    if depth > 0 {
        lemma_spine_tail(tree, depth);
        let last = tree.children.last();
        assert(tree.children[tree.children.len() - 1] == last);
        lemma_insert_read(last, (depth - 1) as nat, leaf);
    }
    assert forall|i: int| 0 <= i < after.children.len() implies can_store_name(
        (#[trigger] after.children[i]).name,
    ) && is_read(after.children[i]) by {
        if i < after.children.len() - 1 {
            assert(after.children[i] == tree.children[i]);
        }
    }
}

proof fn lemma_state_read(
    root: RecordView,
    records: Seq<RecordView>,
    options: FsIndexBuildOptions<'_>,
)
    ensures
        state_after(root, records, options) matches Some(state) ==> is_read(state.tree)
            && encode_utf8(state.tree.name).len() <= u16::MAX,
    decreases records.len(),
{
    if records.len() > 0 {
        let rest = records.drop_last();
        lemma_state_read(root, rest, options);
        lemma_state_complete(root, rest, options);
        if let Some(state) = state_after(root, rest, options) {
            let record = records.last();
            if let Some(place) = record_place(record, prefix_len(root)) {
                if next_state(state, record, prefix_len(root), options) is Some {
                    let relative = byte_suffix(record.file_name, prefix_len(root))->0;
                    lemma_segments_plain(Seq::empty(), relative);
                    assert(is_plain(place[place.len() - 1]));
                    let info = FsEntryMetadata::of_record(record);
                    let leaf = FsNode { name: place.last(), info: Some(info), children: seq![] };
                    let depth = (place.len() - 1) as nat;
                    assert(spine_ok(state.tree, depth)) by {
                        assert forall|j: nat| j < depth implies (
                        #[trigger] spine(state.tree, j)).children.len() > 0 by {}
                    }
                    lemma_insert_read(state.tree, depth, leaf);
                }
            }
        }
    }
}

/// Trees that were read are stored, and listing them takes no other room.
proof fn lemma_finish_stored(
    node: FsNode,
    options: FsIndexBuildOptions<'_>,
    own: FsIndexBuildOptions<'_>,
)
    requires
        is_read(node),
        meta_bytes(node, options) <= u32::MAX,
        keeps_everything(own),
    ensures
        finish(node, options).name == node.name,
        is_stored(finish(node, options)),
        meta_bytes(finish(node, options), own) == meta_bytes(node, options),
    decreases node, 1nat,
{
    let done = finish(node, options);
    let info = node.info->0;
    if info.is_dir {
        let children = node.children;
        let finished = finish_list(children, options);
        lemma_node_bytes(node, options);
        lemma_names_bytes(done.children);
        lemma_count_bytes(children, options);
        lemma_finish_list_stored(children, options, own);
        lemma_finish_list(children, options);
        let number = |n: FsNode| meta_bytes(n, own);
        lemma_total_arranged(finished, options, number);
        lemma_total_bytes(finished, own);
        lemma_total_bytes(done.children, own);
        assert forall|i: int| 0 <= i < done.children.len() implies can_store_name(
            (#[trigger] done.children[i]).name,
        ) && is_stored(done.children[i]) by {
            assert(finished.contains(done.children[i]));
            let k = finished.index_of(done.children[i]);
            assert(finished[k] == done.children[i]);
        }
        assert(is_stored_info(done.info->0, done.children.len()));
    }
    lemma_finish_read(done, own);
}

proof fn lemma_total_bytes(list: Seq<FsNode>, own: FsIndexBuildOptions<'_>)
    ensures
        list_meta_bytes(list, own) == total(list, |n: FsNode| meta_bytes(n, own)),
    decreases list.len(),
{
    if list.len() > 0 {
        lemma_total_bytes(list.drop_last(), own);
    }
}

proof fn lemma_finish_list_stored(
    list: Seq<FsNode>,
    options: FsIndexBuildOptions<'_>,
    own: FsIndexBuildOptions<'_>,
)
    requires
        forall|i: int|
            0 <= i < list.len() ==> can_store_name((#[trigger] list[i]).name) && is_read(list[i]),
        list_meta_bytes(list, options) <= u32::MAX,
        keeps_everything(own),
    ensures
        forall|i: int|
            0 <= i < list.len() ==> can_store_name(
                (#[trigger] finish_list(list, options)[i]).name,
            ) && is_stored(finish_list(list, options)[i]),
        list_meta_bytes(finish_list(list, options), own) == list_meta_bytes(list, options),
    decreases list, 2nat,
{
    if list.len() > 0 {
        let rest = list.drop_last();
        let last = list.last();
        assert(list[list.len() - 1] == last);
        assert forall|i: int| 0 <= i < rest.len() implies can_store_name((#[trigger] rest[i]).name)
            && is_read(rest[i]) by {
            assert(rest[i] == list[i]);
        }
        lemma_count_bytes(rest, options);
        lemma_node_bytes(last, options);
        lemma_finish_list_stored(rest, options, own);
        lemma_finish_stored(last, options, own);
        lemma_finish_list(rest, options);
        let done = finish_list(list, options);
        assert(done.drop_last() == finish_list(rest, options));
        assert forall|i: int| 0 <= i < list.len() implies can_store_name(
            (#[trigger] done[i]).name,
        ) && is_stored(done[i]) by {
            if i < rest.len() {
                assert(done[i] == finish_list(rest, options)[i]);
            }
        }
    }
}

/// Every index that was built from records, with any options, is restored from the
/// records that it lists, unless the name of its root ends with a path separator.
pub proof fn law_built_indexes_are_restored(
    root: RecordView,
    records: Seq<RecordView>,
    options: FsIndexBuildOptions<'_>,
    own: FsIndexBuildOptions<'_>,
)
    requires
        keeps_everything(own),
    ensures
        built_tree(root, records, options) matches Some(tree) ==> {
            let listed = tree_records(tree, None, DEFAULT_PATH_SEPARATOR, false);
            !ends_with_separator(tree.name) ==> built_tree(listed[0], listed, own) == Some(tree)
        },
{
    lemma_state_read(root, records, options);
    lemma_state_complete(root, records, options);
    if let Some(tree) = built_tree(root, records, options) {
        let state = state_after(root, records, options)->0;
        lemma_finish_stored(state.tree, options, own);
        assert(spine(state.tree, 0) == state.tree);
        assert(state.tree.is_folder());
        if !ends_with_separator(tree.name) {
            law_listed_trees_are_restored(tree, own);
        }
    }
}

} // verus!
