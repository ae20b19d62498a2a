//! What the options change about an index that is built from records.
use vstd::prelude::*;
use vstd::utf8::encode_utf8;

use crate::fs_build::{
    built_tree, count_files, count_folders, finish, finish_list, insert_below,
    lemma_finish_list, list_entries, prefix_len, record_place, reordered, start_state,
    state_after, sum_allocated, sum_size, FsIndexBuildOptions,
};
use crate::fs_export::{entry_path, list_records, node_records};
use crate::fs_places::{entry_at, is_tidy};
use crate::fs_tree::FsNode;
use crate::metadata::FsEntryMetadata;
use crate::mount::{complete, lemma_complete_list};
use crate::sorting::{law_listing_has_all_entries, listing_order};
use crate::text::{
    byte_suffix, ends_with_separator, is_separator, lemma_cut_concat, lemma_encode_concat,
    lemma_trailing_separator, segments,
};
use crate::wiztree_csv::RecordView;

verus! {

/// The number of files and folders in two lists are those of both, and so are the sums of
/// their sizes. A file counts as one file, and a folder as one folder and everything in it.
pub proof fn law_counts_are_sums(a: Seq<FsNode>, b: Seq<FsNode>, node: FsNode)
    ensures
        count_files(a + b) == count_files(a) + count_files(b),
        count_folders(a + b) == count_folders(a) + count_folders(b),
        sum_size(a + b) == sum_size(a) + sum_size(b),
        sum_allocated(a + b) == sum_allocated(a) + sum_allocated(b),
        node.is_folder() ==> count_files(seq![node]) == count_files(node.children)
            && count_folders(seq![node]) == count_folders(node.children) + 1,
        !node.is_folder() ==> count_files(seq![node]) == 1 && count_folders(seq![node]) == 0,
        node.info matches Some(info) ==> sum_size(seq![node]) == info.size && sum_allocated(
            seq![node],
        ) == info.allocated,
    decreases b.len(),
{
    reveal_with_fuel(count_files, 2);
    reveal_with_fuel(count_folders, 2);
    reveal_with_fuel(sum_size, 2);
    reveal_with_fuel(sum_allocated, 2);
    let none = Seq::<FsNode>::empty();
    assert(seq![node].drop_last() == none);
    assert(count_files(none) == 0 && count_folders(none) == 0);
    if b.len() == 0 {
        assert(a + b == a);
    } else {
        law_counts_are_sums(a, b.drop_last(), node);
        assert((a + b).drop_last() == a + b.drop_last());
    }
}

/// The files and folders that are counted in a folder are as many as the records that are
/// listed for what is in it.
pub proof fn law_counts_are_numbers_of_records(
    node: FsNode,
    path: Seq<char>,
    separator: char,
    force_ext: bool,
)
    requires
        is_tidy(node),
        complete(node),
    ensures
        count_files(node.children) + count_folders(node.children) == list_records(
            node.children,
            path,
            separator,
            force_ext,
        ).len(),
    decreases node, 1nat, 0nat,
{
    lemma_listed_counts(node, node.children.len(), path, separator, force_ext);
    assert(node.children.take(node.children.len() as int) == node.children);
}

proof fn lemma_listed_counts(
    node: FsNode,
    count: nat,
    path: Seq<char>,
    separator: char,
    force_ext: bool,
)
    requires
        is_tidy(node),
        complete(node),
        count <= node.children.len(),
    ensures
        count_files(node.children.take(count as int)) + count_folders(
            node.children.take(count as int),
        ) == list_records(node.children.take(count as int), path, separator, force_ext).len(),
    decreases node, 0nat, count,
{
    let list = node.children.take(count as int);
    if count > 0 {
        let last = node.children[count - 1];
        assert(list.drop_last() == node.children.take(count - 1));
        assert(list.last() == last);
        lemma_listed_counts(node, (count - 1) as nat, path, separator, force_ext);
        lemma_complete_list(node.children);
        assert(complete(last));
        assert(is_tidy(last));
        let inner = entry_path(path, last.name, last.is_folder(), separator, force_ext);
        law_counts_are_numbers_of_records(last, inner, separator, force_ext);
        assert(node_records(last, path, separator, force_ext).len() == 1 + list_records(
            last.children,
            inner,
            separator,
            force_ext,
        ).len());
        if !last.is_folder() {
            assert(last.children.len() == 0);
        }
    } else {
        assert(list.len() == 0);
    }
}

/// What was read does not depend on the options, but for the name of the root.
proof fn lemma_same_state(
    root: RecordView,
    records: Seq<RecordView>,
    a: FsIndexBuildOptions<'_>,
    b: FsIndexBuildOptions<'_>,
)
    requires
        state_after(root, records, a) is Some,
        state_after(root, records, b) is Some,
    ensures
        ({
            let x = state_after(root, records, a)->0;
            let y = state_after(root, records, b)->0;
            &&& x.depth == y.depth
            &&& x.tree == (FsNode { name: x.tree.name, ..y.tree })
            &&& x.tree.name == crate::fs_build::root_name(root, a)
            &&& y.tree.name == crate::fs_build::root_name(root, b)
        }),
    decreases records.len(),
{
    if records.len() > 0 {
        lemma_same_state(root, records.drop_last(), a, b);
        let x = state_after(root, records.drop_last(), a)->0;
        let y = state_after(root, records.drop_last(), b)->0;
        let prefix = prefix_len(root);
        if let Some(place) = record_place(records.last(), prefix) {
            let depth = (place.len() - 1) as nat;
            let info = FsEntryMetadata::of_record(records.last());
            let leaf = FsNode { name: place.last(), info: Some(info), children: seq![] };
            assert(insert_below(x.tree, depth, leaf) == (FsNode {
                name: x.tree.name,
                ..insert_below(y.tree, depth, leaf)
            }));
        }
    }
}

/// Another name for the root is stored as its name, and nothing else about the index is
/// different. Without one the name is the path of the root record without the separator
/// at its end.
pub proof fn law_custom_roots_only_rename(
    root: RecordView,
    records: Seq<RecordView>,
    custom: FsIndexBuildOptions<'_>,
    plain: FsIndexBuildOptions<'_>,
)
    requires
        plain.custom_root is None,
        plain.recount_children == custom.recount_children,
        plain.recalculate_folder_size == custom.recalculate_folder_size,
        plain.resort == custom.resort,
        built_tree(root, records, custom) is Some,
        built_tree(root, records, plain) is Some,
    ensures
        ({
            let tree = built_tree(root, records, custom)->0;
            let other = built_tree(root, records, plain)->0;
            &&& tree == (FsNode { name: tree.name, ..other })
            &&& custom.custom_root matches Some(name) ==> tree.name == name@
            &&& exists|separator: char| #[trigger]
                is_separator(separator) && other.name.push(separator) == root.file_name
        }),
{
    lemma_same_state(root, records, custom, plain);
    let x = state_after(root, records, custom)->0;
    let y = state_after(root, records, plain)->0;
    lemma_same_options(x.tree, custom, plain);
    lemma_finish_name(y.tree, x.tree.name, plain);
    lemma_root_separator(root, records, plain);
    let last = root.file_name.last();
    assert(root.file_name.drop_last().push(last) == root.file_name);
    assert(is_separator(last));
}

proof fn lemma_root_separator(
    root: RecordView,
    records: Seq<RecordView>,
    options: FsIndexBuildOptions<'_>,
)
    requires
        state_after(root, records, options) is Some,
    ensures
        start_state(root, options) is Some,
    decreases records.len(),
{
    if records.len() > 0 {
        lemma_root_separator(root, records.drop_last(), options);
    }
}

/// The name of a tree does not matter for what is stored in it.
proof fn lemma_finish_name(node: FsNode, name: Seq<char>, options: FsIndexBuildOptions<'_>)
    ensures
        finish(FsNode { name, ..node }, options) == (FsNode { name, ..finish(node, options) }),
{
}

/// The name of the root does not matter for what is stored.
proof fn lemma_same_options(
    node: FsNode,
    a: FsIndexBuildOptions<'_>,
    b: FsIndexBuildOptions<'_>,
)
    requires
        a.recount_children == b.recount_children,
        a.recalculate_folder_size == b.recalculate_folder_size,
        a.resort == b.resort,
    ensures
        finish(node, a) == finish(node, b),
    decreases node,
{
    if node.info->0.is_dir {
        lemma_finish_list(node.children, a);
        lemma_finish_list(node.children, b);
        let x = finish_list(node.children, a);
        let y = finish_list(node.children, b);
        assert forall|i: int| 0 <= i < x.len() implies x[i] == y[i] by {
            assert(x[i] == finish(node.children[i], a));
            assert(y[i] == finish(node.children[i], b));
            lemma_same_options(node.children[i], a, b);
        }
        assert(x == y);
    }
}

/// The same entry of what is stored with different options.
proof fn lemma_stored_entry(
    node: FsNode,
    a: FsIndexBuildOptions<'_>,
    b: FsIndexBuildOptions<'_>,
    places: Seq<int>,
)
    requires
        complete(node),
        a.resort == b.resort,
        !b.recount_children,
        !b.recalculate_folder_size,
        entry_at(finish(node, b), places) is Some,
    ensures
        entry_at(finish(node, a), places) is Some,
        is_same_but_numbers(
            entry_at(finish(node, a), places)->0,
            entry_at(finish(node, b), places)->0,
            a,
        ),
    decreases places.len(),
{
    let x = finish(node, a);
    let y = finish(node, b);
    if places.len() > 0 {
        let i = places[0];
        let rest = places.drop_first();
        let finished_x = finish_list(node.children, a);
        let finished_y = finish_list(node.children, b);
        lemma_finish_list(node.children, a);
        lemma_finish_list(node.children, b);
        let entries = list_entries(finished_x);
        assert forall|k: int| 0 <= k < entries.len() implies #[trigger] entries[k] == list_entries(
            finished_y,
        )[k] by {
            assert(finished_x[k] == finish(node.children[k], a));
            assert(finished_y[k] == finish(node.children[k], b));
            lemma_complete_list(node.children);
            assert(complete(node.children[k]));
        }
        assert(entries == list_entries(finished_y));
        assert(0 <= i < y.children.len());
        law_listing_has_all_entries(entries);
        let order = listing_order(entries);
        let k = if a.resort {
            order[i]
        } else {
            i
        };
        if a.resort {
            assert(x.children == reordered(finished_x, order));
            assert(y.children == reordered(finished_y, order));
            assert(order.contains(order[i]));
        }
        assert(0 <= k < node.children.len());
        assert(x.children[i] == finish(node.children[k], a));
        assert(y.children[i] == finish(node.children[k], b));
        lemma_complete_list(node.children);
        assert(complete(node.children[k]));
        lemma_stored_entry(node.children[k], a, b, rest);
    } else {
        lemma_finish_list(node.children, a);
        lemma_finish_list(node.children, b);
        law_listing_has_all_entries(list_entries(finish_list(node.children, a)));
        law_listing_has_all_entries(list_entries(finish_list(node.children, b)));
    }
}

/// Whether an entry is the same as another one, but for the numbers of a folder that the
/// options ask to count or to sum up.
pub open spec fn is_same_but_numbers(
    entry: FsNode,
    other: FsNode,
    options: FsIndexBuildOptions<'_>,
) -> bool {
    &&& entry.name == other.name
    &&& entry.children.len() == other.children.len()
    &&& entry.info is Some
    &&& other.info is Some
    &&& ({
        let info = entry.info->0;
        let plain = other.info->0;
        &&& !plain.is_dir ==> info == plain
        &&& !options.recount_children ==> info.files == plain.files && info.folders == plain.folders
        &&& !options.recalculate_folder_size ==> info.size == plain.size && info.allocated
            == plain.allocated
        &&& info == (FsEntryMetadata {
            files: info.files,
            folders: info.folders,
            size: info.size,
            allocated: info.allocated,
            ..plain
        })
    })
}

/// Counting and summing up changes nothing but the numbers of folders that are asked for:
/// every entry has the same name, time, attributes and entries as without that, and files
/// have the same metadata.
pub proof fn law_options_only_change_numbers_of_folders(
    root: RecordView,
    records: Seq<RecordView>,
    options: FsIndexBuildOptions<'_>,
    plain: FsIndexBuildOptions<'_>,
    places: Seq<int>,
)
    requires
        plain.custom_root == options.custom_root,
        plain.resort == options.resort,
        !plain.recount_children,
        !plain.recalculate_folder_size,
        built_tree(root, records, options) is Some,
        built_tree(root, records, plain) is Some,
        entry_at(built_tree(root, records, plain)->0, places) is Some,
    ensures
        entry_at(built_tree(root, records, options)->0, places) is Some,
        is_same_but_numbers(
            entry_at(built_tree(root, records, options)->0, places)->0,
            entry_at(built_tree(root, records, plain)->0, places)->0,
            options,
        ),
{
    lemma_same_state(root, records, options, plain);
    crate::mount::lemma_state_complete(root, records, plain);
    let tree = state_after(root, records, plain)->0.tree;
    assert(state_after(root, records, options)->0.tree == tree);
    lemma_stored_entry(tree, options, plain, places);
}

/// Records of the root itself and of entries outside of it are left out.
pub proof fn law_records_outside_are_left_out(
    root: RecordView,
    records: Seq<RecordView>,
    record: RecordView,
    options: FsIndexBuildOptions<'_>,
)
    requires
        record_place(record, prefix_len(root)) is None,
    ensures
        built_tree(root, records.push(record), options) == built_tree(root, records, options),
        record_place(root, prefix_len(root)) is None || !ends_with_separator(root.file_name),
{
    assert(records.push(record).drop_last() == records);
    if ends_with_separator(root.file_name) {
        let name = root.file_name;
        let last = name.last();
        lemma_cut_concat(name.drop_last(), seq![last]);
        lemma_encode_concat(name.drop_last(), seq![last]);
        assert(name.drop_last() + seq![last] == name);
        assert(encode_utf8(seq![last]).len() == 1) by {
            vstd::utf8::is_ascii_chars_encode_utf8(seq![last]);
        }
        assert(byte_suffix(name, prefix_len(root)) == Some(seq![last]));
        assert(Seq::<char>::empty().push(last) == seq![last]);
        lemma_trailing_separator(Seq::empty(), Seq::empty(), last);
        assert(segments(seq![last]).len() == 0);
    }
}

} // verus!
