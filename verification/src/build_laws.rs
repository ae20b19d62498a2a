//! What holds of every index that is built from records: the totals of folders and
//! the order of their entries.
use vstd::prelude::*;
use vstd::seq_lib::lemma_multiset_commutative;
use vstd::utf8::encode_utf8;

use crate::fs_build::{
    arranged, built_tree, can_finish, count_files, count_folders, finish, finish_list, has_room,
    lemma_count_bytes, lemma_finish_list, lemma_names_bytes, lemma_node_bytes,
    lemma_sum_nonnegative, list_entries, list_meta_bytes, list_sums_ok, meta_bytes, names_bytes,
    open_bytes, open_sums_ok, reordered, spine, state_after, sum_allocated, sum_size, sums_ok,
    BuildState, FsIndexBuildOptions,
};
use crate::fs_export::{entry_path, list_records, node_records, root_full_path, tree_records};
use crate::fs_tree::FsNode;
use crate::mount::{complete, lemma_complete_list, lemma_state_complete};
use crate::sorting::{
    bytes_less, collation_key, law_listing_has_all_entries, lemma_before_irreflexive,
    lemma_listed_keys, listed_before, listing_order,
};
use crate::wiztree_csv::RecordView;

verus! {

/// The sum of a number for each of some trees.
pub open spec fn total(list: Seq<FsNode>, number: spec_fn(FsNode) -> int) -> int
    decreases list.len(),
{
    if list.len() == 0 {
        0
    } else {
        total(list.drop_last(), number) + number(list.last())
    }
}

/// A sum without one of the trees.
proof fn lemma_total_without(list: Seq<FsNode>, number: spec_fn(FsNode) -> int, at: int)
    requires
        0 <= at < list.len(),
    ensures
        total(list, number) == total(list.remove(at), number) + number(list[at]),
    decreases list.len(),
{
    let rest = list.drop_last();
    if at == list.len() - 1 {
        assert(list.remove(at) == rest);
    } else {
        lemma_total_without(rest, number, at);
        assert(list.remove(at).drop_last() == rest.remove(at));
        assert(list.remove(at).last() == list.last());
    }
}

/// Whether some numbers are those before their count in another order.
spec fn is_permutation(order: Seq<int>) -> bool {
    &&& order.no_duplicates()
    &&& forall|i: int| 0 <= i < order.len() ==> 0 <= #[trigger] order[i] < order.len()
}

/// A sum does not depend on the order of the trees.
proof fn lemma_total_reordered(
    list: Seq<FsNode>,
    order: Seq<int>,
    number: spec_fn(FsNode) -> int,
)
    requires
        order.len() == list.len(),
        is_permutation(order),
    ensures
        total(reordered(list, order), number) == total(list, number),
    decreases list.len(),
{
    if list.len() > 0 {
        let n = list.len() - 1;
        let at = order[n];
        let rest = list.remove(at);
        let before = order.drop_last();
        let shifted = Seq::new(
            n as nat,
            |i: int| if order[i] > at {
                order[i] - 1
            } else {
                order[i]
            },
        );
        assert forall|i: int| 0 <= i < n implies 0 <= #[trigger] shifted[i] < n by {
            assert(order[i] != order[n]);
            assert(0 <= order[i] < order.len());
        }
        assert forall|i: int, j: int| 0 <= i < n && 0 <= j < n && i != j implies shifted[i]
            != shifted[j] by {
            assert(order[i] != order[j]);
            assert(order[i] != order[n]);
            assert(order[j] != order[n]);
        }
        assert(shifted.no_duplicates());
        assert(is_permutation(shifted));
        lemma_total_reordered(rest, shifted, number);
        let all = reordered(list, order);
        assert forall|i: int| 0 <= i < n implies all.drop_last()[i] == reordered(
            rest,
            shifted,
        )[i] by {
            assert(order[i] != order[n]);
            assert(0 <= order[i] < order.len());
        }
        assert(all.drop_last() == reordered(rest, shifted));
        lemma_total_without(list, number, at);
    }
}

/// The order in which entries are listed is a permutation of them.
proof fn lemma_listing_is_permutation(entries: Seq<(Seq<char>, bool)>)
    ensures
        listing_order(entries).len() == entries.len(),
        is_permutation(listing_order(entries)),
        forall|i: int, j: int|
            #![trigger listing_order(entries)[i], listing_order(entries)[j]]
            0 <= i < j < entries.len() ==> listed_before(
                entries,
                listing_order(entries)[i],
                listing_order(entries)[j],
            ),
{
    let order = listing_order(entries);
    law_listing_has_all_entries(entries);
    assert forall|i: int| 0 <= i < order.len() implies 0 <= #[trigger] order[i] < order.len() by {
        assert(order.contains(order[i]));
    }
    assert forall|i: int, j: int|
        0 <= i < order.len() && 0 <= j < order.len() && i != j implies order[i] != order[j] by {
        if i < j {
            assert(listed_before(entries, order[i], order[j]));
        } else {
            assert(listed_before(entries, order[j], order[i]));
        }
        lemma_before_irreflexive(entries, order[i]);
    }
}

/// A sum does not depend on whether trees are arranged.
pub proof fn lemma_total_arranged(
    list: Seq<FsNode>,
    options: FsIndexBuildOptions<'_>,
    number: spec_fn(FsNode) -> int,
)
    ensures
        arranged(list, options).len() == list.len(),
        total(arranged(list, options), number) == total(list, number),
        forall|i: int|
            0 <= i < list.len() ==> list.contains(#[trigger] arranged(list, options)[i]),
{
    if options.resort {
        let entries = list_entries(list);
        let order = listing_order(entries);
        lemma_listing_is_permutation(entries);
        lemma_total_reordered(list, order, number);
        assert forall|i: int| 0 <= i < list.len() implies list.contains(
            #[trigger] arranged(list, options)[i],
        ) by {
            assert(0 <= order[i] < order.len());
            assert(list[order[i]] == arranged(list, options)[i]);
        }
    }
}

/// Two lists for whose trees a number is the same have the same sum.
proof fn lemma_total_same(a: Seq<FsNode>, b: Seq<FsNode>, number: spec_fn(FsNode) -> int)
    requires
        a.len() == b.len(),
        forall|i: int| 0 <= i < a.len() ==> number(#[trigger] a[i]) == number(b[i]),
    ensures
        total(a, number) == total(b, number),
    decreases a.len(),
{
    if a.len() > 0 {
        let n = a.len() - 1;
        assert(number(a[n]) == number(b[n]));
        assert forall|i: int| 0 <= i < n implies number(#[trigger] a.drop_last()[i]) == number(
            b.drop_last()[i],
        ) by {
            assert(number(a[i]) == number(b[i]));
        }
        lemma_total_same(a.drop_last(), b.drop_last(), number);
    }
}

spec fn size_of(node: FsNode) -> int {
    node.info->0.size as int
}

spec fn allocated_of(node: FsNode) -> int {
    node.info->0.allocated as int
}

spec fn files_of(node: FsNode) -> int {
    if node.is_folder() {
        count_files(node.children) as int
    } else {
        1
    }
}

spec fn folders_of(node: FsNode) -> int {
    if node.is_folder() {
        1 + count_folders(node.children) as int
    } else {
        0
    }
}

spec fn name_bytes_of(node: FsNode) -> int {
    6 + encode_utf8(node.name).len() as int
}

/// The totals of a list of trees are sums.
proof fn lemma_totals(list: Seq<FsNode>)
    ensures
        sum_size(list) == total(list, |n: FsNode| size_of(n)),
        sum_allocated(list) == total(list, |n: FsNode| allocated_of(n)),
        count_files(list) == total(list, |n: FsNode| files_of(n)),
        count_folders(list) == total(list, |n: FsNode| folders_of(n)),
        names_bytes(list) == total(list, |n: FsNode| name_bytes_of(n)),
    decreases list.len(),
{
    if list.len() > 0 {
        lemma_totals(list.drop_last());
    }
}

/// The totals of a list of trees do not depend on whether they are arranged.
proof fn lemma_arranged_totals(list: Seq<FsNode>, options: FsIndexBuildOptions<'_>)
    ensures
        sum_size(arranged(list, options)) == sum_size(list),
        sum_allocated(arranged(list, options)) == sum_allocated(list),
        count_files(arranged(list, options)) == count_files(list),
        count_folders(arranged(list, options)) == count_folders(list),
        names_bytes(arranged(list, options)) == names_bytes(list),
{
    let stored = arranged(list, options);
    lemma_totals(list);
    lemma_totals(stored);
    lemma_total_arranged(list, options, |n: FsNode| size_of(n));
    lemma_total_arranged(list, options, |n: FsNode| allocated_of(n));
    lemma_total_arranged(list, options, |n: FsNode| files_of(n));
    lemma_total_arranged(list, options, |n: FsNode| folders_of(n));
    lemma_total_arranged(list, options, |n: FsNode| name_bytes_of(n));
}

/// Storing trees keeps what is counted of them.
proof fn lemma_finish_counts(node: FsNode, options: FsIndexBuildOptions<'_>)
    requires
        complete(node),
    ensures
        files_of(finish(node, options)) == files_of(node),
        folders_of(finish(node, options)) == folders_of(node),
    decreases node, 1nat,
{
    if node.is_folder() {
        lemma_complete_list(node.children);
        lemma_finish_list_counts(node.children, options);
        lemma_arranged_totals(finish_list(node.children, options), options);
    }
}

proof fn lemma_finish_list_counts(list: Seq<FsNode>, options: FsIndexBuildOptions<'_>)
    requires
        forall|i: int| 0 <= i < list.len() ==> complete(#[trigger] list[i]),
    ensures
        count_files(finish_list(list, options)) == count_files(list),
        count_folders(finish_list(list, options)) == count_folders(list),
    decreases list, 2nat,
{
    if list.len() > 0 {
        let rest = list.drop_last();
        assert forall|i: int| 0 <= i < rest.len() implies complete(#[trigger] rest[i]) by {
            assert(rest[i] == list[i]);
        }
        assert(list[list.len() - 1] == list.last());
        lemma_finish_list_counts(rest, options);
        lemma_finish_counts(list.last(), options);
        let done = finish_list(list, options);
        assert(done.drop_last() == finish_list(rest, options));
    }
}

/// Whether the metadata of every folder of a tree tells the totals of its entries,
/// as far as the options ask for it: how many files and folders are inside it, and
/// the sums of the sizes of its entries.
pub open spec fn has_totals(node: FsNode, options: FsIndexBuildOptions<'_>) -> bool
    decreases node,
{
    &&& node.is_folder() ==> {
        let info = node.info->0;
        &&& info.children matches Some(count) && count == node.children.len()
        &&& options.recount_children ==> {
            &&& info.files == count_files(node.children)
            &&& info.folders == count_folders(node.children)
        }
        &&& options.recalculate_folder_size ==> {
            &&& info.size == sum_size(node.children)
            &&& info.allocated == sum_allocated(node.children)
        }
    }
    &&& forall|i: int|
        0 <= i < node.children.len() ==> has_totals(#[trigger] node.children[i], options)
}

/// Trees that are stored have totals.
proof fn lemma_finish_totals(node: FsNode, options: FsIndexBuildOptions<'_>)
    requires
        complete(node),
        meta_bytes(node, options) <= u32::MAX,
        options.recalculate_folder_size ==> sums_ok(node, options),
    ensures
        has_totals(finish(node, options), options),
    decreases node, 1nat,
{
    let done = finish(node, options);
    if node.is_folder() {
        let children = node.children;
        let finished = finish_list(children, options);
        lemma_complete_list(children);
        lemma_node_bytes(node, options);
        lemma_names_bytes(done.children);
        lemma_finish_list_totals(children, options);
        lemma_finish_list_counts(children, options);
        lemma_arranged_totals(finished, options);
        lemma_sum_nonnegative(finished);
        lemma_total_arranged(finished, options, |n: FsNode| 0);
        lemma_finish_list(children, options);
        lemma_count_bytes(children, options);
        assert(children.len() <= u32::MAX);
        assert forall|i: int| 0 <= i < done.children.len() implies has_totals(
            #[trigger] done.children[i],
            options,
        ) by {
            assert(finished.contains(done.children[i]));
            let k = finished.index_of(done.children[i]);
            assert(has_totals(finished[k], options));
        }
    }
}

proof fn lemma_finish_list_totals(list: Seq<FsNode>, options: FsIndexBuildOptions<'_>)
    requires
        forall|i: int| 0 <= i < list.len() ==> complete(#[trigger] list[i]),
        list_meta_bytes(list, options) <= u32::MAX,
        options.recalculate_folder_size ==> list_sums_ok(list, options),
    ensures
        forall|i: int|
            0 <= i < list.len() ==> has_totals(#[trigger] finish_list(list, options)[i], options),
    decreases list, 2nat,
{
    if list.len() > 0 {
        let rest = list.drop_last();
        assert forall|i: int| 0 <= i < rest.len() implies complete(#[trigger] rest[i]) by {
            assert(rest[i] == list[i]);
        }
        assert(list[list.len() - 1] == list.last());
        lemma_count_bytes(rest, options);
        lemma_node_bytes(list.last(), options);
        lemma_finish_list_totals(rest, options);
        lemma_finish_totals(list.last(), options);
        lemma_finish_list(list, options);
        lemma_finish_list(rest, options);
        assert forall|i: int| 0 <= i < list.len() implies has_totals(
            #[trigger] finish_list(list, options)[i],
            options,
        ) by {
            if i < rest.len() {
                assert(finish_list(list, options)[i] == finish_list(rest, options)[i]);
            }
        }
    }
}

/// In an index that is built from records every folder has the totals of its
/// entries: with recounted children its number of files and folders counts
/// everything inside it, with recalculated sizes its size and its allocated size are
/// the sums over the entries that are stored in it.
pub proof fn law_built_indexes_have_totals(
    root: RecordView,
    records: Seq<RecordView>,
    options: FsIndexBuildOptions<'_>,
)
    ensures
        built_tree(root, records, options) matches Some(tree) ==> has_totals(tree, options),
{
    lemma_state_complete(root, records, options);
    if let Some(state) = state_after(root, records, options) {
        if can_finish(state.tree, options) {
            lemma_finish_totals(state.tree, options);
        }
    }
}

/// Whether two options differ at most in whether entries are resorted.
pub open spec fn same_but_order(a: FsIndexBuildOptions<'_>, b: FsIndexBuildOptions<'_>) -> bool {
    &&& a.recount_children == b.recount_children
    &&& a.recalculate_folder_size == b.recalculate_folder_size
    &&& a.custom_root == b.custom_root
}

/// The order of entries changes nothing else that is stored of a tree.
proof fn lemma_order_keeps_metadata(
    node: FsNode,
    a: FsIndexBuildOptions<'_>,
    b: FsIndexBuildOptions<'_>,
)
    requires
        same_but_order(a, b),
    ensures
        finish(node, a).name == finish(node, b).name,
        finish(node, a).info == finish(node, b).info,
        meta_bytes(node, a) == meta_bytes(node, b),
        sums_ok(node, a) == sums_ok(node, b),
    decreases node, 1nat,
{
    let children = node.children;
    lemma_order_keeps_list_metadata(children, a, b);
    lemma_arranged_totals(finish_list(children, a), a);
    lemma_arranged_totals(finish_list(children, b), b);
}

proof fn lemma_order_keeps_list_metadata(
    list: Seq<FsNode>,
    a: FsIndexBuildOptions<'_>,
    b: FsIndexBuildOptions<'_>,
)
    requires
        same_but_order(a, b),
    ensures
        sum_size(finish_list(list, a)) == sum_size(finish_list(list, b)),
        sum_allocated(finish_list(list, a)) == sum_allocated(finish_list(list, b)),
        names_bytes(finish_list(list, a)) == names_bytes(finish_list(list, b)),
        list_meta_bytes(list, a) == list_meta_bytes(list, b),
        list_sums_ok(list, a) == list_sums_ok(list, b),
    decreases list, 2nat,
{
    if list.len() > 0 {
        let rest = list.drop_last();
        lemma_order_keeps_list_metadata(rest, a, b);
        lemma_order_keeps_metadata(list.last(), a, b);
        assert(finish_list(list, a).drop_last() == finish_list(rest, a));
        assert(finish_list(list, b).drop_last() == finish_list(rest, b));
    }
}

/// The order of entries does not change how much was written.
proof fn lemma_order_keeps_room(
    state: BuildState,
    depth: nat,
    a: FsIndexBuildOptions<'_>,
    b: FsIndexBuildOptions<'_>,
)
    requires
        same_but_order(a, b),
    ensures
        open_bytes(state.tree, depth, a) == open_bytes(state.tree, depth, b),
        open_sums_ok(state.tree, depth, a) == open_sums_ok(state.tree, depth, b),
    decreases depth,
{
    if depth > 0 {
        let prev = (depth - 1) as nat;
        lemma_order_keeps_room(state, prev, a, b);
        lemma_order_keeps_list_metadata(spine(state.tree, prev).children.drop_last(), a, b);
    }
}

/// The order of entries does not change which records can be read.
proof fn lemma_order_keeps_state(
    root: RecordView,
    records: Seq<RecordView>,
    a: FsIndexBuildOptions<'_>,
    b: FsIndexBuildOptions<'_>,
)
    requires
        same_but_order(a, b),
    ensures
        state_after(root, records, a) == state_after(root, records, b),
    decreases records.len(),
{
    if records.len() > 0 {
        lemma_order_keeps_state(root, records.drop_last(), a, b);
        assert forall|state: BuildState| #[trigger] has_room(state, a) == has_room(state, b) by {
            lemma_order_keeps_room(state, state.depth, a, b);
            lemma_order_keeps_list_metadata(spine(state.tree, state.depth).children, a, b);
        }
    }
}

/// How often a record is listed for a tree.
spec fn listed_count(
    node: FsNode,
    record: RecordView,
    folder: Seq<char>,
    separator: char,
    force_ext: bool,
) -> int {
    node_records(node, folder, separator, force_ext).to_multiset().count(record) as int
}

/// How often a record is listed for some trees is a sum.
proof fn lemma_list_count(
    list: Seq<FsNode>,
    record: RecordView,
    folder: Seq<char>,
    separator: char,
    force_ext: bool,
)
    ensures
        list_records(list, folder, separator, force_ext).to_multiset().count(record) == total(
            list,
            |n: FsNode| listed_count(n, record, folder, separator, force_ext),
        ),
    decreases list.len(),
{
    if list.len() == 0 {
        Seq::<RecordView>::empty().to_multiset_ensures();
    } else {
        lemma_list_count(list.drop_last(), record, folder, separator, force_ext);
        lemma_multiset_commutative(
            list_records(list.drop_last(), folder, separator, force_ext),
            node_records(list.last(), folder, separator, force_ext),
        );
    }
}

/// The order of entries does not change which records are listed for a tree.
proof fn lemma_order_keeps_node_records(
    node: FsNode,
    a: FsIndexBuildOptions<'_>,
    b: FsIndexBuildOptions<'_>,
    record: RecordView,
    folder: Seq<char>,
    separator: char,
    force_ext: bool,
)
    requires
        same_but_order(a, b),
    ensures
        listed_count(finish(node, a), record, folder, separator, force_ext) == listed_count(
            finish(node, b),
            record,
            folder,
            separator,
            force_ext,
        ),
    decreases node, 1nat,
{
    let x = finish(node, a);
    let y = finish(node, b);
    lemma_order_keeps_metadata(node, a, b);
    let path = entry_path(folder, x.name, x.is_folder(), separator, force_ext);
    lemma_order_keeps_children_records(node, a, b, record, path, separator, force_ext);
    let first = seq![x.info->0.record(path)];
    lemma_multiset_commutative(first, list_records(x.children, path, separator, force_ext));
    lemma_multiset_commutative(first, list_records(y.children, path, separator, force_ext));
}

/// The order of entries does not change which records are listed inside a tree.
proof fn lemma_order_keeps_children_records(
    node: FsNode,
    a: FsIndexBuildOptions<'_>,
    b: FsIndexBuildOptions<'_>,
    record: RecordView,
    path: Seq<char>,
    separator: char,
    force_ext: bool,
)
    requires
        same_but_order(a, b),
    ensures
        list_records(finish(node, a).children, path, separator, force_ext).to_multiset().count(
            record,
        ) == list_records(
            finish(node, b).children,
            path,
            separator,
            force_ext,
        ).to_multiset().count(record),
    decreases node, 0nat,
{
    let x = finish(node, a);
    let y = finish(node, b);
    if node.info->0.is_dir {
        let number = |n: FsNode| listed_count(n, record, path, separator, force_ext);
        let done_a = finish_list(node.children, a);
        let done_b = finish_list(node.children, b);
        lemma_list_count(x.children, record, path, separator, force_ext);
        lemma_list_count(y.children, record, path, separator, force_ext);
        lemma_total_arranged(done_a, a, number);
        lemma_total_arranged(done_b, b, number);
        lemma_finish_list(node.children, a);
        lemma_finish_list(node.children, b);
        assert forall|i: int| 0 <= i < done_a.len() implies number(#[trigger] done_a[i]) == number(
            done_b[i],
        ) by {
            lemma_order_keeps_node_records(
                node.children[i],
                a,
                b,
                record,
                path,
                separator,
                force_ext,
            );
        }
        lemma_total_same(done_a, done_b, number);
    }
}

/// Whether an entry can be listed before another one: folders come before files,
/// and in each of these groups names are in ascending order.
pub open spec fn can_precede(a: FsNode, b: FsNode) -> bool {
    if a.is_folder() != b.is_folder() {
        a.is_folder()
    } else {
        !bytes_less(collation_key(b.name), collation_key(a.name))
    }
}

/// Whether the entries of all folders of a tree are in the order in which they are
/// listed.
pub open spec fn is_sorted(node: FsNode) -> bool
    decreases node,
{
    &&& forall|i: int, j: int|
        #![trigger node.children[i], node.children[j]]
        0 <= i < j < node.children.len() ==> can_precede(node.children[i], node.children[j])
    &&& forall|i: int| 0 <= i < node.children.len() ==> is_sorted(#[trigger] node.children[i])
}

/// Trees that are stored resorted are sorted.
proof fn lemma_finish_sorted(node: FsNode, options: FsIndexBuildOptions<'_>)
    requires
        options.resort,
    ensures
        is_sorted(finish(node, options)),
    decreases node,
{
    let done = finish(node, options);
    if node.info->0.is_dir {
        let finished = finish_list(node.children, options);
        let entries = list_entries(finished);
        let order = listing_order(entries);
        lemma_finish_list(node.children, options);
        lemma_listing_is_permutation(entries);
        assert(done.children == reordered(finished, order));
        assert forall|i: int, j: int|
            #![trigger done.children[i], done.children[j]]
            0 <= i < j < done.children.len() implies can_precede(
            done.children[i],
            done.children[j],
        ) by {
            assert(0 <= order[i] < order.len() && 0 <= order[j] < order.len());
            assert(listed_before(entries, order[i], order[j]));
            if entries[order[i]].1 == entries[order[j]].1 {
                lemma_listed_keys(entries, order[i], order[j]);
            }
        }
        assert forall|i: int| 0 <= i < done.children.len() implies is_sorted(
            #[trigger] done.children[i],
        ) by {
            assert(0 <= order[i] < order.len());
            assert(finished[order[i]] == finish(node.children[order[i]], options));
            lemma_finish_sorted(node.children[order[i]], options);
        }
    }
}

/// Resorting keeps everything: records that can be read without it can be read with
/// it, the index lists the same records in another order, and inside every folder
/// the folders come before the files, each group in ascending order of the names.
pub proof fn law_resorting_keeps_records(
    root: RecordView,
    records: Seq<RecordView>,
    sorted: FsIndexBuildOptions<'_>,
    unsorted: FsIndexBuildOptions<'_>,
    root_path: Option<Seq<char>>,
    separator: char,
    force_ext: bool,
)
    requires
        same_but_order(sorted, unsorted),
        sorted.resort,
        !unsorted.resort,
    ensures
        built_tree(root, records, sorted) is Some <==> built_tree(root, records, unsorted) is Some,
        built_tree(root, records, sorted) matches Some(tree) ==> {
            &&& is_sorted(tree)
            &&& tree_records(tree, root_path, separator, force_ext).to_multiset() == tree_records(
                built_tree(root, records, unsorted)->0,
                root_path,
                separator,
                force_ext,
            ).to_multiset()
        },
{
    lemma_order_keeps_state(root, records, sorted, unsorted);
    if let Some(state) = state_after(root, records, sorted) {
        lemma_order_keeps_metadata(state.tree, sorted, unsorted);
        if can_finish(state.tree, sorted) {
            let x = finish(state.tree, sorted);
            let y = finish(state.tree, unsorted);
            lemma_finish_sorted(state.tree, sorted);
            let path = root_full_path(x, root_path, separator);
            let inside_x = list_records(x.children, path, separator, force_ext);
            let inside_y = list_records(y.children, path, separator, force_ext);
            assert forall|record: RecordView| #[trigger]
                inside_x.to_multiset().count(record) == inside_y.to_multiset().count(record) by {
                lemma_order_keeps_children_records(
                    state.tree,
                    sorted,
                    unsorted,
                    record,
                    path,
                    separator,
                    force_ext,
                );
            }
            assert(inside_x.to_multiset() =~= inside_y.to_multiset());
            let first = seq![x.info->0.record(path)];
            lemma_multiset_commutative(first, inside_x);
            lemma_multiset_commutative(first, inside_y);
        }
    }
}

} // verus!
