//! What holds of the differences between snapshots.
use vstd::prelude::*;

use crate::diff::{
    all_known, filtered, filtered_list, kept_sums, known, law_known_entries_are_left_out,
    lemma_filtered_list, limited, searched_tree, DiffFilter, KeptSums,
};
use crate::build_laws::total;
use crate::fs_cursor::name_matches;
use crate::fs_export::{entry_path, list_records, node_records, root_full_path, tree_records};
use crate::fs_index::FsIndex;
use crate::fs_lookup::{find_in_list, find_node};
use crate::fs_places::{entry_at, info_at, info_of_names, is_tidy, names_at};
use crate::fs_tree::FsNode;
use crate::metadata::FsEntryMetadata;
use crate::text::{
    ends_with_separator, is_plain, lemma_one_more_segment, segments, DEFAULT_PATH_SEPARATOR,
};
use crate::wiztree_csv::RecordView;

verus! {

/// Whether all entries of a tree can be found by their paths: they have metadata, and
/// names that differ inside each folder.
pub open spec fn is_findable(node: FsNode) -> bool
    decreases node,
{
    &&& node.info is Some
    &&& !node.is_folder() ==> node.children.len() == 0
    &&& forall|i: int|
        0 <= i < node.children.len() ==> is_plain((#[trigger] node.children[i]).name)
            && is_findable(node.children[i])
    &&& forall|i: int, j: int|
        #![trigger node.children[i], node.children[j]]
        0 <= i < j < node.children.len() ==> !name_matches(
            node.children[i].name,
            node.children[j].name,
            false,
        )
}

/// Following one more name.
proof fn lemma_find_one_more(
    tree: FsNode,
    names: Seq<Seq<char>>,
    name: Seq<char>,
    node: FsNode,
    at: int,
)
    requires
        find_node(tree, names, false) == Some(node),
        node.is_folder(),
        find_in_list(node.children, name, false, 0) == Some(at as nat),
        0 <= at < node.children.len(),
    ensures
        find_node(tree, names.push(name), false) == Some(node.children[at]),
    decreases names.len(),
{
    let all = names.push(name);
    if names.len() == 0 {
        assert(all[0] == name);
        assert(all.drop_first() == Seq::<Seq<char>>::empty());
        assert(find_node(node.children[at], all.drop_first(), false) == Some(node.children[at]));
    } else {
        assert(all[0] == names[0]);
        assert(all.drop_first() == names.drop_first().push(name));
        let i = find_in_list(tree.children, names[0], false, 0)->0;
        lemma_find_one_more(tree.children[i as int], names.drop_first(), name, node, at);
    }
}

/// An entry is found by its name if no other one before it has that name.
proof fn lemma_found_by_name(list: Seq<FsNode>, at: int, i: nat)
    requires
        i <= at < list.len(),
        forall|a: int, b: int|
            #![trigger list[a], list[b]]
            0 <= a < b < list.len() ==> !name_matches(list[a].name, list[b].name, false),
    ensures
        find_in_list(list, list[at].name, false, i) == Some(at as nat),
    decreases at - i,
{
    if i < at {
        assert(!name_matches(list[i as int].name, list[at].name, false));
        lemma_found_by_name(list, at, i + 1);
    }
}

/// Everything in a tree is in a snapshot with the same tree.
proof fn lemma_known(tree: FsNode, node: FsNode, names: Seq<Seq<char>>, path: Seq<char>)
    requires
        find_node(tree, names, false) == Some(node),
        is_findable(node),
        path.len() > 0,
        segments(path.skip(1)) == names,
        node.is_folder() ==> path.len() == 1 || ends_with_separator(path),
    ensures
        known(node, path, Some(tree)),
    decreases node, 1nat, 0nat,
{
    if node.is_folder() {
        lemma_entries_known(tree, node, names, path, node.children.len());
        assert(node.children.take(node.children.len() as int) == node.children);
    }
}

proof fn lemma_entries_known(
    tree: FsNode,
    node: FsNode,
    names: Seq<Seq<char>>,
    path: Seq<char>,
    count: nat,
)
    requires
        find_node(tree, names, false) == Some(node),
        is_findable(node),
        node.is_folder(),
        path.len() > 0,
        segments(path.skip(1)) == names,
        path.len() == 1 || ends_with_separator(path),
        count <= node.children.len(),
    ensures
        all_known(node.children.take(count as int), path, Some(tree)),
    decreases node, 0nat, count,
{
    let list = node.children.take(count as int);
    if count > 0 {
        let at = count - 1;
        let entry = node.children[at];
        assert(list.last() == entry);
        assert(list.drop_last() == node.children.take(at));
        lemma_entries_known(tree, node, names, path, at as nat);
        let inner = entry_path(path, entry.name, entry.is_folder(), DEFAULT_PATH_SEPARATOR, false);
        let start = path.skip(1);
        assert(start.len() > 0 ==> start.last() == path.last());
        lemma_one_more_segment(Seq::empty(), start, entry.name);
        assert((path + entry.name).skip(1) == start + entry.name);
        assert((path + entry.name).push(DEFAULT_PATH_SEPARATOR).skip(1) == (start
            + entry.name).push(DEFAULT_PATH_SEPARATOR));
        lemma_found_by_name(node.children, at, 0);
        lemma_find_one_more(tree, names, entry.name, node, at);
        lemma_known(tree, entry, names.push(entry.name), inner);
    }
}

/// Nothing is listed of entries that are left out.
proof fn lemma_nothing_listed(
    list: Seq<FsNode>,
    path: Seq<char>,
    old: Option<FsNode>,
    filter: DiffFilter,
    folder: Seq<char>,
    separator: char,
    force_ext: bool,
)
    requires
        all_known(list, path, old),
        forall|i: int| 0 <= i < list.len() ==> is_findable(#[trigger] list[i]),
    ensures
        list_records(filtered_list(list, path, old, filter), folder, separator, force_ext)
            == Seq::<RecordView>::empty(),
        kept_sums(filtered_list(list, path, old, filter)) == nothing_kept(),
    decreases list.len(),
{
    if list.len() > 0 {
        let rest = list.drop_last();
        let last = list.last();
        assert(list[list.len() - 1] == last);
        assert forall|i: int| 0 <= i < rest.len() implies is_findable(#[trigger] rest[i]) by {
            assert(rest[i] == list[i]);
        }
        let inner = entry_path(path, last.name, last.is_folder(), DEFAULT_PATH_SEPARATOR, false);
        lemma_nothing_listed(rest, path, old, filter, folder, separator, force_ext);
        law_known_entries_are_left_out(last, inner, old, filter);
        let kept = filtered(last, inner, false, old, filter);
        let all = filtered_list(list, path, old, filter);
        assert(all.drop_last() == filtered_list(rest, path, old, filter));
        assert(all.last() == kept);
        assert(kept.children.len() == 0);
        assert(node_records(kept, folder, separator, force_ext) == Seq::<RecordView>::empty());
    }
}

/// The sums over no entries.
pub open spec fn nothing_kept() -> KeptSums {
    KeptSums { entries: 0, size: 0, allocated: 0, files: 0, folders: 0 }
}

/// A snapshot that is compared with one that has the same tree lists nothing but its
/// root, whose numbers are all zero.
pub proof fn law_equal_snapshots_do_not_differ(
    tree: FsNode,
    filter: DiffFilter,
    root_path: Option<Seq<char>>,
    separator: char,
    force_ext: bool,
)
    requires
        tree.is_folder(),
        is_findable(tree),
    ensures
        tree_records(
            filtered(tree, "/"@, true, Some(tree), filter),
            root_path,
            separator,
            force_ext,
        ) == seq![
            limited(tree.info->0, nothing_kept()).record(
                root_full_path(tree, root_path, separator),
            ),
        ],
{
    reveal_strlit("/");
    let path = "/"@;
    let old = Some(tree);
    assert(path.skip(1) == Seq::<char>::empty());
    assert(segments(path.skip(1)) == Seq::<Seq<char>>::empty());
    assert(find_node(tree, Seq::empty(), false) == Some(tree));
    lemma_known(tree, tree, Seq::empty(), path);
    let full = root_full_path(tree, root_path, separator);
    lemma_nothing_listed(tree.children, path, old, filter, full, separator, force_ext);
    let kept = filtered(tree, path, true, old, filter);
    assert(kept.info == Some(limited(tree.info->0, nothing_kept())));
    assert(kept.name == tree.name);
    assert(root_full_path(kept, root_path, separator) == full);
    let first = seq![limited(tree.info->0, nothing_kept()).record(full)];
    assert(first + Seq::<RecordView>::empty() == first);
}

/// The entry of a filtered tree at some place is the filtered entry at that place. The path
/// that it is filtered with has the names of the entries on the way to it.
proof fn lemma_filtered_at(
    node: FsNode,
    path: Seq<char>,
    is_root: bool,
    old: Option<FsNode>,
    filter: DiffFilter,
    places: Seq<int>,
) -> (full: Seq<char>)
    requires
        is_tidy(node),
        entry_at(node, places) is Some,
        path.len() > 0,
        node.is_folder() ==> path.len() == 1 || ends_with_separator(path),
    ensures
        full.len() > 0,
        segments(full.skip(1)) == segments(path.skip(1)) + names_at(node, places),
        is_tidy(entry_at(node, places)->0),
        entry_at(node, places)->0.is_folder() ==> full.len() == 1 || ends_with_separator(full),
        info_at(filtered(node, path, is_root, old, filter), places) == filtered(
            entry_at(node, places)->0,
            full,
            is_root && places.len() == 0,
            old,
            filter,
        ).info,
        entry_at(filtered(node, path, is_root, old, filter), places) is Some ==> entry_at(
            filtered(node, path, is_root, old, filter),
            places,
        ) == Some(
            filtered(
                entry_at(node, places)->0,
                full,
                is_root && places.len() == 0,
                old,
                filter,
            ),
        ),
    decreases places.len(),
{
    if places.len() == 0 {
        assert(segments(path.skip(1)) + names_at(node, places) == segments(path.skip(1)));
        path
    } else {
        let at = places[0];
        let entry = node.children[at];
        let rest = places.drop_first();
        let inner = entry_path(path, entry.name, entry.is_folder(), DEFAULT_PATH_SEPARATOR, false);
        let start = path.skip(1);
        assert(start.len() > 0 ==> start.last() == path.last());
        lemma_one_more_segment(Seq::empty(), start, entry.name);
        assert((path + entry.name).skip(1) == start + entry.name);
        assert((path + entry.name).push(DEFAULT_PATH_SEPARATOR).skip(1) == (start
            + entry.name).push(DEFAULT_PATH_SEPARATOR));
        assert(segments(inner.skip(1)) == segments(start).push(entry.name));
        let full = lemma_filtered_at(entry, inner, false, old, filter, rest);
        assert(segments(start).push(entry.name) + names_at(entry, rest) == segments(start) + (
        seq![entry.name] + names_at(entry, rest)));
        let kept = filtered_list(node.children, path, old, filter);
        lemma_filtered_list(node.children, path, old, filter);
        let after = filtered(node, path, is_root, old, filter);
        let inside = filtered(entry, inner, false, old, filter);
        assert(kept[at] == inside);
        if after.info is None {
            lemma_nothing_kept(kept);
            assert(kept[at].info is None);
            lemma_left_out(entry, inner, old, filter);
            assert(info_at(inside, rest) is None) by {
                if rest.len() == 0 {
                    assert(entry_at(inside, rest) == Some(inside));
                }
            }
        } else {
            assert(after.children == kept);
        }
        full
    }
}

/// Nothing inside an entry that is left out is kept.
proof fn lemma_left_out(node: FsNode, path: Seq<char>, old: Option<FsNode>, filter: DiffFilter)
    requires
        is_tidy(node),
        filtered(node, path, false, old, filter).info is None,
    ensures
        filtered(node, path, false, old, filter).children.len() == 0,
{
}

/// Nothing is kept of any entry if no entry is kept.
proof fn lemma_nothing_kept(list: Seq<FsNode>)
    ensures
        kept_sums(list).entries == 0 <==> forall|i: int|
            0 <= i < list.len() ==> (#[trigger] list[i]).info is None,
    decreases list.len(),
{
    if list.len() > 0 {
        let rest = list.drop_last();
        lemma_nothing_kept(rest);
        assert(list[list.len() - 1] == list.last());
        if kept_sums(list).entries == 0 {
            assert forall|i: int| 0 <= i < list.len() implies (#[trigger] list[i]).info is None by {
                if i < rest.len() {
                    assert(rest[i] == list[i]);
                }
            }
        }
        if forall|i: int| 0 <= i < list.len() ==> (#[trigger] list[i]).info is None {
            assert forall|i: int| 0 <= i < rest.len() implies (#[trigger] rest[i]).info is None by {
                assert(rest[i] == list[i]);
            }
        }
    }
}

/// What an older snapshot knows about the entry with the same names.
pub open spec fn info_before(
    old: Option<FsNode>,
    tree: FsNode,
    places: Seq<int>,
) -> Option<FsEntryMetadata> {
    match old {
        Some(old) => info_of_names(old, names_at(tree, places)),
        None => None,
    }
}

/// If everything that is new or changed is kept then a file is left out exactly if the
/// older snapshot has a file with the same path and exactly the same metadata. Any other
/// file is kept with its metadata unchanged, whatever in it differs.
pub proof fn law_changed_files_are_kept(tree: FsNode, old: Option<FsNode>, places: Seq<int>)
    requires
        is_tidy(tree),
        places.len() > 0,
        entry_at(tree, places) matches Some(file) && !file.is_folder(),
    ensures
        ({
            let info = info_at(tree, places);
            let after = filtered(tree, "/"@, true, old, DiffFilter::NewOrChanged);
            &&& info is Some && info_before(old, tree, places) == info ==> info_at(after, places)
                is None
            &&& info_before(old, tree, places) != info ==> info_at(after, places) == info
        }),
{
    reveal_strlit("/");
    assert("/"@.skip(1) == Seq::<char>::empty());
    assert(segments("/"@.skip(1)) == Seq::<Seq<char>>::empty());
    let full = lemma_filtered_at(tree, "/"@, true, old, DiffFilter::NewOrChanged, places);
    assert(segments(full.skip(1)) == names_at(tree, places));
}

/// If everything that is new or larger is kept then a file is left out exactly if the older
/// snapshot has an entry with the same path that is at least as large. A file that is
/// larger is kept with the difference of the sizes, and with what the allocated size grew
/// by. A file that the older snapshot does not have is kept unchanged.
pub proof fn law_larger_files_are_kept(tree: FsNode, old: Option<FsNode>, places: Seq<int>)
    requires
        is_tidy(tree),
        places.len() > 0,
        entry_at(tree, places) matches Some(file) && !file.is_folder() && file.info is Some,
    ensures
        ({
            let info = info_at(tree, places)->0;
            let after = filtered(tree, "/"@, true, old, DiffFilter::NewOrLarger);
            match info_before(old, tree, places) {
                None => info_at(after, places) == Some(info),
                Some(before) => {
                    &&& info_at(after, places) is Some <==> info.size > before.size
                    &&& info_at(after, places) matches Some(kept) ==> {
                        &&& kept.size + before.size == info.size
                        &&& info.allocated >= before.allocated ==> kept.allocated + before.allocated
                            == info.allocated
                        &&& info.allocated < before.allocated ==> kept.allocated == 0
                        &&& kept == (FsEntryMetadata {
                            size: kept.size,
                            allocated: kept.allocated,
                            ..info
                        })
                    }
                },
            }
        }),
{
    reveal_strlit("/");
    assert("/"@.skip(1) == Seq::<char>::empty());
    assert(segments("/"@.skip(1)) == Seq::<Seq<char>>::empty());
    let full = lemma_filtered_at(tree, "/"@, true, old, DiffFilter::NewOrLarger, places);
    assert(segments(full.skip(1)) == names_at(tree, places));
}

/// The number of something in an entry, none in one that is left out.
pub open spec fn number_of(node: FsNode, number: spec_fn(FsEntryMetadata) -> int) -> int {
    match node.info {
        Some(info) => number(info),
        None => 0,
    }
}

/// The number of files that an entry stands for.
pub open spec fn files_of(info: FsEntryMetadata) -> int {
    if info.is_dir {
        info.files as int
    } else {
        1
    }
}

/// The number of folders that an entry stands for.
pub open spec fn folders_of(info: FsEntryMetadata) -> int {
    if info.is_dir {
        info.folders + 1
    } else {
        0
    }
}

/// The sum of a number over the entries of a folder that are kept.
pub open spec fn kept_total(list: Seq<FsNode>, number: spec_fn(FsEntryMetadata) -> int) -> int {
    total(list, |node: FsNode| number_of(node, number))
}

proof fn lemma_kept_totals(list: Seq<FsNode>)
    ensures
        kept_sums(list).size == kept_total(list, |info: FsEntryMetadata| info.size as int),
        kept_sums(list).allocated == kept_total(
            list,
            |info: FsEntryMetadata| info.allocated as int,
        ),
        kept_sums(list).files == kept_total(list, |info: FsEntryMetadata| files_of(info)),
        kept_sums(list).folders == kept_total(list, |info: FsEntryMetadata| folders_of(info)),
    decreases list.len(),
{
    if list.len() > 0 {
        lemma_kept_totals(list.drop_last());
    }
}

/// Whether a number is the smaller one of two numbers.
pub open spec fn is_smaller_one(number: int, a: int, b: int) -> bool {
    &&& number <= a
    &&& number <= b
    &&& number == a || number == b
}

/// A folder is left out exactly if it is not the root, nothing inside it is kept, and the
/// older snapshot has it: with the same metadata if everything that is changed is kept.
/// The numbers of a folder that is kept are those of its entries that are kept, but never
/// more than they were, and everything else stays the same.
pub proof fn law_folders_are_kept_for_their_entries(
    tree: FsNode,
    old: Option<FsNode>,
    filter: DiffFilter,
    places: Seq<int>,
)
    requires
        is_tidy(tree),
        entry_at(tree, places) matches Some(folder) && folder.is_folder(),
    ensures
        ({
            let info = info_at(tree, places)->0;
            let after = filtered(tree, "/"@, true, old, filter);
            let known = match info_before(old, tree, places) {
                Some(before) => filter == DiffFilter::NewOrLarger || before == info,
                None => false,
            };
            let is_empty = forall|i: int|
                info_at(after, #[trigger] places.push(i)) is None;
            &&& info_at(after, places) is None <==> places.len() > 0 && known && is_empty
            &&& entry_at(after, places) matches Some(node) ==> (node.info matches Some(kept) ==> {
                let list = node.children;
                &&& list.len() == entry_at(tree, places)->0.children.len()
                &&& is_smaller_one(
                    kept.size as int,
                    info.size as int,
                    kept_total(list, |info: FsEntryMetadata| info.size as int),
                )
                &&& is_smaller_one(
                    kept.allocated as int,
                    info.allocated as int,
                    kept_total(list, |info: FsEntryMetadata| info.allocated as int),
                )
                &&& is_smaller_one(
                    kept.files as int,
                    info.files as int,
                    kept_total(list, |info: FsEntryMetadata| files_of(info)),
                )
                &&& is_smaller_one(
                    kept.folders as int,
                    info.folders as int,
                    kept_total(list, |info: FsEntryMetadata| folders_of(info)),
                )
                &&& kept == (FsEntryMetadata {
                    size: kept.size,
                    allocated: kept.allocated,
                    files: kept.files,
                    folders: kept.folders,
                    ..info
                })
            })
        }),
{
    reveal_strlit("/");
    assert("/"@.skip(1) == Seq::<char>::empty());
    assert(segments("/"@.skip(1)) == Seq::<Seq<char>>::empty());
    let full = lemma_filtered_at(tree, "/"@, true, old, filter, places);
    assert(segments(full.skip(1)) == names_at(tree, places));
    let after = filtered(tree, "/"@, true, old, filter);
    let folder = entry_at(tree, places)->0;
    let info = folder.info->0;
    let is_root = places.len() == 0;
    let kept = filtered_list(folder.children, full, old, filter);
    let node = filtered(folder, full, is_root, old, filter);
    lemma_filtered_list(folder.children, full, old, filter);
    lemma_nothing_kept(kept);
    lemma_kept_totals(kept);
    assert forall|i: int| 0 <= i < kept.len() && node.info is Some implies info_at(
        after,
        #[trigger] places.push(i),
    ) == kept[i].info by {
        lemma_entry_inside(after, places, i);
    }
    assert forall|i: int| !(0 <= i < kept.len() && node.info is Some) implies info_at(
        after,
        #[trigger] places.push(i),
    ) is None by {
        match entry_at(after, places) {
            Some(found) => {
                lemma_entry_inside(after, places, i);
                assert(found == node);
                if !is_root && node.info is None {
                    lemma_left_out(folder, full, old, filter);
                }
            },
            None => {
                lemma_entry_outside(after, places, i);
            },
        }
    }
    if kept_sums(kept).entries > 0 {
        let i = choose|i: int| 0 <= i < kept.len() && (#[trigger] kept[i]).info is Some;
        assert(node.info is Some);
        assert(info_at(after, places.push(i)) is Some);
    }
}

/// An entry inside a folder that is reached.
proof fn lemma_entry_inside(tree: FsNode, places: Seq<int>, i: int)
    requires
        entry_at(tree, places) is Some,
    ensures
        entry_at(tree, places.push(i)) == if 0 <= i < entry_at(tree, places)->0.children.len() {
            Some(entry_at(tree, places)->0.children[i])
        } else {
            None
        },
    decreases places.len(),
{
    let more = places.push(i);
    if places.len() == 0 {
        assert(more.drop_first() == Seq::<int>::empty());
        assert(more[0] == i);
        if 0 <= i < tree.children.len() {
            assert(entry_at(tree.children[i], more.drop_first()) == Some(tree.children[i]));
        }
    } else {
        assert(more[0] == places[0]);
        assert(more.drop_first() == places.drop_first().push(i));
        lemma_entry_inside(tree.children[places[0]], places.drop_first(), i);
    }
}

proof fn lemma_entry_outside(tree: FsNode, places: Seq<int>, i: int)
    requires
        entry_at(tree, places) is None,
    ensures
        entry_at(tree, places.push(i)) is None,
    decreases places.len(),
{
    let more = places.push(i);
    assert(more[0] == places[0]);
    assert(more.drop_first() == places.drop_first().push(i));
    if 0 <= places[0] < tree.children.len() {
        lemma_entry_outside(tree.children[places[0]], places.drop_first(), i);
    }
}

/// Entries are searched in the whole tree of an older snapshot whose root is a folder.
pub proof fn law_older_snapshots_are_searched(index: FsIndex)
    ensures
        index.spec_root() is Some && index.root_tree().is_folder() ==> searched_tree(index) == Some(
            index.root_tree(),
        ),
        index.spec_root() is None ==> searched_tree(index) is None,
{
}

} // verus!
