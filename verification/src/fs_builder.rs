//! Building an index from records that are visited one after the other.
use vstd::prelude::*;
use vstd::utf8::encode_utf8;

use crate::fs_build::{
    arranged, built_tree, can_finish, closed_sums_ok, count_files, count_folders, finish,
    finish_list, folder_info, has_room, insert_below, lemma_count_bytes, lemma_finish_list,
    lemma_insert_spine, lemma_names_bytes, lemma_node_bytes, lemma_room_after_insert,
    lemma_room_before, lemma_room_before_finish, lemma_sum_nonnegative, list_entries,
    list_meta_bytes, list_sums_ok, meta_bytes, names_bytes, next_state, open_bytes, open_sums_ok,
    prefix_len, reordered, spine, spine_matches, spine_ok, start_state, state_after, sum_allocated,
    sum_size, sums_ok, BuildState, FsIndexBuildOptions,
};
use crate::fs_index::{
    child_views, first_child, is_meta, is_path, lemma_nth_path_order, nth_path, paths_are, paths_len,
    FsEntryId, FsIndex, FsMetadataId, Item,
};
use crate::fs_tree::{
    items_kept, lemma_list_from_each, lemma_list_place_of, lemma_meta_kept,
    lemma_separated_from_each, list_places, meta_holds, meta_places, meta_separated, path_holds,
    path_places, path_separated, FsNode,
};
use crate::metadata::FsEntryMetadata;
use crate::sorting::{as_ints, is_order_of, name_views, sort_entries};
use crate::text::{byte_len, path_segments, same_text, text_after, text_ends_with_separator, views};
use crate::wiztree_csv::{RecordView, WizTreeCsvRecord};

verus! {

/// A folder whose contents are not complete yet.
struct OpenFolder {
    name: String,
    /// Metadata of the record for this folder.
    info: FsEntryMetadata,
    /// Name of each complete child and whether it is a folder.
    entries: Vec<(String, bool)>,
    /// Metadata of each complete child.
    ids: Vec<FsMetadataId>,
    /// Number of files and folders among the complete children and inside them.
    files: u64,
    folders: u64,
    /// Sum of the sizes of the complete children.
    size: u64,
    allocated: u64,
    /// Size of the index when this folder was added.
    start: Ghost<int>,
    /// Size of the index after each complete child.
    ends: Ghost<Seq<int>>,
}

/// Whether the metadata at `meta` is that of the tree and uses only places from
/// `low` until `high`.
spec fn tree_within(items: Map<int, Item>, meta: int, node: FsNode, low: int, high: int) -> bool {
    &&& meta_holds(items, meta, node)
    &&& meta_separated(items, meta, node)
    &&& forall|p: int| #[trigger] meta_places(items, meta, node).contains(p) ==> low <= p < high
}

impl OpenFolder {
    spec fn low(self, i: int) -> int {
        if i == 0 {
            self.start@
        } else {
            self.ends@[i - 1]
        }
    }

    /// Whether the complete children are the given ones.
    #[verifier::opaque]
    spec fn holds(
        self,
        items: Map<int, Item>,
        closed: Seq<FsNode>,
        options: FsIndexBuildOptions<'_>,
        limit: int,
    ) -> bool {
        &&& self.info.is_dir
        &&& self.info.modified.valid()
        &&& self.entries@.len() == closed.len()
        &&& self.ids@.len() == closed.len()
        &&& self.ends@.len() == closed.len()
        &&& self.start@ <= limit
        &&& closed.len() > 0 ==> self.ends@.last() <= limit
        &&& forall|i: int| 0 <= i < closed.len() ==> self.low(i) <= #[trigger] self.ends@[i]
        &&& forall|i: int|
            0 <= i < closed.len() ==> {
                &&& self.entries@[i].0@ == (#[trigger] closed[i]).name
                &&& self.entries@[i].1 == closed[i].is_folder()
                &&& closed[i].info is Some
                &&& encode_utf8(closed[i].name).len() <= u16::MAX
                &&& tree_within(
                    items,
                    self.ids@[i].at(),
                    finish(closed[i], options),
                    self.low(i),
                    self.ends@[i],
                )
            }
        &&& self.files == count_files(closed)
        &&& self.folders == count_folders(closed)
        &&& options.recalculate_folder_size ==> {
            &&& self.size == sum_size(finish_list(closed, options))
            &&& self.allocated == sum_allocated(finish_list(closed, options))
            &&& list_sums_ok(closed, options)
        }
    }

    /// Ends are in order.
    proof fn lemma_ends(self, i: int, j: int)
        requires
            forall|k: int| 0 <= k < self.ends@.len() ==> self.low(k) <= #[trigger] self.ends@[k],
            0 <= i <= j < self.ends@.len(),
        ensures
            self.start@ <= self.low(i),
            self.ends@[i] <= self.ends@[j],
            i < j ==> self.ends@[i] <= self.low(j),
        decreases j,
    {
        if i < j {
            self.lemma_ends(i, j - 1);
            assert(self.low(j) <= self.ends@[j]);
        } else if i > 0 {
            self.lemma_ends(i - 1, i - 1);
            assert(self.low(i - 1) <= self.ends@[i - 1]);
        }
    }

    /// What is known about the numbers of an open folder.
    proof fn lemma_numbers(
        self,
        items: Map<int, Item>,
        closed: Seq<FsNode>,
        options: FsIndexBuildOptions<'_>,
        limit: int,
    )
        requires
            self.holds(items, closed, options, limit),
        ensures
            self.info.is_dir,
            self.info.modified.valid(),
            self.start@ <= limit,
            self.entries@.len() == closed.len(),
            self.ids@.len() == closed.len(),
            self.files == count_files(closed),
            self.folders == count_folders(closed),
            options.recalculate_folder_size ==> {
                &&& self.size == sum_size(finish_list(closed, options))
                &&& self.allocated == sum_allocated(finish_list(closed, options))
                &&& list_sums_ok(closed, options)
            },
    {
        reveal(OpenFolder::holds);
    }

    /// More items and a higher limit change nothing.
    proof fn lemma_kept(
        self,
        a: Map<int, Item>,
        b: Map<int, Item>,
        closed: Seq<FsNode>,
        options: FsIndexBuildOptions<'_>,
        limit: int,
        higher: int,
    )
        requires
            self.holds(a, closed, options, limit),
            items_kept(a, b),
            limit <= higher,
        ensures
            self.holds(b, closed, options, higher),
    {
        reveal(OpenFolder::holds);
        assert forall|i: int| 0 <= i < closed.len() implies {
            &&& self.entries@[i].0@ == (#[trigger] closed[i]).name
            &&& self.entries@[i].1 == closed[i].is_folder()
            &&& closed[i].info is Some
            &&& encode_utf8(closed[i].name).len() <= u16::MAX
            &&& tree_within(
                b,
                self.ids@[i].at(),
                finish(closed[i], options),
                self.low(i),
                self.ends@[i],
            )
        } by {
            lemma_meta_kept(a, b, self.ids@[i].at(), finish(closed[i], options));
        }
    }

    /// The metadata that is stored for this folder.
    fn final_info(&self, options: &FsIndexBuildOptions<'_>) -> (info: FsEntryMetadata)
        requires
            self.entries@.len() <= u32::MAX,
        ensures
            info == (FsEntryMetadata {
                files: if options.recount_children {
                    self.files
                } else {
                    self.info.files
                },
                folders: if options.recount_children {
                    self.folders
                } else {
                    self.info.folders
                },
                size: if options.recalculate_folder_size {
                    self.size
                } else {
                    self.info.size
                },
                allocated: if options.recalculate_folder_size {
                    self.allocated
                } else {
                    self.info.allocated
                },
                children: Some(self.entries@.len() as u32),
                ..self.info
            }),
    {
        FsEntryMetadata {
            files: if options.recount_children {
                self.files
            } else {
                self.info.files
            },
            folders: if options.recount_children {
                self.folders
            } else {
                self.info.folders
            },
            size: if options.recalculate_folder_size {
                self.size
            } else {
                self.info.size
            },
            allocated: if options.recalculate_folder_size {
                self.allocated
            } else {
                self.info.allocated
            },
            children: Some(self.entries.len() as u32),
            ..self.info
        }
    }

    /// The children in the order in which they are stored.
    fn arranged_children(
        &self,
        options: &FsIndexBuildOptions<'_>,
        items: Ghost<Map<int, Item>>,
        closed: Ghost<Seq<FsNode>>,
        limit: Ghost<int>,
    ) -> (result: (Vec<(String, FsMetadataId)>, Ghost<Seq<int>>))
        requires
            self.holds(items@, closed@, *options, limit@),
        ensures
            ({
                let finished = finish_list(closed@, *options);
                let list = result.0@;
                let order = result.1@;
                &&& list.len() == closed@.len()
                &&& order.len() == closed@.len()
                &&& arranged(finished, *options) == reordered(finished, order)
                &&& forall|i: int|
                    0 <= i < list.len() ==> {
                        &&& 0 <= #[trigger] order[i] < closed@.len()
                        &&& list[i].0@ == closed@[order[i]].name
                        &&& list[i].1 == self.ids@[order[i]]
                    }
                &&& forall|i: int, j: int|
                    #![trigger order[i], order[j]]
                    0 <= i < j < order.len() ==> order[i] != order[j]
            }),
    {
        let ghost finished = finish_list(closed@, *options);
        proof {
            reveal(OpenFolder::holds);
            lemma_finish_list(closed@, *options);
        }
        let order: Vec<usize> = if options.resort {
            sort_entries(&self.entries)
        } else {
            count_up(self.entries.len())
        };
        proof {
            assert(name_views(self.entries@) == list_entries(finished)) by {
                assert forall|i: int| 0 <= i < closed@.len() implies name_views(self.entries@)[i]
                    == list_entries(finished)[i] by {
                    assert(finished[i] == finish(closed@[i], *options));
                    assert(closed@[i].name == finished[i].name);
                    assert(closed@[i].is_folder() == finished[i].is_folder());
                }
            }
            let o = as_ints(order@);
            if options.resort {
                assert(is_order_of(name_views(self.entries@), o, 0, closed@.len() as int));
                assert forall|i: int| 0 <= i < o.len() implies 0 <= #[trigger] o[i]
                    < closed@.len() by {
                    assert(o.contains(o[i]));
                }
                assert forall|i: int, j: int|
                    #![trigger o[i], o[j]]
                    0 <= i < j < o.len() implies o[i] != o[j] by {
                    crate::sorting::lemma_before_irreflexive(name_views(self.entries@), o[i]);
                }
            } else {
                assert(reordered(finished, o) == finished);
            }
        }
        let mut list: Vec<(String, FsMetadataId)> = Vec::new();
        let mut i: usize = 0;
        while i < order.len()
            invariant
                i <= order@.len(),
                order@.len() == closed@.len(),
                self.entries@.len() == closed@.len(),
                self.ids@.len() == closed@.len(),
                forall|k: int|
                    0 <= k < closed@.len() ==> self.entries@[k].0@ == (#[trigger] closed@[k]).name,
                forall|k: int|
                    0 <= k < order@.len() ==> 0 <= #[trigger] as_ints(order@)[k] < closed@.len(),
                list@.len() == i,
                forall|k: int|
                    0 <= k < i ==> (#[trigger] list@[k]).0@ == closed@[order@[k] as int].name
                        && list@[k].1 == self.ids@[order@[k] as int],
            decreases order@.len() - i,
        {
            assert(as_ints(order@)[i as int] == order@[i as int]);
            let k: usize = order[i];
            assert(closed@[k as int].name == self.entries@[k as int].0@);
            list.push((self.entries[k].0.clone(), self.ids[k]));
            i = i + 1;
        }
        assert forall|k: int| 0 <= k < list@.len() implies {
            &&& 0 <= #[trigger] as_ints(order@)[k] < closed@.len()
            &&& list@[k].0@ == closed@[as_ints(order@)[k]].name
            &&& list@[k].1 == self.ids@[as_ints(order@)[k]]
        } by {
            assert(as_ints(order@)[k] == order@[k]);
            assert(list@[k].0@ == closed@[order@[k] as int].name);
        }
        (list, Ghost(as_ints(order@)))
    }
}

/// The numbers from 0 on.
fn count_up(count: usize) -> (numbers: Vec<usize>)
    ensures
        numbers@.len() == count,
        forall|i: int| 0 <= i < count ==> #[trigger] as_ints(numbers@)[i] == i,
{
    let mut numbers: Vec<usize> = Vec::new();
    let mut i: usize = 0;
    while i < count
        invariant
            i <= count,
            numbers@.len() == i,
            forall|k: int| 0 <= k < i ==> numbers@[k] == k,
        decreases count - i,
    {
        numbers.push(i);
        i = i + 1;
    }
    numbers
}

/// Metadata takes the same bytes after it was read back.
proof fn lemma_stored_encoded(info: FsEntryMetadata)
    ensures
        info.stored().encoded() == info.encoded(),
{
    assert(info.stored().ints() == info.ints());
}

/// The bytes taken by the names of some children.
proof fn lemma_paths_are_names(list: Seq<(Seq<char>, int)>, nodes: Seq<FsNode>)
    requires
        list.len() == nodes.len(),
        forall|i: int| 0 <= i < list.len() ==> (#[trigger] list[i]).0 == nodes[i].name,
    ensures
        paths_len(list) == names_bytes(nodes),
    decreases list.len(),
{
    if list.len() > 0 {
        assert forall|i: int| 0 <= i < list.drop_last().len() implies (
        #[trigger] list.drop_last()[i]).0 == nodes.drop_last()[i].name by {
            assert(list.drop_last()[i] == list[i]);
        }
        lemma_paths_are_names(list.drop_last(), nodes.drop_last());
        assert(list[list.len() - 1].0 == nodes[list.len() - 1].name);
    }
}

/// Length in bytes of all names with their prefixes, `None` if it is not a 32 bit
/// number.
fn total_len(list: &Vec<(String, FsMetadataId)>, start: u64) -> (total: Option<u64>)
    requires
        start <= u32::MAX,
    ensures
        total is Some <==> start + paths_len(child_views(list@)) <= u32::MAX,
        total matches Some(t) ==> t == start + paths_len(child_views(list@)),
{
    let ghost names = child_views(list@);
    let mut total: u64 = start;
    let mut i: usize = 0;
    assert(names.take(0) == Seq::<(Seq<char>, int)>::empty());
    while i < list.len()
        invariant
            i <= list@.len(),
            names == child_views(list@),
            total <= u32::MAX,
            total == start + paths_len(names.take(i as int)),
        decreases list@.len() - i,
    {
        let len: usize = byte_len(list[i].0.as_str());
        proof {
            assert(names.take(i + 1).drop_last() == names.take(i as int));
            assert(names.take(i + 1).last() == names[i as int]);
            crate::fs_index::lemma_paths_len_prefix(names, i + 1);
        }
        if len > 0xffff_ffff || total + 6 + len as u64 > 0xffff_ffff {
            return None;
        }
        total = total + 6 + len as u64;
        i = i + 1;
    }
    assert(names.take(i as int) == names);
    Some(total)
}

/// Adds a folder with all its children to the index. Returns `None`, and changes
/// nothing, if there is no room for it.
fn write_folder(
    index: &mut FsIndex,
    folder: &OpenFolder,
    options: &FsIndexBuildOptions<'_>,
    node: Ghost<FsNode>,
) -> (result: Option<FsMetadataId>)
    requires
        old(index).wf(),
        old(index).size() > 0,
        folder.holds(
            old(index).items(),
            node@.children,
            *options,
            old(index).size() as int,
        ),
        node@.name == folder.name@,
        node@.info == Some(folder.info),
    ensures
        final(index).wf(),
        final(index).spec_root() == old(index).spec_root(),
        ({
            let done = finish(node@, *options);
            let needed = done.info->0.encoded().len() + names_bytes(done.children);
            &&& result is Some <==> old(index).size() + needed <= u32::MAX
            &&& result is None ==> *final(index) == *old(index)
            &&& result matches Some(id) ==> {
                &&& items_kept(old(index).items(), final(index).items())
                &&& id.at() == old(index).size()
                &&& final(index).size() == old(index).size() + needed
                &&& tree_within(
                    final(index).items(),
                    id.at(),
                    done,
                    folder.start@,
                    final(index).size() as int,
                )
            }
        }),
{
    let ghost closed = node@.children;
    let ghost done = finish(node@, *options);
    let ghost finished = finish_list(closed, *options);
    let ghost items = index.items();
    let ghost limit = index.size() as int;
    proof {
        folder.lemma_numbers(items, closed, *options, limit);
        lemma_names_bytes(done.children);
        index.lemma_places();
    }
    let (list, order) = folder.arranged_children(
        options,
        Ghost(items),
        Ghost(closed),
        Ghost(limit),
    );
    if folder.entries.len() >= 0xffff_fffe {
        assert(done.children.len() == closed.len());
        return None;
    }
    let info = folder.final_info(options);
    proof {
        assert(info == folder_info(folder.info, closed, finished, *options));
        lemma_stored_encoded(info);
    }
    let ghost names = child_views(list@);
    proof {
        lemma_child_names(*folder, items, node@, *options, order@, list@, limit);
    }
    let (_bytes, len) = info.to_ne_bytes();
    let size: u64 = index.byte_size() as u64;
    if size + len as u64 > 0xffff_ffff {
        return None;
    }
    match total_len(&list, size + len as u64) {
        Some(_total) => {},
        None => {
            return None;
        },
    }
    let id = index.add_entry(info, Some(list));
    proof {
        index.lemma_places();
        assert forall|o: int| #[trigger] is_meta(index.items(), o) implies 0 < o <= u32::MAX by {}
        lemma_folder_written(
            *folder,
            items,
            index.items(),
            id.at(),
            node@,
            *options,
            order@,
            names,
            size as int,
            index.size() as int,
        );
    }
    Some(id)
}

/// The names and metadata of the children of a folder.
proof fn lemma_child_names(
    folder: OpenFolder,
    items: Map<int, Item>,
    node: FsNode,
    options: FsIndexBuildOptions<'_>,
    order: Seq<int>,
    list: Seq<(String, FsMetadataId)>,
    limit: int,
)
    requires
        folder.holds(items, node.children, options, limit),
        node.info == Some(folder.info),
        list.len() == node.children.len(),
        order.len() == list.len(),
        finish(node, options).children == reordered(finish_list(node.children, options), order),
        forall|i: int|
            0 <= i < list.len() ==> {
                &&& 0 <= #[trigger] order[i] < node.children.len()
                &&& list[i].0@ == node.children[order[i]].name
                &&& list[i].1 == folder.ids@[order[i]]
            },
    ensures
        paths_len(child_views(list)) == names_bytes(finish(node, options).children),
        crate::fs_index::names_fit(child_views(list)),
        crate::fs_index::metas_exist(items, child_views(list)),
        forall|i: int|
            0 <= i < order.len() ==> child_views(list)[i] == (
                node.children[#[trigger] order[i]].name,
                folder.ids@[order[i]].at(),
            ),
{
    reveal(OpenFolder::holds);
    let closed = node.children;
    let names = child_views(list);
    let done = finish(node, options);
    lemma_finish_list(closed, options);
    assert forall|i: int| 0 <= i < names.len() implies {
        &&& (#[trigger] names[i]).0 == done.children[i].name
        &&& encode_utf8(names[i].0).len() <= u16::MAX
        &&& is_meta(items, names[i].1)
    } by {
        let k = order[i];
        assert(0 <= k < closed.len());
        assert(names[i] == (list[i].0@, list[i].1.at()));
        assert(done.children[i] == finish(closed[k], options));
        assert(closed[k].name == folder.entries@[k].0@);
        assert(tree_within(
            items,
            folder.ids@[k].at(),
            finish(closed[k], options),
            folder.low(k),
            folder.ends@[k],
        ));
    }
    lemma_paths_are_names(names, done.children);
}

/// The tree of a folder whose metadata was just added.
proof fn lemma_folder_written(
    folder: OpenFolder,
    items: Map<int, Item>,
    more: Map<int, Item>,
    at: int,
    node: FsNode,
    options: FsIndexBuildOptions<'_>,
    order: Seq<int>,
    names: Seq<(Seq<char>, int)>,
    size: int,
    new_size: int,
)
    requires
        folder.holds(items, node.children, options, size),
        node.info == Some(folder.info),
        at == size,
        items_kept(items, more),
        forall|o: int| #[trigger] items.contains_key(o) ==> o < size,
        forall|o: int| #[trigger] more.contains_key(o) ==> o < new_size,
        forall|o: int| #[trigger] is_meta(more, o) ==> 0 < o <= u32::MAX,
        is_meta(more, at),
        more[at].info() == finish(node, options).info->0,
        more[at].info().children == Some(node.children.len() as u32),
        node.children.len() <= u32::MAX,
        more[at].len() >= 1,
        order.len() == node.children.len(),
        finish(node, options).children == reordered(finish_list(node.children, options), order),
        forall|i: int|
            0 <= i < order.len() ==> {
                &&& 0 <= #[trigger] order[i] < node.children.len()
                &&& names[i] == (node.children[order[i]].name, folder.ids@[order[i]].at())
            },
        forall|i: int, j: int|
            #![trigger order[i], order[j]]
            0 <= i < j < order.len() ==> order[i] != order[j],
        names.len() == order.len(),
        paths_are(more, first_child(more, at), names),
    ensures
        tree_within(more, at, finish(node, options), folder.start@, new_size),
{
    reveal(OpenFolder::holds);
    let closed = node.children;
    let done = finish(node, options);
    let start = first_child(more, at);
    let list = done.children;
    lemma_finish_list(closed, options);
    assert forall|i: int| 0 <= i < list.len() implies {
        let p = nth_path(more, start, i as nat);
        let k = order[i];
        let meta = folder.ids@[k].at();
        &&& path_holds(more, p, #[trigger] list[i])
        &&& path_separated(more, p, list[i])
        &&& path_places(more, p, list[i]) == set![p].union(meta_places(more, meta, list[i]))
        &&& p > at
        &&& is_path(more, p)
        &&& 0 <= k < closed.len()
        &&& forall|q: int| #[trigger]
            meta_places(more, meta, list[i]).contains(q) ==> folder.low(k) <= q < folder.ends@[k]
        &&& folder.ends@[k] <= at
        &&& folder.start@ <= folder.low(k)
    } by {
        let p = nth_path(more, start, i as nat);
        let k = order[i];
        let meta = folder.ids@[k].at();
        assert(0 <= k < closed.len());
        assert(list[i] == finish(closed[k], options));
        assert(closed[k].name == folder.entries@[k].0@);
        assert(tree_within(items, meta, list[i], folder.low(k), folder.ends@[k]));
        lemma_meta_kept(items, more, meta, list[i]);
        assert(is_path(more, nth_path(more, start, i as nat)));
        assert(more[p] == (Item::Path { meta: names[i].1 as u32, name: names[i].0 }));
        assert(is_meta(more, meta));
        assert(more[p]->meta == meta);
        folder.lemma_ends(k, closed.len() - 1);
        lemma_nth_path_order(more, start, 0, i as nat);
        assert(!meta_places(more, meta, list[i]).contains(p));
    }
    assert forall|i: int| 0 <= i < list.len() implies path_holds(
        more,
        nth_path(more, start, i as nat),
        #[trigger] list[i],
    ) by {}
    lemma_list_from_each(more, start, list);
    assert forall|i: int, j: int|
        #![trigger list[i], list[j]]
        0 <= i < j < list.len() implies path_places(
        more,
        nth_path(more, start, i as nat),
        list[i],
    ).disjoint(path_places(more, nth_path(more, start, j as nat), list[j])) by {
        let p = nth_path(more, start, i as nat);
        let q = nth_path(more, start, j as nat);
        let a = order[i];
        let b = order[j];
        assert(a != b);
        lemma_nth_path_order(more, start, i as nat, j as nat);
        if a < b {
            folder.lemma_ends(a, b);
        } else {
            folder.lemma_ends(b, a);
        }
        assert forall|x: int| path_places(more, p, list[i]).contains(x) implies !path_places(
            more,
            q,
            list[j],
        ).contains(x) by {
            if x != p {
                assert(meta_places(more, folder.ids@[a].at(), list[i]).contains(x));
            }
            if path_places(more, q, list[j]).contains(x) && x != q {
                assert(meta_places(more, folder.ids@[b].at(), list[j]).contains(x));
            }
        }
    }
    lemma_separated_from_each(more, start, list);
    assert forall|p: int| #[trigger] list_places(more, start, list).contains(p) implies
        folder.start@ <= p < new_size && p != at by {
        lemma_list_place_of(more, start, list, p);
        let i = choose|i: int|
            0 <= i < list.len() && path_places(
                more,
                nth_path(more, start, i as nat),
                #[trigger] list[i],
            ).contains(p);
        let q = nth_path(more, start, i as nat);
        if p == q {
            assert(more.contains_key(q));
        } else {
            assert(meta_places(more, folder.ids@[order[i]].at(), list[i]).contains(p));
        }
    }
    assert(meta_holds(more, at, done));
    assert(meta_separated(more, at, done));
    assert forall|p: int| #[trigger] meta_places(more, at, done).contains(p) implies folder.start@
        <= p < new_size by {
        if p != at {
            assert(list_places(more, start, done.children).contains(p));
        }
    }
}

/// The complete entries of the folder number `j`.
spec fn closed_at(state: BuildState, j: nat) -> Seq<FsNode> {
    if j < state.depth {
        spine(state.tree, j).children.drop_last()
    } else {
        spine(state.tree, j).children
    }
}

/// Where what belongs to the folder number `j` ends.
spec fn limit_at(parents: Seq<OpenFolder>, size: int, j: int) -> int {
    if j + 1 < parents.len() {
        parents[j + 1].start@
    } else {
        size
    }
}

/// Whether the folders that are not complete are the ones of the state.
spec fn parents_ok(
    parents: Seq<OpenFolder>,
    index: FsIndex,
    options: FsIndexBuildOptions<'_>,
    state: BuildState,
) -> bool {
    &&& parents.len() == state.depth + 1
    &&& spine_ok(state.tree, state.depth)
    &&& forall|j: int|
        0 <= j < parents.len() ==> {
            &&& (#[trigger] parents[j]).name@ == spine(state.tree, j as nat).name
            &&& Some(parents[j].info) == spine(state.tree, j as nat).info
            &&& encode_utf8(parents[j].name@).len() <= u16::MAX
            &&& parents[j].holds(
                index.items(),
                closed_at(state, j as nat),
                options,
                limit_at(parents, index.size() as int, j),
            )
        }
}

/// Builds an index from records that are visited one after the other.
pub struct FsIndexBuilder<'a> {
    index: FsIndex,
    root_id: FsEntryId,
    prefix_len: usize,
    parents: Vec<OpenFolder>,
    options: FsIndexBuildOptions<'a>,
    state: Ghost<BuildState>,
}

impl<'a> FsIndexBuilder<'a> {
    /// The entries read so far.
    pub closed spec fn state(self) -> BuildState {
        self.state@
    }

    pub closed spec fn options(self) -> FsIndexBuildOptions<'a> {
        self.options
    }

    /// Number of bytes before the names of entries in the paths of all records.
    pub closed spec fn prefix(self) -> int {
        self.prefix_len as int
    }

    pub closed spec fn wf(self) -> bool {
        let tree = self.state@.tree;
        &&& self.index.wf()
        &&& self.index.spec_root() == Some(self.root_id)
        &&& self.root_id.at() == 0
        &&& is_path(self.index.items(), 0)
        &&& self.index.items()[0] == (Item::Path { meta: 0, name: tree.name })
        &&& parents_ok(self.parents@, self.index, self.options, self.state@)
        &&& self.parents@[0].start@ == 6 + encode_utf8(tree.name).len()
        &&& self.index.size() == 6 + encode_utf8(tree.name).len() + open_bytes(
            tree,
            self.state@.depth,
            self.options,
        ) + list_meta_bytes(spine(tree, self.state@.depth).children, self.options)
        &&& has_room(self.state@, self.options)
    }

    /// Start with the root folder. Returns `None` if the record is not about a
    /// folder or its name is too long.
    pub fn new(root: &WizTreeCsvRecord, options: FsIndexBuildOptions<'a>) -> (result: Option<Self>)
        ensures
            result is Some <==> start_state(root@, options) is Some,
            result matches Some(builder) ==> {
                &&& builder.wf()
                &&& start_state(root@, options) == Some(builder.state())
                &&& builder.options() == options
                &&& builder.prefix() == prefix_len(root@)
            },
    {
        if !text_ends_with_separator(root.file_name.as_str()) || !root.modified.is_valid() {
            return None;
        }
        let ghost path = root@.file_name.drop_last();
        let ghost sep = root@.file_name.last();
        proof {
            assert(root@.file_name == path + seq![sep]);
            crate::text::lemma_cut_concat(path, seq![sep]);
            crate::text::lemma_encode_concat(path, seq![sep]);
            lemma_separator_len(sep);
        }
        let prefix_len: usize = byte_len(root.file_name.as_str()) - 1;
        let name: String = match options.custom_root {
            Some(name) => name.to_owned(),
            None => {
                let (before, _after) = root.file_name.as_str().split_at(prefix_len);
                proof {
                    let bytes = encode_utf8(root@.file_name);
                    assert(bytes.subrange(0, prefix_len as int) == encode_utf8(path));
                    crate::text::lemma_encode_injective(before@, path);
                }
                before.to_owned()
            },
        };
        if byte_len(name.as_str()) > 0xffff {
            return None;
        }
        let info = FsEntryMetadata {
            size: root.size,
            allocated: root.allocated,
            modified: root.modified,
            attributes: root.attributes,
            files: root.files,
            folders: root.folders,
            is_dir: true,
            children: None,
            drive_capacity: root.drive_capacity,
            free_space: root.free_space,
            used_space: root.used_space,
            reserved_space: root.reserved_space,
        };
        let mut index = FsIndex::new();
        let root_id = index.add_root(name.as_str(), None);
        let ghost tree = FsNode { name: name@, info: Some(info), children: seq![] };
        let ghost state = BuildState { tree, depth: 0 };
        let folder = OpenFolder {
            name,
            info,
            entries: Vec::new(),
            ids: Vec::new(),
            files: 0,
            folders: 0,
            size: 0,
            allocated: 0,
            start: Ghost(index.size() as int),
            ends: Ghost(Seq::empty()),
        };
        let mut parents: Vec<OpenFolder> = Vec::new();
        parents.push(folder);
        proof {
            reveal(OpenFolder::holds);
            assert(info == FsEntryMetadata::of_record(root@));
            assert(start_state(root@, options) == Some(state));
            assert(spine(tree, 0) == tree);
            assert(finish_list(tree.children, options) == Seq::<FsNode>::empty());
            index.lemma_places();
            assert forall|j: nat| j < 0 implies (#[trigger] spine(tree, j)).children.len() > 0 by {}
        }
        Some(FsIndexBuilder { index, root_id, prefix_len, parents, options, state: Ghost(state) })
    }

    /// Completes the last folder that was added. Returns `false` if there is no
    /// room for it.
    fn close_last(&mut self) -> (ok: bool)
        requires
            old(self).wf(),
            old(self).state().depth > 0,
        ensures
            ({
                let before = old(self).state();
                let after = BuildState { tree: before.tree, depth: (before.depth - 1) as nat };
                &&& ok == has_room(after, old(self).options())
                &&& ok ==> final(self).wf() && final(self).state() == after
            }),
            final(self).options() == old(self).options(),
            final(self).prefix() == old(self).prefix(),
    {
        let ghost before = self.state@;
        let ghost tree = before.tree;
        let ghost depth = before.depth;
        let ghost prev = (depth - 1) as nat;
        let ghost after = BuildState { tree, depth: prev };
        let ghost node = spine(tree, depth);
        let ghost list = spine(tree, prev).children;
        let ghost options = self.options;
        let ghost old_parents = self.parents@;
        let ghost old_index = self.index;
        proof {
            assert(old_parents[depth as int].name@ == node.name);
            assert(old_parents[prev as int].name@ == spine(tree, prev).name);
            assert(closed_at(before, depth) == node.children);
            assert(closed_at(before, prev) == list.drop_last());
            old_parents[depth as int].lemma_numbers(
                old_index.items(),
                node.children,
                options,
                old_index.size() as int,
            );
            old_parents[prev as int].lemma_numbers(
                old_index.items(),
                list.drop_last(),
                options,
                old_parents[depth as int].start@,
            );
            self.index.lemma_places();
            lemma_close_room(tree, depth, options);
        }
        let (folder, mut parent) = match (self.parents.pop(), self.parents.pop()) {
            (Some(folder), Some(parent)) => (folder, parent),
            _ => {
                return false;
            },
        };
        let id = match write_folder(&mut self.index, &folder, &self.options, Ghost(node)) {
            Some(id) => id,
            None => {
                return false;
            },
        };
        proof {
            self.index.lemma_places();
        }
        if self.options.recalculate_folder_size {
            if parent.size > u64::MAX - folder.size || parent.allocated > u64::MAX
                - folder.allocated {
                return false;
            }
            parent.size = parent.size + folder.size;
            parent.allocated = parent.allocated + folder.allocated;
        }
        parent.files = parent.files + folder.files;
        parent.folders = parent.folders + folder.folders + 1;
        parent.entries.push((folder.name, true));
        parent.ids.push(id);
        parent.ends = Ghost(parent.ends@.push(self.index.size() as int));
        self.parents.push(parent);
        self.state = Ghost(after);
        proof {
            let old_parent = old_parents[prev as int];
            assert(old_parent.holds(
                old_index.items(),
                list.drop_last(),
                options,
                folder.start@,
            ));
            assert(parent.entries@.drop_last() == old_parent.entries@);
            assert(parent.ids@.drop_last() == old_parent.ids@);
            lemma_child_added(
                old_parent,
                parent,
                old_index.items(),
                self.index.items(),
                list.drop_last(),
                node,
                options,
                folder.start@,
                self.index.size() as int,
            );
            lemma_parents_kept(
                old_parents,
                self.parents@,
                old_index,
                self.index,
                options,
                before,
                after,
            );
        }
        true
    }
}

/// A folder with one more complete child.
proof fn lemma_child_added(
    before: OpenFolder,
    after: OpenFolder,
    items: Map<int, Item>,
    more: Map<int, Item>,
    closed: Seq<FsNode>,
    node: FsNode,
    options: FsIndexBuildOptions<'_>,
    limit: int,
    size: int,
)
    requires
        before.holds(items, closed, options, limit),
        items_kept(items, more),
        limit <= size,
        after.info == before.info,
        after.start@ == before.start@,
        after.entries@.len() == closed.len() + 1,
        after.entries@.drop_last() == before.entries@,
        after.entries@.last().0@ == node.name,
        after.entries@.last().1 == node.is_folder(),
        after.ids@.len() == closed.len() + 1,
        after.ids@.drop_last() == before.ids@,
        after.ends@ == before.ends@.push(size),
        node.info is Some,
        encode_utf8(node.name).len() <= u16::MAX,
        tree_within(more, after.ids@.last().at(), finish(node, options), limit, size),
        after.files == count_files(closed.push(node)),
        after.folders == count_folders(closed.push(node)),
        options.recalculate_folder_size ==> {
            &&& after.size == before.size + finish(node, options).info->0.size
            &&& after.allocated == before.allocated + finish(node, options).info->0.allocated
            &&& sums_ok(node, options)
        },
    ensures
        after.holds(more, closed.push(node), options, size),
{
    reveal(OpenFolder::holds);
    let list = closed.push(node);
    before.lemma_kept(items, more, closed, options, limit, limit);
    assert(list.drop_last() == closed);
    assert forall|i: int| 0 <= i < list.len() implies after.low(i) <= #[trigger] after.ends@[i] by {
        if i < closed.len() {
            assert(before.low(i) <= before.ends@[i]);
        }
    }
    assert forall|i: int| 0 <= i < list.len() implies {
        &&& after.entries@[i].0@ == (#[trigger] list[i]).name
        &&& after.entries@[i].1 == list[i].is_folder()
        &&& list[i].info is Some
        &&& encode_utf8(list[i].name).len() <= u16::MAX
        &&& tree_within(
            more,
            after.ids@[i].at(),
            finish(list[i], options),
            after.low(i),
            after.ends@[i],
        )
    } by {
        if i < closed.len() {
            assert(closed[i] == list[i]);
            assert(after.entries@[i] == after.entries@.drop_last()[i]);
            assert(after.ids@[i] == after.ids@.drop_last()[i]);
            assert(before.entries@[i].0@ == closed[i].name);
        }
    }
    if options.recalculate_folder_size {
        let finished = finish_list(list, options);
        assert(finished == finish_list(closed, options).push(finish(node, options)));
        assert(finished.drop_last() == finish_list(closed, options));
    }
}

/// All folders but the last are not affected by new items.
proof fn lemma_parents_kept(
    parents: Seq<OpenFolder>,
    others: Seq<OpenFolder>,
    index: FsIndex,
    more: FsIndex,
    options: FsIndexBuildOptions<'_>,
    before: BuildState,
    after: BuildState,
)
    requires
        parents_ok(parents, index, options, before),
        items_kept(index.items(), more.items()),
        after.depth <= before.depth,
        others.len() == after.depth + 1,
        spine_ok(after.tree, after.depth),
        forall|j: int| 0 <= j < after.depth ==> others[j] == #[trigger] parents[j],
        others.last().start@ == parents[after.depth as int].start@,
        forall|j: nat|
            j < after.depth ==> (#[trigger] spine(after.tree, j)).name == spine(before.tree, j).name
                && spine(after.tree, j).info == spine(before.tree, j).info && spine(
                after.tree,
                j,
            ).children.drop_last() == spine(before.tree, j).children.drop_last(),
        others.last().name@ == spine(after.tree, after.depth).name,
        Some(others.last().info) == spine(after.tree, after.depth).info,
        encode_utf8(others.last().name@).len() <= u16::MAX,
        others.last().holds(
            more.items(),
            spine(after.tree, after.depth).children,
            options,
            more.size() as int,
        ),
    ensures
        parents_ok(others, more, options, after),
{
    assert forall|j: int| 0 <= j < others.len() implies {
        &&& (#[trigger] others[j]).name@ == spine(after.tree, j as nat).name
        &&& Some(others[j].info) == spine(after.tree, j as nat).info
        &&& encode_utf8(others[j].name@).len() <= u16::MAX
        &&& others[j].holds(
            more.items(),
            closed_at(after, j as nat),
            options,
            limit_at(others, more.size() as int, j),
        )
    } by {
        if j < after.depth {
            assert(others[j] == parents[j]);
            assert(spine(after.tree, j as nat).name == spine(before.tree, j as nat).name);
            let limit = limit_at(parents, index.size() as int, j);
            if j + 1 < after.depth {
                assert(others[j + 1] == parents[j + 1]);
            }
            parents[j].lemma_kept(
                index.items(),
                more.items(),
                closed_at(before, j as nat),
                options,
                limit,
                limit,
            );
        }
    }
}

/// The room taken after completing the last folder.
proof fn lemma_close_room(tree: FsNode, depth: nat, options: FsIndexBuildOptions<'_>)
    requires
        depth > 0,
        spine_ok(tree, depth),
        has_room(BuildState { tree, depth }, options),
    ensures
        ({
            let prev = (depth - 1) as nat;
            let node = spine(tree, depth);
            let list = spine(tree, prev).children;
            let done = finish(node, options);
            let needed = done.info->0.encoded().len() + names_bytes(done.children);
            let size = 6 + encode_utf8(tree.name).len() + open_bytes(tree, depth, options)
                + list_meta_bytes(node.children, options);
            let rest = finish_list(list.drop_last(), options);
            &&& node.is_folder()
            &&& spine_ok(tree, prev)
            &&& list.len() > 0
            &&& list == list.drop_last().push(node)
            &&& size + needed == 6 + encode_utf8(tree.name).len() + open_bytes(tree, prev, options)
                + list_meta_bytes(list, options)
            &&& has_room(BuildState { tree, depth: prev }, options) <==> size + needed <= u32::MAX
                && (options.recalculate_folder_size ==> sum_size(rest) + sum_size(
                finish_list(node.children, options),
            ) <= u64::MAX && sum_allocated(rest) + sum_allocated(
                finish_list(node.children, options),
            ) <= u64::MAX)
            &&& options.recalculate_folder_size ==> {
                &&& sums_ok(node, options)
                &&& done.info->0.size == sum_size(finish_list(node.children, options))
                &&& done.info->0.allocated == sum_allocated(finish_list(node.children, options))
            }
            &&& count_files(list) == count_files(list.drop_last()) + count_files(node.children)
            &&& count_folders(list) == count_folders(list.drop_last()) + 1 + count_folders(
                node.children,
            )
            &&& count_files(list) + count_folders(list) <= size + needed
        }),
{
    let prev = (depth - 1) as nat;
    let node = spine(tree, depth);
    let list = spine(tree, prev).children;
    assert(spine(tree, prev).children.len() > 0);
    assert(node.is_folder());
    assert(list == list.drop_last().push(node));
    let finished = finish_list(list, options);
    let rest = finish_list(list.drop_last(), options);
    assert(finished == rest.push(finish(node, options)));
    assert(finished.drop_last() == rest);
    lemma_sum_nonnegative(rest);
    lemma_sum_nonnegative(finish_list(node.children, options));
    lemma_count_bytes(list, options);
    lemma_open_bytes_nonnegative(tree, prev, options);
    assert(spine_ok(tree, prev)) by {
        assert forall|j: nat| j < prev implies (#[trigger] spine(tree, j)).children.len() > 0 by {}
    }
    assert(open_sums_ok(tree, depth, options) ==> open_sums_ok(tree, prev, options)
        && closed_sums_ok(list.drop_last(), options));
    let done = finish(node, options);
    let needed = done.info->0.encoded().len() + names_bytes(done.children);
    assert(meta_bytes(node, options) == needed + list_meta_bytes(node.children, options));
    assert(list_meta_bytes(list, options) == list_meta_bytes(list.drop_last(), options)
        + meta_bytes(node, options));
    if options.recalculate_folder_size {
        assert(sums_ok(node, options));
        assert(list_sums_ok(list, options));
        assert(sum_size(finished) == sum_size(rest) + done.info->0.size);
        assert(sum_allocated(finished) == sum_allocated(rest) + done.info->0.allocated);
        assert(closed_sums_ok(list, options) <==> sum_size(finished) <= u64::MAX && sum_allocated(
            finished,
        ) <= u64::MAX);
    }
}

pub proof fn lemma_open_bytes_nonnegative(
    tree: FsNode,
    depth: nat,
    options: FsIndexBuildOptions<'_>,
)
    ensures
        open_bytes(tree, depth, options) >= 0,
    decreases depth,
{
    if depth > 0 {
        lemma_open_bytes_nonnegative(tree, (depth - 1) as nat, options);
        lemma_count_bytes(spine(tree, (depth - 1) as nat).children.drop_last(), options);
    }
}

/// Path separators take a single byte.
pub proof fn lemma_separator_len(c: char)
    requires
        crate::text::is_separator(c),
    ensures
        encode_utf8(seq![c]).len() == 1,
{
    reveal_with_fuel(encode_utf8, 2);
    assert(seq![c].drop_first() == Seq::<char>::empty());
}

impl<'a> FsIndexBuilder<'a> {
    /// Whether the folders that are not complete have the given names, after the
    /// root.
    fn parents_match(&self, names: &Vec<String>, depth: usize) -> (result: bool)
        requires
            self.wf(),
            depth <= names@.len(),
            depth <= self.state().depth,
        ensures
            result == spine_matches(self.state().tree, views(names@).take(depth as int)),
    {
        let ghost wanted = views(names@).take(depth as int);
        let mut i: usize = 0;
        while i < depth
            invariant
                i <= depth,
                depth <= names@.len(),
                depth <= self.state().depth,
                self.wf(),
                wanted == views(names@).take(depth as int),
                forall|k: int|
                    0 <= k < i ==> spine(self.state().tree, (k + 1) as nat).name
                        == #[trigger] wanted[k],
            decreases depth - i,
        {
            assert(wanted[i as int] == names@[i as int]@);
            assert(self.parents@[i + 1].name@ == spine(self.state().tree, (i + 1) as nat).name);
            if !same_text(self.parents[i + 1].name.as_str(), names[i].as_str()) {
                return false;
            }
            i = i + 1;
        }
        true
    }

    /// Completes folders until only `depth` folders inside the root are left.
    /// Returns `false` if there is no room for them.
    fn close_until(&mut self, depth: usize) -> (ok: bool)
        requires
            old(self).wf(),
            depth <= old(self).state().depth,
        ensures
            ({
                let after = BuildState { tree: old(self).state().tree, depth: depth as nat };
                &&& ok == has_room(after, old(self).options())
                &&& ok ==> final(self).wf() && final(self).state() == after
            }),
            final(self).options() == old(self).options(),
            final(self).prefix() == old(self).prefix(),
    {
        let ghost tree = self.state().tree;
        while self.parents.len() > depth + 1
            invariant
                self.wf(),
                self.state().tree == tree,
                depth <= self.state().depth,
                self.state().depth <= old(self).state().depth,
                spine_ok(tree, old(self).state().depth),
                self.options() == old(self).options(),
                self.prefix() == old(self).prefix(),
                tree == old(self).state().tree,
            decreases self.state().depth,
        {
            let ghost before = self.state();
            if !self.close_last() {
                proof {
                    let options = old(self).options();
                    let prev = (before.depth - 1) as nat;
                    if has_room(BuildState { tree, depth: depth as nat }, options) {
                        assert(spine_ok(tree, prev)) by {
                            assert forall|j: nat| j < prev implies (
                            #[trigger] spine(tree, j)).children.len() > 0 by {}
                        }
                        lemma_room_before(tree, depth as nat, prev, options);
                    }
                }
                return false;
            }
        }
        true
    }

    /// Adds the entry of a record. Folders come before everything inside them, and
    /// everything inside a folder comes before anything after it. Entries outside
    /// of the root are ignored.
    ///
    /// Returns `false` if the record is not in that order or there is no room.
    pub fn push(&mut self, record: &WizTreeCsvRecord) -> (ok: bool)
        requires
            old(self).wf(),
        ensures
            ok == (next_state(
                old(self).state(),
                record@,
                old(self).prefix(),
                old(self).options(),
            ) is Some),
            ok ==> final(self).wf() && next_state(
                old(self).state(),
                record@,
                old(self).prefix(),
                old(self).options(),
            ) == Some(final(self).state()),
            final(self).options() == old(self).options(),
            final(self).prefix() == old(self).prefix(),
    {
        let relative = match text_after(record.file_name.as_str(), self.prefix_len) {
            Some(relative) => relative,
            None => {
                return true;
            },
        };
        let mut place = path_segments(relative);
        if place.len() == 0 {
            return true;
        }
        let ghost names = views(place@);
        let depth: usize = place.len() - 1;
        let is_dir = text_ends_with_separator(record.file_name.as_str());
        if !is_dir && (record.files != 0 || record.folders != 0) {
            return false;
        }
        if !record.modified.is_valid() {
            return false;
        }
        assert(names.last() == place@.last()@);
        if byte_len(place[depth].as_str()) > 0xffff {
            return false;
        }
        if depth >= self.parents.len() {
            return false;
        }
        proof {
            assert(names.take(depth as int) == names.drop_last());
        }
        if !self.parents_match(&place, depth) {
            return false;
        }
        let ghost tree = self.state().tree;
        let ghost info = FsEntryMetadata::of_record(record@);
        let ghost leaf = FsNode { name: names.last(), info: Some(info), children: seq![] };
        proof {
            assert(spine_ok(tree, depth as nat)) by {
                assert forall|j: nat| j < depth implies (
                #[trigger] spine(tree, j)).children.len() > 0 by {}
            }
            lemma_room_after_insert(tree, depth as nat, leaf, self.options());
        }
        let ghost list = spine(tree, depth as nat).children;
        if !self.close_until(depth) {
            proof {
                if !is_dir {
                    lemma_node_bytes(leaf, self.options());
                }
            }
            return false;
        }
        let info = FsEntryMetadata::from_csv_record(record);
        let name = match place.pop() {
            Some(name) => name,
            None => String::new(),
        };
        if is_dir {
            self.push_folder(name, info);
            true
        } else {
            self.push_file(name, info)
        }
    }

    /// Adds a folder to the last folder that is not complete.
    fn push_folder(&mut self, name: String, info: FsEntryMetadata)
        requires
            old(self).wf(),
            encode_utf8(name@).len() <= u16::MAX,
            info.is_dir,
            info.modified.valid(),
        ensures
            final(self).wf(),
            ({
                let before = old(self).state();
                let leaf = FsNode { name: name@, info: Some(info), children: seq![] };
                final(self).state() == (BuildState {
                    tree: insert_below(before.tree, before.depth, leaf),
                    depth: before.depth + 1,
                })
            }),
            final(self).options() == old(self).options(),
            final(self).prefix() == old(self).prefix(),
    {
        let ghost before = self.state@;
        let ghost tree = before.tree;
        let ghost depth = before.depth;
        let ghost options = self.options;
        let ghost leaf = FsNode { name: name@, info: Some(info), children: seq![] };
        let ghost after = BuildState { tree: insert_below(tree, depth, leaf), depth: depth + 1 };
        let ghost parents = self.parents@;
        let ghost size = self.index.size() as int;
        let folder = OpenFolder {
            name,
            info,
            entries: Vec::new(),
            ids: Vec::new(),
            files: 0,
            folders: 0,
            size: 0,
            allocated: 0,
            start: Ghost(size),
            ends: Ghost(Seq::empty()),
        };
        self.parents.push(folder);
        self.state = Ghost(after);
        proof {
            lemma_insert_spine(tree, depth, leaf);
            lemma_room_after_insert(tree, depth, leaf, options);
            let items = self.index.items();
            assert(finish_list(leaf.children, options) == Seq::<FsNode>::empty());
            assert(folder.holds(items, leaf.children, options, size)) by {
                reveal(OpenFolder::holds);
            }
            assert(spine(after.tree, 0).name == spine(tree, 0).name);
            lemma_insert_spine_ok(tree, depth, leaf);
            assert(spine_ok(after.tree, depth + 1)) by {
                assert forall|j: nat| j < depth + 1 implies (
                #[trigger] spine(after.tree, j)).children.len() > 0 by {
                    if j == depth {
                        assert(spine(after.tree, depth).children.len() > 0);
                    }
                }
                assert forall|j: nat| j <= depth + 1 implies (
                #[trigger] spine(after.tree, j)).is_folder() by {
                    if j <= depth {
                        assert(spine(after.tree, j).info == spine(tree, j).info);
                        assert(spine(tree, j).is_folder());
                    }
                }
            }
            assert forall|j: int| 0 <= j < self.parents@.len() implies {
                &&& (#[trigger] self.parents@[j]).name@ == spine(after.tree, j as nat).name
                &&& Some(self.parents@[j].info) == spine(after.tree, j as nat).info
                &&& encode_utf8(self.parents@[j].name@).len() <= u16::MAX
                &&& self.parents@[j].holds(
                    items,
                    closed_at(after, j as nat),
                    options,
                    limit_at(self.parents@, size, j),
                )
            } by {
                if j <= depth {
                    assert(self.parents@[j] == parents[j]);
                    assert(parents[j].name@ == spine(tree, j as nat).name);
                    assert(spine(after.tree, j as nat).name == spine(tree, j as nat).name);
                    if j == depth {
                        assert(spine(after.tree, depth).children.drop_last() == spine(
                            tree,
                            depth,
                        ).children);
                    }
                    assert(limit_at(self.parents@, size, j) == limit_at(parents, size, j));
                }
            }
        }
    }

    /// Adds a file to the last folder that is not complete. Returns `false` if
    /// there is no room for it.
    fn push_file(&mut self, name: String, info: FsEntryMetadata) -> (ok: bool)
        requires
            old(self).wf(),
            encode_utf8(name@).len() <= u16::MAX,
            !info.is_dir,
            info.children is None,
            info.modified.valid(),
        ensures
            ({
                let before = old(self).state();
                let leaf = FsNode { name: name@, info: Some(info), children: seq![] };
                let after = BuildState {
                    tree: insert_below(before.tree, before.depth, leaf),
                    depth: before.depth,
                };
                &&& ok == has_room(after, old(self).options())
                &&& ok ==> final(self).wf() && final(self).state() == after
            }),
            final(self).options() == old(self).options(),
            final(self).prefix() == old(self).prefix(),
    {
        let ghost before = self.state@;
        let ghost tree = before.tree;
        let ghost depth = before.depth;
        let ghost options = self.options;
        let ghost leaf = FsNode { name: name@, info: Some(info), children: seq![] };
        let ghost after = BuildState { tree: insert_below(tree, depth, leaf), depth };
        let ghost parents = self.parents@;
        let ghost old_index = self.index;
        let ghost list = spine(tree, depth).children;
        proof {
            lemma_insert_spine(tree, depth, leaf);
            lemma_room_after_insert(tree, depth, leaf, options);
            self.index.lemma_places();
            assert(parents[depth as int].name@ == spine(tree, depth).name);
            assert(closed_at(before, depth) == list);
            parents[depth as int].lemma_numbers(
                old_index.items(),
                list,
                options,
                old_index.size() as int,
            );
            lemma_stored_encoded(info);
            lemma_count_bytes(list, options);
            lemma_open_bytes_nonnegative(tree, depth, options);
        }
        let mut parent = match self.parents.pop() {
            Some(parent) => parent,
            None => {
                return false;
            },
        };
        let (_bytes, len) = info.to_ne_bytes();
        if self.index.byte_size() as u64 + len as u64 > 0xffff_ffff {
            return false;
        }
        if self.options.recalculate_folder_size {
            if parent.size > u64::MAX - info.size || parent.allocated > u64::MAX - info.allocated {
                return false;
            }
            parent.size = parent.size + info.size;
            parent.allocated = parent.allocated + info.allocated;
        }
        let id = self.index.add_file(info);
        parent.files = parent.files + 1;
        parent.entries.push((name, false));
        parent.ids.push(id);
        parent.ends = Ghost(parent.ends@.push(self.index.size() as int));
        self.parents.push(parent);
        self.state = Ghost(after);
        proof {
            let old_parent = parents[depth as int];
            let items = self.index.items();
            let done = finish(leaf, options);
            assert(parent.entries@.drop_last() == old_parent.entries@);
            assert(parent.ids@.drop_last() == old_parent.ids@);
            assert(items_kept(old_index.items(), items));
            assert(list.push(leaf).drop_last() == list);
            assert(tree_within(
                items,
                id.at(),
                done,
                old_index.size() as int,
                self.index.size() as int,
            )) by {
                let start = first_child(items, id.at());
                assert(items[id.at()].info() == info.stored());
                assert(list_places(items, start, done.children) == Set::<int>::empty());
                assert(info.encoded().len() > 0);
            }
            lemma_child_added(
                old_parent,
                parent,
                old_index.items(),
                items,
                list,
                leaf,
                options,
                old_index.size() as int,
                self.index.size() as int,
            );
            lemma_insert_spine_ok(tree, depth, leaf);
            lemma_parents_kept(
                parents,
                self.parents@,
                old_index,
                self.index,
                options,
                before,
                after,
            );
            assert(spine(after.tree, 0).name == spine(tree, 0).name);
            assert(depth == 0 ==> self.parents@[0] == parent);
            assert(depth > 0 ==> self.parents@[0] == parents[0]);
        }
        true
    }

    /// Completes all folders. Returns `None` if there is no room for them.
    pub fn finish(self) -> (result: Option<FsIndex>)
        requires
            self.wf(),
        ensures
            result is Some <==> can_finish(self.state().tree, self.options()),
            result matches Some(index) ==> {
                &&& index.wf()
                &&& index.rooted()
                &&& index.root_tree() == finish(self.state().tree, self.options())
            },
    {
        let mut this = self;
        let ghost tree = this.state@.tree;
        let ghost options = this.options;
        proof {
            assert(spine(tree, 0) == tree);
            assert(tree.is_folder()) by {
                assert(spine(tree, 0).is_folder());
            }
            if can_finish(tree, options) {
                lemma_room_before_finish(tree, options);
            }
        }
        if !this.close_until(0) {
            return None;
        }
        let ghost old_index = this.index;
        let ghost folder_view = this.parents@[0];
        proof {
            assert(folder_view.name@ == spine(tree, 0).name);
            assert(closed_at(this.state@, 0) == tree.children);
            folder_view.lemma_numbers(
                old_index.items(),
                tree.children,
                options,
                old_index.size() as int,
            );
            this.index.lemma_places();
        }
        let folder = match this.parents.pop() {
            Some(folder) => folder,
            None => {
                return None;
            },
        };
        let mut index = this.index;
        let id = match write_folder(&mut index, &folder, &this.options, Ghost(tree)) {
            Some(id) => id,
            None => {
                return None;
            },
        };
        let ghost written = index.items();
        this.root_id.set_metadata_id(Some(id), &mut index);
        index.shrink_to_fit();
        proof {
            let done = finish(tree, options);
            let items = index.items();
            assert(!meta_places(written, id.at(), done).contains(0));
            crate::fs_tree::lemma_meta_places_exist(written, id.at(), done);
            crate::fs_tree::lemma_meta_frame(written, items, id.at(), done);
            assert(items[0] == (Item::Path { meta: id.at() as u32, name: tree.name }));
            old_index.lemma_places();
            assert(path_holds(items, 0, done));
            assert(path_separated(items, 0, done));
            index.lemma_tree_is(0, done);
        }
        Some(index)
    }
}

/// After adding an entry, following last entries still leads to folders.
proof fn lemma_insert_spine_ok(tree: FsNode, depth: nat, leaf: FsNode)
    requires
        spine_ok(tree, depth),
    ensures
        spine_ok(insert_below(tree, depth, leaf), depth),
{
    let after = insert_below(tree, depth, leaf);
    lemma_insert_spine(tree, depth, leaf);
    assert forall|j: nat| j < depth implies (#[trigger] spine(after, j)).children.len() > 0 by {}
    assert forall|j: nat| j <= depth implies (#[trigger] spine(after, j)).is_folder() by {
        assert(spine(after, j).info == spine(tree, j).info);
        assert(spine(tree, j).is_folder());
    }
}

pub open spec fn record_views(records: Seq<WizTreeCsvRecord>) -> Seq<RecordView> {
    records.map_values(|record: WizTreeCsvRecord| record@)
}

/// The first error among some results.
pub open spec fn first_error<E>(records: Seq<Result<WizTreeCsvRecord, E>>) -> Option<E>
    decreases records.len(),
{
    if records.len() == 0 {
        None
    } else {
        match first_error(records.drop_last()) {
            Some(error) => Some(error),
            None => match records.last() {
                Ok(record) => None,
                Err(error) => Some(error),
            },
        }
    }
}

/// The records before the first error.
pub open spec fn records_before_error<E>(records: Seq<Result<WizTreeCsvRecord, E>>) -> Seq<
    RecordView,
>
    decreases records.len(),
{
    if records.len() == 0 {
        seq![]
    } else {
        let before = records_before_error(records.drop_last());
        match (first_error(records.drop_last()), records.last()) {
            (None, Ok(record)) => before.push(record@),
            _ => before,
        }
    }
}

/// Why no index could be made from a list of results.
#[derive(Debug, PartialEq, Eq)]
pub enum CsvIndexError<E> {
    /// There must be at least one record in a CSV for a filesystem index, i.e. the
    /// root entry.
    NoRecords,
    /// A record could not be read.
    Record(E),
}

impl FsIndex {
    /// Helper function that calls [`Self::from_csv_records_with_root`] using
    /// the first record as the root entry.
    pub fn from_csv_records(
        records: &Vec<WizTreeCsvRecord>,
        options: FsIndexBuildOptions<'_>,
    ) -> (index: Self)
        requires
            records@.len() > 0,
            built_tree(records@[0]@, record_views(records@), options) is Some,
        ensures
            index.wf(),
            index.rooted(),
            built_tree(records@[0]@, record_views(records@), options) == Some(index.root_tree()),
    {
        Self::from_csv_records_with_root(records, &records[0], options)
    }

    /// Construct a file index from WizTree CSV records.
    pub fn from_csv_records_with_root(
        records: &Vec<WizTreeCsvRecord>,
        root: &WizTreeCsvRecord,
        options: FsIndexBuildOptions<'_>,
    ) -> (index: Self)
        requires
            built_tree(root@, record_views(records@), options) is Some,
        ensures
            index.wf(),
            index.rooted(),
            built_tree(root@, record_views(records@), options) == Some(index.root_tree()),
    {
        match Self::checked_from_csv_records_with_root(records, root, options) {
            Some(index) => index,
            None => FsIndex::new(),
        }
    }

    /// Construct a file index from WizTree CSV records. Returns `None` if the
    /// records are not in the required order or do not fit in an index.
    pub fn checked_from_csv_records_with_root(
        records: &Vec<WizTreeCsvRecord>,
        root: &WizTreeCsvRecord,
        options: FsIndexBuildOptions<'_>,
    ) -> (result: Option<Self>)
        ensures
            result is Some <==> built_tree(root@, record_views(records@), options) is Some,
            result matches Some(index) ==> {
                &&& index.wf()
                &&& index.rooted()
                &&& built_tree(root@, record_views(records@), options) == Some(index.root_tree())
            },
    {
        let ghost list = record_views(records@);
        let mut builder = match FsIndexBuilder::new(root, options) {
            Some(builder) => builder,
            None => {
                proof {
                    lemma_no_start(root@, list, options, 0);
                }
                return None;
            },
        };
        let mut i: usize = 0;
        assert(list.take(0) == Seq::<RecordView>::empty());
        while i < records.len()
            invariant
                i <= records@.len(),
                list == record_views(records@),
                builder.wf(),
                builder.options() == options,
                builder.prefix() == prefix_len(root@),
                state_after(root@, list.take(i as int), options) == Some(builder.state()),
            decreases records@.len() - i,
        {
            proof {
                assert(list.take(i + 1).drop_last() == list.take(i as int));
                assert(list.take(i + 1).last() == records@[i as int]@);
            }
            if !builder.push(&records[i]) {
                proof {
                    lemma_no_start(root@, list, options, i + 1);
                }
                return None;
            }
            i = i + 1;
        }
        assert(list.take(i as int) == list);
        builder.finish()
    }

    /// Construct a file index from WizTree CSV records that might fail to be
    /// produced, with the first one as the root entry.
    ///
    /// # Errors
    ///
    /// - If there are no records.
    /// - If there are any errors then the first error is returned.
    pub fn try_from_csv_records<E>(
        records: Vec<Result<WizTreeCsvRecord, E>>,
        options: FsIndexBuildOptions<'_>,
    ) -> (result: Result<Self, CsvIndexError<E>>)
        requires
            records@.len() > 0 && records@[0] is Ok ==> built_tree(
                records@[0]->Ok_0@,
                records_before_error(records@),
                options,
            ) is Some,
        ensures
            records@.len() == 0 <==> result == Err::<Self, CsvIndexError<E>>(
                CsvIndexError::NoRecords,
            ),
            first_error(records@) matches Some(error) ==> result == Err::<Self, CsvIndexError<E>>(
                CsvIndexError::Record(error),
            ),
            result is Ok <==> records@.len() > 0 && first_error(records@) is None,
            result matches Ok(index) ==> {
                &&& index.wf()
                &&& index.rooted()
                &&& built_tree(
                    records@[0]->Ok_0@,
                    records_before_error(records@),
                    options,
                ) == Some(index.root_tree())
            },
    {
        if records.len() == 0 {
            return Err(CsvIndexError::NoRecords);
        }
        let root: WizTreeCsvRecord = match &records[0] {
            Ok(root) => copy_record(root),
            Err(_error) => {
                proof {
                    lemma_first_is_error(records@);
                }
                WizTreeCsvRecord::default()
            },
        };
        let (error, index) = Self::read_until_error(records, &root, options);
        match error {
            Some(error) => Err(CsvIndexError::Record(error)),
            None => {
                proof {
                    lemma_first_is_error(records@);
                }
                match index {
                    Some(index) => Ok(index),
                    None => Ok(FsIndex::new()),
                }
            },
        }
    }

    /// Construct a file index from WizTree CSV records that might fail to be
    /// produced.
    pub fn try_from_csv_records_with_root<E>(
        records: Vec<Result<WizTreeCsvRecord, E>>,
        root: &WizTreeCsvRecord,
        options: FsIndexBuildOptions<'_>,
    ) -> (result: Result<Self, E>)
        requires
            built_tree(root@, records_before_error(records@), options) is Some,
        ensures
            result is Ok <==> first_error(records@) is None,
            result matches Err(error) ==> first_error(records@) == Some(error),
            result matches Ok(index) ==> {
                &&& index.wf()
                &&& index.rooted()
                &&& built_tree(root@, records_before_error(records@), options) == Some(
                    index.root_tree(),
                )
            },
    {
        let (error, index) = Self::read_until_error(records, root, options);
        match error {
            Some(error) => Err(error),
            None => match index {
                Some(index) => Ok(index),
                None => Ok(FsIndex::new()),
            },
        }
    }

    /// The first error and the index of the records before it.
    fn read_until_error<E>(
        records: Vec<Result<WizTreeCsvRecord, E>>,
        root: &WizTreeCsvRecord,
        options: FsIndexBuildOptions<'_>,
    ) -> (result: (Option<E>, Option<FsIndex>))
        ensures
            result.0 == first_error(records@),
            result.1 is Some <==> built_tree(
                root@,
                records_before_error(records@),
                options,
            ) is Some,
            result.1 matches Some(index) ==> {
                &&& index.wf()
                &&& index.rooted()
                &&& built_tree(root@, records_before_error(records@), options) == Some(
                    index.root_tree(),
                )
            },
    {
        let ghost all = records@;
        let mut error: Option<E> = None;
        let mut builder: Option<FsIndexBuilder<'_>> = FsIndexBuilder::new(root, options);
        assert(all.take(0) == Seq::<Result<WizTreeCsvRecord, E>>::empty());
        for record in it: records.into_iter()
            invariant
                it.seq() == all,
                error == first_error(all.take(it.index() as int)),
                builder is Some <==> state_after(
                    root@,
                    records_before_error(all.take(it.index() as int)),
                    options,
                ) is Some,
                builder matches Some(b) ==> {
                    &&& b.wf()
                    &&& b.options() == options
                    &&& b.prefix() == prefix_len(root@)
                    &&& state_after(
                        root@,
                        records_before_error(all.take(it.index() as int)),
                        options,
                    ) == Some(b.state())
                },
        {
            let ghost n = it.index() as int;
            proof {
                assert(all.take(n + 1).drop_last() == all.take(n));
                assert(all.take(n + 1).last() == record);
            }
            let ghost before = records_before_error(all.take(n));
            match record {
                Ok(record) => {
                    proof {
                        assert(before.push(record@).drop_last() == before);
                    }
                    if error.is_none() {
                        builder = match builder {
                            Some(b) => {
                                let mut b = b;
                                if b.push(&record) {
                                    Some(b)
                                } else {
                                    None
                                }
                            },
                            None => None,
                        };
                    }
                },
                Err(e) => {
                    if error.is_none() {
                        error = Some(e);
                    }
                },
            }
        }
        assert(all.take(all.len() as int) == all);
        let index = match builder {
            Some(b) => b.finish(),
            None => None,
        };
        (error, index)
    }
}

/// A copy of a record.
pub(crate) fn copy_record(record: &WizTreeCsvRecord) -> (copy: WizTreeCsvRecord)
    ensures
        copy@ == record@,
{
    WizTreeCsvRecord {
        file_name: record.file_name.clone(),
        size: record.size,
        allocated: record.allocated,
        modified: record.modified,
        attributes: record.attributes,
        files: record.files,
        folders: record.folders,
        drive_capacity: record.drive_capacity,
        free_space: record.free_space,
        used_space: record.used_space,
        reserved_space: record.reserved_space,
    }
}

/// Once records can't be read, no more records change that.
proof fn lemma_no_start(
    root: RecordView,
    records: Seq<RecordView>,
    options: FsIndexBuildOptions<'_>,
    k: int,
)
    requires
        0 <= k <= records.len(),
        state_after(root, records.take(k), options) is None,
    ensures
        state_after(root, records, options) is None,
    decreases records.len(),
{
    if k < records.len() {
        assert(records.drop_last().take(k) == records.take(k));
        lemma_no_start(root, records.drop_last(), options, k);
    } else {
        assert(records.take(k) == records);
    }
}

/// If the first result is an error then it is the first error.
proof fn lemma_first_is_error<E>(records: Seq<Result<WizTreeCsvRecord, E>>)
    requires
        records.len() > 0,
    ensures
        records[0] is Err ==> first_error(records) == Some(records[0]->Err_0),
    decreases records.len(),
{
    if records.len() > 1 {
        lemma_first_is_error(records.drop_last());
        assert(records.drop_last()[0] == records[0]);
    } else {
        assert(first_error(records.drop_last()) is None);
    }
}

/// The first error among results is the one that is reported, and the records in front of
/// it are those that are read, all of them and in order.
pub proof fn law_records_before_the_first_error_are_read<E>(
    records: Seq<Result<WizTreeCsvRecord, E>>,
    n: int,
    i: int,
)
    requires
        0 <= n <= records.len(),
        forall|k: int| 0 <= k < n ==> (#[trigger] records[k]) is Ok,
        n < records.len() ==> records[n] is Err,
    ensures
        n == records.len() ==> first_error(records) is None,
        n < records.len() ==> first_error(records) == Some(records[n]->Err_0),
        records_before_error(records).len() == n,
        0 <= i < n ==> records_before_error(records)[i] == records[i]->Ok_0@,
    decreases records.len(),
{
    if records.len() > 0 {
        let rest = records.drop_last();
        let m = if n < records.len() {
            n
        } else {
            n - 1
        };
        assert forall|k: int| 0 <= k < m implies (#[trigger] rest[k]) is Ok by {
            assert(rest[k] == records[k]);
        }
        if m < rest.len() {
            assert(rest[m] == records[m]);
        }
        law_records_before_the_first_error_are_read(rest, m, i);
        assert(records[records.len() - 1] == records.last());
        if 0 <= i < m {
            assert(rest[i] == records[i]);
        }
    }
}

} // verus!
