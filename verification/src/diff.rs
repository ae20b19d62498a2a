//! What is new or changed in a snapshot compared to an older one.
use vstd::prelude::*;

use crate::file_type::{
    csv_input, is_csv_input, resolved_type, BackupFileType, CsvInput, CsvInputError,
};
use crate::fs_cursor::{meta_of, FsCursor};
use crate::fs_export::{entry_path, lemma_folder_of_tree};
use crate::fs_index::{
    first_child, is_meta, is_path, lemma_nth_path_same, nth_path, FsEntry, FsEntryId, FsIndex, Item,
};
use crate::fs_lookup::{find_node, lemma_find_entry};
use crate::fs_tree::{
    lemma_list_from_each, lemma_list_has_place, lemma_list_place_of, lemma_path_frame,
    lemma_path_places_exist, lemma_separated_from_each, lemma_take_all, list_holds, list_places,
    list_separated, meta_holds, meta_places, meta_separated, path_holds, path_places,
    path_separated, same_items, FsNode,
};
use crate::logging::CommonOpt;
use crate::metadata::FsEntryMetadata;
use crate::metadata_bytes::{law_smaller_numbers_can_be_stored, lemma_decoded_time, only_smaller};
use crate::output::OutputOpts;
use crate::text::{segments, starts_with, DEFAULT_PATH_SEPARATOR};

verus! {

/// How entries of an old and a new snapshot are compared.
#[derive(Debug, Clone, Copy, PartialEq, Eq, PartialOrd, Ord, Structural)]
pub enum DiffFilter {
    /// The size of files in the diff reflects the increase in disk usage, i.e. the
    /// sizes of modified files is set to the difference in their size from the old
    /// to the new snapshot.
    NewOrLarger,
    /// Keep entries unmodified from the new snapshot but remove entries that exactly
    /// match existing entries in the old snapshot.
    NewOrChanged,
}

/// Options for comparing two backups.
#[derive(Debug)]
pub struct DiffOpts {
    pub common: CommonOpt,
    pub output: OutputOpts,
    pub filter: DiffFilter,
    pub old_file_type: BackupFileType,
    pub new_file_type: BackupFileType,
}

impl DiffOpts {
    /// Decides how a backup is read whose type was guessed from its name.
    pub fn load_backup_file(file_type: BackupFileType, guessed: Option<BackupFileType>) -> (input:
        Result<CsvInput, CsvInputError>)
        ensures
            is_csv_input(input, resolved_type(file_type, guessed)),
    {
        csv_input(file_type, guessed)
    }
}

/// The metadata in the old snapshot of the entry with the given path, which starts
/// with a separator for the root.
pub open spec fn old_metadata(old: Option<FsNode>, path: Seq<char>) -> Option<FsEntryMetadata> {
    match old {
        Some(tree) => match find_node(tree, segments(path.skip(1)), false) {
            Some(node) => node.info,
            None => None,
        },
        None => None,
    }
}

/// What is kept of a file, `None` if it is left out.
pub open spec fn filtered_file(
    info: FsEntryMetadata,
    old: Option<FsEntryMetadata>,
    filter: DiffFilter,
) -> Option<FsEntryMetadata> {
    match old {
        Some(old) => match filter {
            DiffFilter::NewOrLarger => if info.size > old.size {
                Some(
                    FsEntryMetadata {
                        size: (info.size - old.size) as u64,
                        allocated: if info.allocated > old.allocated {
                            (info.allocated - old.allocated) as u64
                        } else {
                            0
                        },
                        ..info
                    },
                )
            } else {
                None
            },
            DiffFilter::NewOrChanged => if info == old {
                None
            } else {
                Some(info)
            },
        },
        None => Some(info),
    }
}

/// Sums over the entries of a folder that have metadata.
#[verifier::ext_equal]
pub struct KeptSums {
    pub entries: nat,
    pub size: nat,
    pub allocated: nat,
    pub files: nat,
    pub folders: nat,
}

pub open spec fn kept_sums(list: Seq<FsNode>) -> KeptSums
    decreases list.len(),
{
    if list.len() == 0 {
        KeptSums { entries: 0, size: 0, allocated: 0, files: 0, folders: 0 }
    } else {
        let rest = kept_sums(list.drop_last());
        match list.last().info {
            Some(info) => KeptSums {
                entries: rest.entries + 1,
                size: rest.size + info.size as nat,
                allocated: rest.allocated + info.allocated as nat,
                files: rest.files + if info.is_dir {
                    info.files as nat
                } else {
                    1
                },
                folders: rest.folders + if info.is_dir {
                    1 + info.folders as nat
                } else {
                    0
                },
            },
            None => rest,
        }
    }
}

pub open spec fn smaller(value: u64, limit: nat) -> u64 {
    if value <= limit {
        value
    } else {
        limit as u64
    }
}

/// Whether a folder is left out if nothing of it is kept. Its metadata is compared as
/// it was before its contents were filtered.
pub open spec fn drops_empty(
    info: FsEntryMetadata,
    old: Option<FsEntryMetadata>,
    filter: DiffFilter,
) -> bool {
    match old {
        Some(old) => match filter {
            DiffFilter::NewOrLarger => true,
            DiffFilter::NewOrChanged => info == old,
        },
        None => false,
    }
}

/// The metadata of a folder whose contents are the kept ones. Numbers never grow.
pub open spec fn limited(info: FsEntryMetadata, sums: KeptSums) -> FsEntryMetadata {
    FsEntryMetadata {
        size: smaller(info.size, sums.size),
        allocated: smaller(info.allocated, sums.allocated),
        files: smaller(info.files, sums.files),
        folders: smaller(info.folders, sums.folders),
        ..info
    }
}

/// A folder whose contents are the kept ones, without metadata if it is left out.
pub open spec fn finished_folder(
    node: FsNode,
    path: Seq<char>,
    is_root: bool,
    old: Option<FsNode>,
    filter: DiffFilter,
) -> FsNode {
    let info = node.info->0;
    let sums = kept_sums(node.children);
    if sums.entries == 0 && !is_root && drops_empty(info, old_metadata(old, path), filter) {
        FsNode { name: node.name, info: None, children: seq![] }
    } else {
        FsNode { info: Some(limited(info, sums)), ..node }
    }
}

/// What is kept of a tree with the given full path. Entries that are left out have
/// no metadata.
pub open spec fn filtered(
    node: FsNode,
    path: Seq<char>,
    is_root: bool,
    old: Option<FsNode>,
    filter: DiffFilter,
) -> FsNode
    decreases node, 1nat,
{
    match node.info {
        None => node,
        Some(info) => if info.is_dir {
            let children = filtered_list(node.children, path, old, filter);
            finished_folder(FsNode { children, ..node }, path, is_root, old, filter)
        } else {
            FsNode { info: filtered_file(info, old_metadata(old, path), filter), ..node }
        },
    }
}

pub open spec fn filtered_list(
    list: Seq<FsNode>,
    folder: Seq<char>,
    old: Option<FsNode>,
    filter: DiffFilter,
) -> Seq<FsNode>
    decreases list, 2nat,
{
    if list.len() == 0 {
        seq![]
    } else {
        let last = list.last();
        let path = entry_path(folder, last.name, last.is_folder(), DEFAULT_PATH_SEPARATOR, false);
        filtered_list(list.drop_last(), folder, old, filter).push(
            filtered(last, path, false, old, filter),
        )
    }
}

/// The tree that entries are searched in.
pub open spec fn searched_tree(index: FsIndex) -> Option<FsNode> {
    if index.spec_root() is Some && index.root_tree().is_folder() {
        Some(index.root_tree())
    } else {
        None
    }
}

pub proof fn lemma_filtered_list(
    list: Seq<FsNode>,
    folder: Seq<char>,
    old: Option<FsNode>,
    filter: DiffFilter,
)
    ensures
        filtered_list(list, folder, old, filter).len() == list.len(),
        forall|i: int|
            0 <= i < list.len() ==> #[trigger] filtered_list(list, folder, old, filter)[i]
                == filtered(
                list[i],
                entry_path(
                    folder,
                    list[i].name,
                    list[i].is_folder(),
                    DEFAULT_PATH_SEPARATOR,
                    false,
                ),
                false,
                old,
                filter,
            ),
    decreases list.len(),
{
    if list.len() > 0 {
        lemma_filtered_list(list.drop_last(), folder, old, filter);
        assert forall|i: int| 0 <= i < list.len() implies #[trigger] filtered_list(
            list,
            folder,
            old,
            filter,
        )[i] == filtered(
            list[i],
            entry_path(folder, list[i].name, list[i].is_folder(), DEFAULT_PATH_SEPARATOR, false),
            false,
            old,
            filter,
        ) by {
            if i < list.len() - 1 {
                let rest = list.drop_last();
                assert(rest[i] == list[i]);
                assert(filtered_list(rest, folder, old, filter)[i] == filtered(
                    rest[i],
                    entry_path(
                        folder,
                        rest[i].name,
                        rest[i].is_folder(),
                        DEFAULT_PATH_SEPARATOR,
                        false,
                    ),
                    false,
                    old,
                    filter,
                ));
            }
        }
    }
}

/// Whether only items at some places differ, and only in ways that move nothing.
spec fn changed_within(a: Map<int, Item>, b: Map<int, Item>, places: Set<int>) -> bool {
    &&& forall|p: int| a.contains_key(p) == #[trigger] b.contains_key(p)
    &&& forall|p: int| #[trigger] a.contains_key(p) && !places.contains(p) ==> b[p] == a[p]
    &&& forall|p: int| #[trigger]
        a.contains_key(p) ==> {
            &&& b[p].len() == a[p].len()
            &&& a[p] is Path ==> b[p] is Path && b[p]->name == a[p]->name
            &&& a[p] is Meta ==> b[p] is Meta && b[p].info().children == a[p].info().children
                && b[p].info().is_dir == a[p].info().is_dir
        }
}

/// Whether paths that follow each other are the given trees and these share no
/// place.
spec fn each_ok(items: Map<int, Item>, start: int, list: Seq<FsNode>) -> bool {
    &&& forall|i: int|
        0 <= i < list.len() ==> {
            let p = nth_path(items, start, i as nat);
            path_holds(items, p, #[trigger] list[i]) && path_separated(items, p, list[i])
        }
    &&& forall|i: int, j: int|
        #![trigger list[i], list[j]]
        0 <= i < j < list.len() ==> path_places(
            items,
            nth_path(items, start, i as nat),
            list[i],
        ).disjoint(path_places(items, nth_path(items, start, j as nat), list[j]))
}

proof fn lemma_each_from_list(items: Map<int, Item>, start: int, list: Seq<FsNode>)
    requires
        list_holds(items, start, list),
        list_separated(items, start, list),
    ensures
        each_ok(items, start, list),
    decreases list.len(),
{
    if list.len() > 0 {
        let rest = list.drop_last();
        let last = list.len() - 1;
        lemma_each_from_list(items, start, rest);
        assert forall|i: int| 0 <= i < list.len() implies {
            let p = nth_path(items, start, i as nat);
            path_holds(items, p, #[trigger] list[i]) && path_separated(items, p, list[i])
        } by {
            if i < last {
                assert(rest[i] == list[i]);
            }
        }
        assert forall|i: int, j: int|
            #![trigger list[i], list[j]]
            0 <= i < j < list.len() implies path_places(
            items,
            nth_path(items, start, i as nat),
            list[i],
        ).disjoint(path_places(items, nth_path(items, start, j as nat), list[j])) by {
            assert(rest[i] == list[i]);
            if j < last {
                assert(rest[j] == list[j]);
            } else {
                lemma_list_has_place(items, start, rest, i);
            }
        }
    }
}

proof fn lemma_list_from_each_ok(items: Map<int, Item>, start: int, list: Seq<FsNode>)
    requires
        each_ok(items, start, list),
    ensures
        list_holds(items, start, list),
        list_separated(items, start, list),
{
    lemma_list_from_each(items, start, list);
    lemma_separated_from_each(items, start, list);
}

/// Changes that move nothing leave the paths where they are.
proof fn lemma_changed_paths(
    a: Map<int, Item>,
    b: Map<int, Item>,
    places: Set<int>,
    start: int,
    list: Seq<FsNode>,
)
    requires
        changed_within(a, b, places),
        each_ok(a, start, list),
    ensures
        forall|i: nat| i <= list.len() ==> #[trigger] nth_path(b, start, i) == nth_path(a, start, i),
{
    assert forall|i: nat| i < list.len() implies is_path(a, #[trigger] nth_path(a, start, i)) by {
        let k = i as int;
        assert(path_holds(a, nth_path(a, start, k as nat), list[k]));
    }
    assert forall|o: int| #[trigger] is_path(a, o) implies is_path(b, o) && b[o].len()
        == a[o].len() by {
        assert(a.contains_key(o) == b.contains_key(o));
    }
    lemma_nth_path_same(a, b, start, list.len());
}

/// Changing one of several trees.
proof fn lemma_one_changed(
    a: Map<int, Item>,
    b: Map<int, Item>,
    start: int,
    list: Seq<FsNode>,
    i: int,
    node: FsNode,
)
    requires
        each_ok(a, start, list),
        0 <= i < list.len(),
        ({
            let p = nth_path(a, start, i as nat);
            let places = path_places(a, p, list[i]);
            &&& changed_within(a, b, places)
            &&& path_holds(b, p, node)
            &&& path_separated(b, p, node)
            &&& path_places(b, p, node).subset_of(places)
        }),
    ensures
        each_ok(b, start, list.update(i, node)),
        forall|k: nat| k < list.len() ==> #[trigger] nth_path(b, start, k) == nth_path(a, start, k),
        forall|k: int|
            0 <= k < list.len() ==> path_places(
                b,
                nth_path(a, start, k as nat),
                list.update(i, node)[k],
            ).subset_of(path_places(a, nth_path(a, start, k as nat), #[trigger] list[k])),
{
    let p = nth_path(a, start, i as nat);
    let places = path_places(a, p, list[i]);
    let after = list.update(i, node);
    lemma_changed_paths(a, b, places, start, list);
    assert forall|k: int| 0 <= k < list.len() implies {
        let q = nth_path(a, start, k as nat);
        &&& nth_path(b, start, k as nat) == q
        &&& path_holds(b, q, after[k])
        &&& path_separated(b, q, after[k])
        &&& path_places(b, q, after[k]).subset_of(path_places(a, q, #[trigger] list[k]))
    } by {
        let q = nth_path(a, start, k as nat);
        assert(nth_path(b, start, k as nat) == q);
        if k != i {
            let own = path_places(a, q, list[k]);
            assert(path_holds(a, q, list[k]));
            assert(own.disjoint(places)) by {
                if k < i {
                    assert(path_places(a, q, list[k]).disjoint(path_places(a, p, list[i])));
                } else {
                    assert(path_places(a, p, list[i]).disjoint(path_places(a, q, list[k])));
                }
            }
            lemma_path_places_exist(a, q, list[k]);
            assert(same_items(a, b, own)) by {
                assert forall|x: int| #[trigger] own.contains(x) implies b.contains_key(x) && b[x]
                    == a[x] by {
                    assert(a.contains_key(x) == b.contains_key(x));
                }
            }
            lemma_path_frame(a, b, q, list[k]);
        }
    }
    assert forall|k: int| 0 <= k < after.len() implies {
        let q = nth_path(b, start, k as nat);
        path_holds(b, q, #[trigger] after[k]) && path_separated(b, q, after[k])
    } by {
        assert(list[k] == list[k]);
    }
    assert forall|x: int, y: int|
        #![trigger after[x], after[y]]
        0 <= x < y < after.len() implies path_places(
        b,
        nth_path(b, start, x as nat),
        after[x],
    ).disjoint(path_places(b, nth_path(b, start, y as nat), after[y])) by {
        let px = path_places(a, nth_path(a, start, x as nat), list[x]);
        let py = path_places(a, nth_path(a, start, y as nat), list[y]);
        assert(px.disjoint(py));
        let qx = path_places(b, nth_path(a, start, x as nat), after[x]);
        let qy = path_places(b, nth_path(a, start, y as nat), after[y]);
        assert(qx.subset_of(px) && qy.subset_of(py));
        assert forall|v: int| qx.contains(v) implies !qy.contains(v) by {
            assert(px.contains(v));
        }
    }
}

/// Search for the entries of an old snapshot.
struct OldSearch<'a> {
    index: &'a FsIndex,
    cursor: FsCursor,
}

impl<'a> OldSearch<'a> {
    spec fn wf(self) -> bool {
        let items = self.index.items();
        let view = self.cursor@;
        &&& self.index.wf()
        &&& self.index.spec_root() is Some ==> self.index.rooted()
        &&& self.cursor.wf(items)
        &&& !view.case_sensitive
        &&& view.frames.len() == 0 <==> searched_tree(*self.index) is None
        &&& view.frames.len() > 0 ==> {
            &&& view.frames[0].path == "/"@
            &&& view.frames[0].id == self.index.spec_root()->0.at()
            &&& view.first_matches(items)
        }
    }

    fn new(index: &'a FsIndex) -> (search: Self)
        requires
            index.wf(),
            index.spec_root() is Some ==> index.rooted(),
        ensures
            search.wf(),
            search.index == index,
    {
        let mut cursor = FsCursor::new(DEFAULT_PATH_SEPARATOR);
        proof {
            reveal_strlit("/");
            assert(cursor.wf(index.items()));
        }
        if let Some(root) = index.root() {
            proof {
                let tree = index.root_tree();
                assert(index.holds(root.at(), tree));
                index.lemma_places();
                lemma_folder_of_tree(index.items(), root.at(), tree);
            }
            cursor.set_root(root, Some("/"), index);
        }
        OldSearch { index, cursor }
    }

    /// The metadata of the entry with the given path.
    fn find(&mut self, path: &str) -> (info: Option<FsEntryMetadata>)
        requires
            old(self).wf(),
            starts_with(path@, "/"@),
        ensures
            final(self).wf(),
            final(self).index == old(self).index,
            info == old_metadata(searched_tree(*old(self).index), path@),
    {
        let ghost items = self.index.items();
        let ghost before = self.cursor@;
        let ghost tree = self.index.root_tree();
        let ghost root = self.index.spec_root()->0.at();
        let ghost names = segments(path@.skip(1));
        proof {
            reveal_strlit("/");
            self.index.lemma_places();
            self.cursor.lemma_current_ok(items);
            if before.frames.len() > 0 {
                assert(before.frames[0].path.len() == 1);
                before.lemma_went_to(items, path@);
                assert(self.index.holds(root, tree));
                lemma_find_entry(items, root, tree, names, false);
            }
        }
        let found = self.cursor.go_to_path(path, self.index);
        proof {
            self.cursor.lemma_current_ok(items);
        }
        if !found {
            return None;
        }
        let id = match self.cursor.current_id() {
            Some(id) => id,
            None => {
                return None;
            },
        };
        match id.load_metadata(self.index) {
            Some(entry) => {
                proof {
                    entry.lemma_loaded(items, meta_of(items, id.at()));
                }
                Some(*entry.metadata())
            },
            None => None,
        }
    }
}

/// What a changed subtree looks like.
spec fn subtree_changed(
    a: FsIndex,
    b: FsIndex,
    at: int,
    before: FsNode,
    after: FsNode,
) -> bool {
    let places = path_places(a.items(), at, before);
    &&& b.wf()
    &&& b.spec_root() == a.spec_root()
    &&& changed_within(a.items(), b.items(), places)
    &&& path_holds(b.items(), at, after)
    &&& path_separated(b.items(), at, after)
    &&& path_places(b.items(), at, after).subset_of(places)
}

/// Removes the metadata of an entry.
fn remove_entry(new: &mut FsIndex, id: FsEntryId, node: Ghost<FsNode>)
    requires
        old(new).wf(),
        path_holds(old(new).items(), id.at(), node@),
    ensures
        subtree_changed(
            *old(new),
            *final(new),
            id.at(),
            node@,
            FsNode { name: node@.name, info: None, children: seq![] },
        ),
{
    id.set_metadata_id(None, new);
}

/// Replaces the metadata of an entry by metadata with smaller numbers.
fn shrink_entry(
    new: &mut FsIndex,
    entry: &FsEntry,
    info: FsEntryMetadata,
    id: Ghost<FsEntryId>,
    node: Ghost<FsNode>,
)
    requires
        old(new).wf(),
        path_holds(old(new).items(), id@.at(), node@),
        path_separated(old(new).items(), id@.at(), node@),
        node@.info is Some,
        entry.loaded(old(new).items(), meta_of(old(new).items(), id@.at())),
        only_smaller(info, node@.info->0),
        !info.is_dir ==> info.files == node@.info->0.files,
        !info.is_dir ==> info.folders == node@.info->0.folders,
    ensures
        subtree_changed(
            *old(new),
            *final(new),
            id@.at(),
            node@,
            FsNode { info: Some(info), ..node@ },
        ),
{
    let ghost items = new.items();
    let ghost at = id@.at();
    let ghost meta = meta_of(items, at);
    let ghost bytes = items[meta]->bytes;
    proof {
        new.lemma_places();
        entry.lemma_loaded(items, meta);
        assert(items.contains_key(meta));
        lemma_decoded_time(bytes);
        law_smaller_numbers_can_be_stored(info, bytes);
        assert(info.stored() == info);
    }
    let result = entry.update_metadata(info, new);
    proof {
        let changed = new.items();
        let after = FsNode { info: Some(info), ..node@ };
        let start = first_child(items, meta);
        let inside = list_places(items, start, node@.children);
        assert(path_places(items, at, node@).contains(meta));
        if node@.children.len() > 0 {
            crate::fs_tree::lemma_list_places_exist(items, start, node@.children);
            assert(same_items(items, changed, inside));
            crate::fs_tree::lemma_list_frame(items, changed, start, node@.children);
        }
        assert(list_places(changed, start, after.children) == inside);
        assert(list_separated(changed, start, after.children));
        assert(changed_within(items, changed, path_places(items, at, node@)));
    }
}

/// Sums of unsigned numbers that stay at the largest number.
spec fn capped(n: nat) -> u64 {
    if n <= u64::MAX {
        n as u64
    } else {
        u64::MAX
    }
}

/// Sums over the entries of a folder that have metadata, each at most the largest
/// number.
struct EntrySums {
    /// Whether there is such an entry.
    any: bool,
    size: u64,
    allocated: u64,
    files: u64,
    folders: u64,
}

fn sum_entries(new: &FsIndex, ids: &Vec<FsEntryId>, list: Ghost<Seq<FsNode>>) -> (sums: EntrySums)
    requires
        new.wf(),
        ids@.len() == list@.len(),
        forall|i: int|
            0 <= i < ids@.len() ==> path_holds(new.items(), (#[trigger] ids@[i]).at(), list@[i]),
    ensures
        sums.any == (kept_sums(list@).entries > 0),
        sums.size == capped(kept_sums(list@).size),
        sums.allocated == capped(kept_sums(list@).allocated),
        sums.files == capped(kept_sums(list@).files),
        sums.folders == capped(kept_sums(list@).folders),
{
    let mut size: u64 = 0;
    let mut allocated: u64 = 0;
    let mut files: u64 = 0;
    let mut folders: u64 = 0;
    let mut any: bool = false;
    let mut i: usize = 0;
    assert(list@.take(0) == Seq::<FsNode>::empty());
    while i < ids.len()
        invariant
            i <= ids@.len(),
            new.wf(),
            ids@.len() == list@.len(),
            forall|k: int|
                0 <= k < ids@.len() ==> path_holds(
                    new.items(),
                    (#[trigger] ids@[k]).at(),
                    list@[k],
                ),
            any == (kept_sums(list@.take(i as int)).entries > 0),
            size == capped(kept_sums(list@.take(i as int)).size),
            allocated == capped(kept_sums(list@.take(i as int)).allocated),
            files == capped(kept_sums(list@.take(i as int)).files),
            folders == capped(kept_sums(list@.take(i as int)).folders),
        decreases ids@.len() - i,
    {
        let id = ids[i];
        proof {
            assert(path_holds(new.items(), ids@[i as int].at(), list@[i as int]));
            assert(list@.take(i + 1).drop_last() == list@.take(i as int));
            assert(list@.take(i + 1).last() == list@[i as int]);
        }
        if let Some(entry) = id.load_metadata(new) {
            proof {
                entry.lemma_loaded(new.items(), meta_of(new.items(), id.at()));
            }
            let info = entry.metadata();
            any = true;
            size = size.saturating_add(info.size);
            allocated = allocated.saturating_add(info.allocated);
            if info.is_dir {
                folders = folders.saturating_add(1).saturating_add(info.folders);
                files = files.saturating_add(info.files);
            } else {
                files = files.saturating_add(1);
            }
        }
        i = i + 1;
    }
    proof {
        assert(i == list@.len());
        lemma_take_all(list@);
    }
    EntrySums { any, size, allocated, files, folders }
}

fn lower(a: u64, b: u64) -> (low: u64)
    ensures
        low == if a <= b {
            a
        } else {
            b
        },
{
    if a <= b {
        a
    } else {
        b
    }
}

/// Filters the file with the given path.
fn filter_file(
    search: &mut OldSearch<'_>,
    new: &mut FsIndex,
    id: FsEntryId,
    entry: &FsEntry,
    path: &str,
    filter: DiffFilter,
    node: Ghost<FsNode>,
)
    requires
        old(search).wf(),
        old(new).wf(),
        path_holds(old(new).items(), id.at(), node@),
        path_separated(old(new).items(), id.at(), node@),
        entry.loaded(old(new).items(), meta_of(old(new).items(), id.at())),
        node@.info matches Some(info) && !info.is_dir,
        starts_with(path@, "/"@),
    ensures
        final(search).wf(),
        final(search).index == old(search).index,
        subtree_changed(
            *old(new),
            *final(new),
            id.at(),
            node@,
            filtered(node@, path@, false, searched_tree(*old(search).index), filter),
        ),
{
    let ghost items = new.items();
    proof {
        new.lemma_places();
        entry.lemma_loaded(items, meta_of(items, id.at()));
        lemma_folder_of_tree(items, id.at(), node@);
        assert(node@.children == Seq::<FsNode>::empty());
    }
    let info: FsEntryMetadata = *entry.metadata();
    if let Some(old_info) = search.find(path) {
        match filter {
            DiffFilter::NewOrLarger => {
                if info.size > old_info.size {
                    let smaller_info = FsEntryMetadata {
                        size: info.size - old_info.size,
                        allocated: info.allocated.saturating_sub(old_info.allocated),
                        ..info
                    };
                    shrink_entry(new, entry, smaller_info, Ghost(id), node);
                } else {
                    remove_entry(new, id, node);
                }
            },
            DiffFilter::NewOrChanged => {
                if info == old_info {
                    remove_entry(new, id, node);
                }
            },
        }
    }
}

/// Whether entries that follow each other were changed from the first list of trees
/// to the second.
#[verifier::opaque]
spec fn list_changed(
    a: Map<int, Item>,
    b: Map<int, Item>,
    start: int,
    before: Seq<FsNode>,
    after: Seq<FsNode>,
) -> bool {
    &&& after.len() == before.len()
    &&& each_ok(b, start, after)
    &&& changed_within(a, b, list_places(a, start, before))
    &&& forall|k: nat| k < before.len() ==> #[trigger] nth_path(b, start, k) == nth_path(a, start, k)
    &&& forall|k: int|
        0 <= k < before.len() ==> path_places(
            b,
            nth_path(a, start, k as nat),
            after[k],
        ).subset_of(path_places(a, nth_path(a, start, k as nat), #[trigger] before[k]))
}

proof fn lemma_list_unchanged(a: Map<int, Item>, start: int, list: Seq<FsNode>)
    requires
        list_holds(a, start, list),
        list_separated(a, start, list),
    ensures
        list_changed(a, a, start, list, list),
{
    reveal(list_changed);
    lemma_each_from_list(a, start, list);
}

/// What one tree of a changed list looks like.
proof fn lemma_list_changed_one(
    a: Map<int, Item>,
    b: Map<int, Item>,
    start: int,
    before: Seq<FsNode>,
    after: Seq<FsNode>,
    i: int,
)
    requires
        list_changed(a, b, start, before, after),
        0 <= i < before.len(),
    ensures
        after.len() == before.len(),
        path_holds(b, nth_path(a, start, i as nat), after[i]),
        path_separated(b, nth_path(a, start, i as nat), after[i]),
{
    reveal(list_changed);
    assert(before[i] == before[i]);
    assert(after[i] == after[i]);
}

proof fn lemma_list_changed_step(
    a: Map<int, Item>,
    b: FsIndex,
    c: FsIndex,
    start: int,
    before: Seq<FsNode>,
    middle: Seq<FsNode>,
    i: int,
    node: FsNode,
)
    requires
        list_holds(a, start, before),
        list_changed(a, b.items(), start, before, middle),
        0 <= i < before.len(),
        subtree_changed(b, c, nth_path(a, start, i as nat), middle[i], node),
    ensures
        list_changed(a, c.items(), start, before, middle.update(i, node)),
{
    reveal(list_changed);
    let p = nth_path(a, start, i as nat);
    let places = list_places(a, start, before);
    let inside = path_places(b.items(), p, middle[i]);
    assert(before[i] == before[i]);
    lemma_one_changed(b.items(), c.items(), start, middle, i, node);
    lemma_list_has_place(a, start, before, i);
    assert(inside.subset_of(path_places(a, p, before[i])));
    assert(inside.subset_of(places));
    lemma_changed_twice(a, b.items(), c.items(), places, inside);
    let after = middle.update(i, node);
    assert forall|k: nat| k < before.len() implies #[trigger] nth_path(c.items(), start, k)
        == nth_path(a, start, k) by {
        let m = middle[k as int];
        assert(nth_path(c.items(), start, k) == nth_path(b.items(), start, k));
    }
    assert forall|k: int| 0 <= k < before.len() implies path_places(
        c.items(),
        nth_path(a, start, k as nat),
        after[k],
    ).subset_of(path_places(a, nth_path(a, start, k as nat), #[trigger] before[k])) by {
        let q = nth_path(a, start, k as nat);
        assert(path_places(b.items(), q, middle[k]).subset_of(path_places(a, q, before[k])));
        assert(path_places(c.items(), q, after[k]).subset_of(
            path_places(b.items(), q, middle[k]),
        ));
    }
}

/// Filters the entries of the folder with the given path.
#[verifier::spinoff_prover]
fn filter_entries(
    search: &mut OldSearch<'_>,
    new: &mut FsIndex,
    ids: &Vec<FsEntryId>,
    folder: &str,
    filter: DiffFilter,
    start: Ghost<int>,
    list: Ghost<Seq<FsNode>>,
)
    requires
        old(search).wf(),
        old(new).wf(),
        list_holds(old(new).items(), start@, list@),
        list_separated(old(new).items(), start@, list@),
        starts_with(folder@, "/"@),
        ids@.len() == list@.len(),
        forall|k: int|
            0 <= k < ids@.len() ==> (#[trigger] ids@[k]).at() == nth_path(
                old(new).items(),
                start@,
                k as nat,
            ),
    ensures
        final(search).wf(),
        final(search).index == old(search).index,
        final(new).wf(),
        final(new).spec_root() == old(new).spec_root(),
        list_changed(
            old(new).items(),
            final(new).items(),
            start@,
            list@,
            filtered_list(list@, folder@, searched_tree(*old(search).index), filter),
        ),
    decreases list@,
{
    let ghost items = new.items();
    let ghost old_tree = searched_tree(*search.index);
    let ghost goal = filtered_list(list@, folder@, old_tree, filter);
    let ghost mut current = list@;
    proof {
        lemma_list_unchanged(items, start@, list@);
        lemma_filtered_list(list@, folder@, old_tree, filter);
    }
    let mut i: usize = 0;
    while i < ids.len()
        invariant
            i <= ids@.len(),
            ids@.len() == list@.len(),
            current.len() == list@.len(),
            goal.len() == list@.len(),
            goal == filtered_list(list@, folder@, old_tree, filter),
            search.wf(),
            search.index == old(search).index,
            old_tree == searched_tree(*search.index),
            new.wf(),
            new.spec_root() == old(new).spec_root(),
            items == old(new).items(),
            starts_with(folder@, "/"@),
            list_holds(items, start@, list@),
            list_changed(items, new.items(), start@, list@, current),
            forall|k: int| i <= k < list@.len() ==> current[k] == #[trigger] list@[k],
            forall|k: int| 0 <= k < i ==> current[k] == #[trigger] goal[k],
            forall|k: int|
                0 <= k < ids@.len() ==> (#[trigger] ids@[k]).at() == nth_path(
                    items,
                    start@,
                    k as nat,
                ),
        decreases ids@.len() - i,
    {
        let child_id = ids[i];
        let ghost before = *new;
        let ghost child_node = list@[i as int];
        proof {
            assert(ids@[i as int].at() == nth_path(items, start@, i as nat));
            assert(current[i as int] == list@[i as int]);
            lemma_list_changed_one(items, new.items(), start@, list@, current, i as int);
            new.lemma_places();
            lemma_folder_of_tree(new.items(), child_id.at(), child_node);
        }
        let mut child_path: String = folder.to_owned();
        child_path.append(child_id.file_name(new));
        if child_id.children(new).is_some() {
            child_path.push(DEFAULT_PATH_SEPARATOR);
        }
        proof {
            reveal_strlit("/");
            assert(child_path@ == entry_path(
                folder@,
                child_node.name,
                child_node.is_folder(),
                DEFAULT_PATH_SEPARATOR,
                false,
            ));
            assert(child_path@.take(1) == folder@.take(1));
        }
        filter_entry(search, new, child_id, child_path.as_str(), false, filter, Ghost(child_node));
        proof {
            lemma_filtered_list(list@, folder@, old_tree, filter);
            let after = goal[i as int];
            lemma_list_changed_step(
                items,
                before,
                *new,
                start@,
                list@,
                current,
                i as int,
                after,
            );
            current = current.update(i as int, after);
        }
        i = i + 1;
    }
    assert(current == goal);
}

/// Filters the entry with the given path and everything inside it.
#[verifier::spinoff_prover]
fn filter_entry(
    search: &mut OldSearch<'_>,
    new: &mut FsIndex,
    id: FsEntryId,
    path: &str,
    is_root: bool,
    filter: DiffFilter,
    node: Ghost<FsNode>,
)
    requires
        old(search).wf(),
        old(new).wf(),
        path_holds(old(new).items(), id.at(), node@),
        path_separated(old(new).items(), id.at(), node@),
        starts_with(path@, "/"@),
        is_root ==> node@.is_folder(),
    ensures
        final(search).wf(),
        final(search).index == old(search).index,
        subtree_changed(
            *old(new),
            *final(new),
            id.at(),
            node@,
            filtered(node@, path@, is_root, searched_tree(*old(search).index), filter),
        ),
    decreases node@,
{
    let ghost items = new.items();
    let ghost old_new = *new;
    let entry = match id.load_metadata(new) {
        Some(entry) => entry,
        None => {
            return;
        },
    };
    let ghost meta = meta_of(items, id.at());
    proof {
        new.lemma_places();
        entry.lemma_loaded(items, meta);
        lemma_folder_of_tree(items, id.at(), node@);
    }
    let children = match entry.children() {
        Some(children) => children,
        None => {
            filter_file(search, new, id, &entry, path, filter, node);
            return;
        },
    };
    assert(entry.loaded(items, entry.at()));
    let ids = children.iter(new);
    let ghost start = first_child(items, meta);
    let ghost list = node@.children;
    filter_entries(search, new, &ids, path, filter, Ghost(start), Ghost(list));
    let ghost kept = filtered_list(list, path@, searched_tree(*search.index), filter);
    proof {
        lemma_folder_contents(old_new, *new, id.at(), node@, kept);
        entry.lemma_still_loaded(items, new.items(), meta);
        assert forall|k: int| 0 <= k < ids@.len() implies path_holds(
            new.items(),
            (#[trigger] ids@[k]).at(),
            kept[k],
        ) by {
            lemma_list_changed_one(items, new.items(), start, list, kept, k);
        }
        lemma_filtered_list(list, path@, searched_tree(*search.index), filter);
    }
    let ghost middle_new = *new;
    let ghost middle = FsNode { children: kept, ..node@ };
    finish_folder(search, new, id, &entry, &ids, path, is_root, filter, Ghost(middle));
    proof {
        let old_tree = searched_tree(*search.index);
        lemma_subtree_changed_twice(
            old_new,
            middle_new,
            *new,
            id.at(),
            node@,
            middle,
            filtered(node@, path@, is_root, old_tree, filter),
        );
    }
}

/// Removes a folder whose entries were filtered, or limits its numbers to what is
/// kept inside it.
#[verifier::spinoff_prover]
fn finish_folder(
    search: &mut OldSearch<'_>,
    new: &mut FsIndex,
    id: FsEntryId,
    entry: &FsEntry,
    ids: &Vec<FsEntryId>,
    path: &str,
    is_root: bool,
    filter: DiffFilter,
    node: Ghost<FsNode>,
)
    requires
        old(search).wf(),
        old(new).wf(),
        path_holds(old(new).items(), id.at(), node@),
        path_separated(old(new).items(), id.at(), node@),
        entry.loaded(old(new).items(), meta_of(old(new).items(), id.at())),
        node@.is_folder(),
        starts_with(path@, "/"@),
        ids@.len() == node@.children.len(),
        forall|k: int|
            0 <= k < ids@.len() ==> path_holds(
                old(new).items(),
                (#[trigger] ids@[k]).at(),
                node@.children[k],
            ),
    ensures
        final(search).wf(),
        final(search).index == old(search).index,
        subtree_changed(
            *old(new),
            *final(new),
            id.at(),
            node@,
            finished_folder(node@, path@, is_root, searched_tree(*old(search).index), filter),
        ),
{
    proof {
        new.lemma_places();
        entry.lemma_loaded(new.items(), meta_of(new.items(), id.at()));
        lemma_folder_of_tree(new.items(), id.at(), node@);
    }
    let info: FsEntryMetadata = *entry.metadata();
    let sums = sum_entries(new, ids, Ghost(node@.children));
    if !sums.any && !is_root {
        let should_delete: bool = match search.find(path) {
            Some(old_info) => match filter {
                DiffFilter::NewOrLarger => true,
                DiffFilter::NewOrChanged => info == old_info,
            },
            None => false,
        };
        if should_delete {
            remove_entry(new, id, node);
            return;
        }
    }
    let limited_info = FsEntryMetadata {
        size: lower(info.size, sums.size),
        allocated: lower(info.allocated, sums.allocated),
        files: lower(info.files, sums.files),
        folders: lower(info.folders, sums.folders),
        ..info
    };
    assert(limited_info == limited(info, kept_sums(node@.children)));
    shrink_entry(new, entry, limited_info, Ghost(id), node);
}

/// Changes after other changes.
proof fn lemma_changed_twice(
    a: Map<int, Item>,
    b: Map<int, Item>,
    c: Map<int, Item>,
    places: Set<int>,
    more: Set<int>,
)
    requires
        changed_within(a, b, places),
        changed_within(b, c, more),
        more.subset_of(places),
    ensures
        changed_within(a, c, places),
{
    assert forall|p: int| a.contains_key(p) == #[trigger] c.contains_key(p) by {
        assert(a.contains_key(p) == b.contains_key(p));
    }
    assert forall|p: int| #[trigger] a.contains_key(p) && !places.contains(p) implies c[p]
        == a[p] by {
        assert(b.contains_key(p));
        assert(!more.contains(p));
    }
    assert forall|p: int| #[trigger] a.contains_key(p) implies {
        &&& c[p].len() == a[p].len()
        &&& a[p] is Path ==> c[p] is Path && c[p]->name == a[p]->name
        &&& a[p] is Meta ==> c[p] is Meta && c[p].info().children == a[p].info().children
            && c[p].info().is_dir == a[p].info().is_dir
    } by {
        assert(b.contains_key(p));
    }
}

proof fn lemma_subtree_changed_twice(
    a: FsIndex,
    b: FsIndex,
    c: FsIndex,
    at: int,
    first: FsNode,
    second: FsNode,
    third: FsNode,
)
    requires
        subtree_changed(a, b, at, first, second),
        subtree_changed(b, c, at, second, third),
    ensures
        subtree_changed(a, c, at, first, third),
{
    lemma_changed_twice(
        a.items(),
        b.items(),
        c.items(),
        path_places(a.items(), at, first),
        path_places(b.items(), at, second),
    );
}

/// A folder whose contents were changed.
proof fn lemma_folder_contents(
    before: FsIndex,
    after: FsIndex,
    at: int,
    node: FsNode,
    list: Seq<FsNode>,
)
    requires
        before.wf(),
        after.wf(),
        after.spec_root() == before.spec_root(),
        path_holds(before.items(), at, node),
        path_separated(before.items(), at, node),
        node.is_folder(),
        ({
            let items = before.items();
            let start = first_child(items, meta_of(items, at));
            &&& items[at]->meta != 0
            &&& list_changed(items, after.items(), start, node.children, list)
        }),
    ensures
        subtree_changed(before, after, at, node, FsNode { children: list, ..node }),
        after.items()[at] == before.items()[at],
        after.items()[meta_of(before.items(), at)] == before.items()[meta_of(before.items(), at)],
        is_meta(after.items(), meta_of(before.items(), at)),
{
    reveal(list_changed);
    let items = before.items();
    let changed = after.items();
    let meta = meta_of(items, at);
    let start = first_child(items, meta);
    let inside = list_places(items, start, node.children);
    let result = FsNode { children: list, ..node };
    before.lemma_places();
    assert(items.contains_key(meta));
    lemma_folder_of_tree(items, at, node);
    assert(!inside.contains(at)) by {
        assert(!meta_places(items, meta, node).contains(at));
    }
    assert(!inside.contains(meta));
    assert(changed.contains_key(meta) && changed[meta] == items[meta]);
    assert(changed.contains_key(at) && changed[at] == items[at]);
    lemma_list_from_each_ok(changed, start, list);
    let now = list_places(changed, start, list);
    assert forall|p: int| #[trigger] now.contains(p) implies inside.contains(p) by {
        lemma_list_place_of(changed, start, list, p);
        let k = choose|k: int|
            0 <= k < list.len() && path_places(
                changed,
                nth_path(changed, start, k as nat),
                #[trigger] list[k],
            ).contains(p);
        assert(node.children[k] == node.children[k]);
        assert(path_places(
            items,
            nth_path(items, start, k as nat),
            node.children[k],
        ).contains(p));
        lemma_list_has_place(items, start, node.children, k);
    }
    let all = path_places(items, at, node);
    assert(inside.subset_of(all)) by {
        assert forall|p: int| inside.contains(p) implies all.contains(p) by {
            assert(meta_places(items, meta, node).contains(p));
        }
    }
    assert(meta_holds(changed, meta, result));
    assert(meta_separated(changed, meta, result));
    assert(path_places(changed, at, result).subset_of(all)) by {
        assert forall|p: int| path_places(changed, at, result).contains(p) implies all.contains(
            p,
        ) by {
            if p != at && p != meta {
                assert(meta_places(changed, meta, result).contains(p));
                assert(now.contains(p));
            } else if p == meta {
                assert(meta_places(items, meta, node).contains(p));
            }
        }
    }
    assert(!meta_places(changed, meta, result).contains(at)) by {
        if meta_places(changed, meta, result).contains(at) {
            assert(at != meta);
            assert(now.contains(at));
        }
    }
    lemma_changed_more(items, changed, inside, all);
}

proof fn lemma_changed_more(
    a: Map<int, Item>,
    b: Map<int, Item>,
    places: Set<int>,
    more: Set<int>,
)
    requires
        changed_within(a, b, places),
        places.subset_of(more),
    ensures
        changed_within(a, b, more),
{
}

/// Filters the entries of a new snapshot by how they differ from the entries of an
/// old one. Entries that are left out lose their metadata, and the numbers of
/// folders are limited to what is kept inside them. The root is always kept.
pub fn filter_fs_index(old_index: &FsIndex, new: &mut FsIndex, filter: DiffFilter)
    requires
        old_index.wf(),
        old_index.spec_root() is Some ==> old_index.rooted(),
        old(new).wf(),
        old(new).spec_root() is Some ==> old(new).rooted(),
    ensures
        final(new).wf(),
        final(new).spec_root() == old(new).spec_root(),
        old(new).spec_root() is Some ==> final(new).rooted() && final(new).root_tree()
            == if old(new).root_tree().is_folder() {
            filtered(
                old(new).root_tree(),
                "/"@,
                true,
                searched_tree(*old_index),
                filter,
            )
        } else {
            old(new).root_tree()
        },
{
    let mut search = OldSearch::new(old_index);
    if let Some(root) = new.root() {
        let ghost tree = new.root_tree();
        proof {
            assert(new.holds(root.at(), tree));
            new.lemma_places();
            lemma_folder_of_tree(new.items(), root.at(), tree);
            reveal_strlit("/");
            assert("/"@.take(1) == "/"@);
        }
        if root.children(new).is_some() {
            filter_entry(&mut search, new, root, "/", true, filter, Ghost(tree));
            proof {
                let after = filtered(tree, "/"@, true, searched_tree(*old_index), filter);
                assert(new.holds(root.at(), after));
                new.lemma_tree_is(root.at(), after);
            }
        }
    }
}

/// Whether an entry and everything inside it is in the old snapshot with the same
/// metadata.
pub open spec fn known(node: FsNode, path: Seq<char>, old: Option<FsNode>) -> bool
    decreases node, 1nat,
{
    &&& node.info is Some ==> old_metadata(old, path) == node.info
    &&& node.is_folder() ==> all_known(node.children, path, old)
}

pub open spec fn all_known(list: Seq<FsNode>, folder: Seq<char>, old: Option<FsNode>) -> bool
    decreases list, 2nat,
{
    list.len() > 0 ==> {
        let last = list.last();
        let path = entry_path(folder, last.name, last.is_folder(), DEFAULT_PATH_SEPARATOR, false);
        known(last, path, old) && all_known(list.drop_last(), folder, old)
    }
}

/// Numbers never grow. What is kept has its old name and is still a file or a folder.
pub proof fn law_numbers_do_not_grow(
    node: FsNode,
    path: Seq<char>,
    is_root: bool,
    old: Option<FsNode>,
    filter: DiffFilter,
)
    ensures
        ({
            let after = filtered(node, path, is_root, old, filter);
            &&& after.name == node.name
            &&& after.info matches Some(kept) ==> node.info matches Some(info) && {
                &&& kept.size <= info.size
                &&& kept.allocated <= info.allocated
                &&& kept.files <= info.files
                &&& kept.folders <= info.folders
                &&& kept.is_dir == info.is_dir
                &&& kept.modified == info.modified
                &&& kept.attributes == info.attributes
            }
        }),
{
}

/// Entries that the old snapshot does not have are kept, files without any change.
pub proof fn law_new_entries_are_kept(
    node: FsNode,
    path: Seq<char>,
    is_root: bool,
    old: Option<FsNode>,
    filter: DiffFilter,
)
    requires
        old_metadata(old, path) is None,
    ensures
        filtered(node, path, is_root, old, filter).info is Some <==> node.info is Some,
        !node.is_folder() ==> filtered(node, path, is_root, old, filter) == node,
{
}

/// What is in the old snapshot as well, with the same metadata, is left out, files and
/// folders with everything inside them.
pub proof fn law_known_entries_are_left_out(
    node: FsNode,
    path: Seq<char>,
    old: Option<FsNode>,
    filter: DiffFilter,
)
    requires
        known(node, path, old),
    ensures
        filtered(node, path, false, old, filter).info is None,
        node.is_folder() ==> kept_sums(filtered_list(node.children, path, old, filter)) == (
        KeptSums { entries: 0, size: 0, allocated: 0, files: 0, folders: 0 }),
    decreases node, 1nat,
{
    if node.is_folder() {
        lemma_known_list(node.children, path, old, filter);
    }
}

proof fn lemma_known_list(
    list: Seq<FsNode>,
    folder: Seq<char>,
    old: Option<FsNode>,
    filter: DiffFilter,
)
    requires
        all_known(list, folder, old),
    ensures
        kept_sums(filtered_list(list, folder, old, filter)) == (KeptSums {
            entries: 0,
            size: 0,
            allocated: 0,
            files: 0,
            folders: 0,
        }),
    decreases list, 2nat,
{
    if list.len() > 0 {
        let last = list.last();
        let path = entry_path(folder, last.name, last.is_folder(), DEFAULT_PATH_SEPARATOR, false);
        law_known_entries_are_left_out(last, path, old, filter);
        lemma_known_list(list.drop_last(), folder, old, filter);
        let all = filtered_list(list, folder, old, filter);
        assert(all.drop_last() == filtered_list(list.drop_last(), folder, old, filter));
        assert(all.last() == filtered(last, path, false, old, filter));
    }
}

} // verus!
