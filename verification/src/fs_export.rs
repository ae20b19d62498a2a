//! Lists of everything that an index holds.
use vstd::prelude::*;

use crate::fs_cursor::{children_count, children_start, meta_of, CursorView, FrameView, FsCursor};
use crate::fs_index::{entry_is_folder, is_meta, lemma_nth_path_skip, nth_path, FsIndex, Item};
use crate::fs_tree::{list_holds, path_holds, FsNode};
use crate::text::{
    ends_with_separator, is_plain, is_separator, law_one_more_name_is_one_more_piece,
    lemma_trailing_separator, segments,
};
use crate::wiztree_csv::{RecordView, WizTreeCsvRecord};

verus! {

/// An entry and its full path.
#[verifier::ext_equal]
pub struct Visit {
    pub at: int,
    pub path: Seq<char>,
}

/// Full path of an entry in a folder with the given path.
pub open spec fn entry_path(
    folder: Seq<char>,
    name: Seq<char>,
    is_folder: bool,
    separator: char,
    force_ext: bool,
) -> Seq<char> {
    if is_folder {
        (folder + name).push(separator)
    } else if force_ext && !name.contains('.') {
        (folder + name).push('.')
    } else {
        folder + name
    }
}

/// All entries of a tree in the order in which they are visited.
pub open spec fn path_visits(
    items: Map<int, Item>,
    at: int,
    node: FsNode,
    folder: Seq<char>,
    separator: char,
    force_ext: bool,
) -> Seq<Visit>
    decreases node, 1nat,
{
    let path = entry_path(folder, node.name, node.is_folder(), separator, force_ext);
    seq![Visit { at, path }] + list_visits(
        items,
        children_start(items, at),
        node.children,
        path,
        separator,
        force_ext,
    )
}

pub open spec fn list_visits(
    items: Map<int, Item>,
    start: int,
    list: Seq<FsNode>,
    folder: Seq<char>,
    separator: char,
    force_ext: bool,
) -> Seq<Visit>
    decreases list, 2nat,
{
    if list.len() == 0 {
        seq![]
    } else {
        list_visits(items, start, list.drop_last(), folder, separator, force_ext) + path_visits(
            items,
            nth_path(items, start, (list.len() - 1) as nat),
            list.last(),
            folder,
            separator,
            force_ext,
        )
    }
}

/// The entries that a cursor visits after the current one.
pub open spec fn later_visits(
    items: Map<int, Item>,
    frames: Seq<FrameView>,
    forest: Seq<Seq<FsNode>>,
    separator: char,
    force_ext: bool,
) -> Seq<Visit>
    decreases frames.len(),
{
    if frames.len() == 0 {
        seq![]
    } else {
        list_visits(
            items,
            frames.last().start,
            forest.last(),
            frames.last().path,
            separator,
            force_ext,
        ) + later_visits(items, frames.drop_last(), forest.drop_last(), separator, force_ext)
    }
}

/// Whether the trees are those of the children that have not been visited.
pub open spec fn forest_ok(
    items: Map<int, Item>,
    frames: Seq<FrameView>,
    forest: Seq<Seq<FsNode>>,
) -> bool {
    &&& forest.len() == frames.len()
    &&& forall|i: int|
        0 <= i < frames.len() ==> (#[trigger] forest[i]).len() == frames[i].count && list_holds(
            items,
            frames[i].start,
            forest[i],
        )
}

/// The current entry and the later ones.
pub open spec fn all_visits(
    items: Map<int, Item>,
    view: CursorView,
    forest: Seq<Seq<FsNode>>,
) -> Seq<Visit> {
    match view.current {
        Some(at) => seq![Visit { at, path: view.path }] + later_visits(
            items,
            view.frames,
            forest,
            view.separator,
            view.force_file_ext,
        ),
        None => seq![],
    }
}

/// The visits of a list start with those of its first tree.
pub proof fn lemma_visits_first(
    items: Map<int, Item>,
    start: int,
    list: Seq<FsNode>,
    folder: Seq<char>,
    separator: char,
    force_ext: bool,
)
    requires
        list.len() > 0,
    ensures
        list_visits(items, start, list, folder, separator, force_ext) == path_visits(
            items,
            start,
            list[0],
            folder,
            separator,
            force_ext,
        ) + list_visits(
            items,
            nth_path(items, start, 1),
            list.drop_first(),
            folder,
            separator,
            force_ext,
        ),
    decreases list.len(),
{
    let rest = list.drop_first();
    let second = nth_path(items, start, 1);
    if list.len() == 1 {
        assert(nth_path(items, start, 0) == start);
        assert(list.last() == list[0]);
        assert(list_visits(items, start, list.drop_last(), folder, separator, force_ext) == Seq::<
            Visit,
        >::empty());
        assert(list_visits(items, second, rest, folder, separator, force_ext) == Seq::<
            Visit,
        >::empty());
    } else {
        lemma_visits_first(items, start, list.drop_last(), folder, separator, force_ext);
        assert(list.drop_last().drop_first() == rest.drop_last());
        assert(rest.last() == list.last());
        lemma_nth_path_skip(items, start, 1, (rest.len() - 1) as nat);
    }
}

/// The first tree of a list and the others.
pub proof fn lemma_list_first(items: Map<int, Item>, start: int, list: Seq<FsNode>)
    requires
        list_holds(items, start, list),
        list.len() > 0,
    ensures
        path_holds(items, start, list[0]),
        list_holds(items, nth_path(items, start, 1), list.drop_first()),
    decreases list.len(),
{
    let rest = list.drop_first();
    if list.len() == 1 {
        assert(nth_path(items, start, 0) == start);
    } else {
        lemma_list_first(items, start, list.drop_last());
        assert(list.drop_last().drop_first() == rest.drop_last());
        assert(rest.last() == list.last());
        lemma_nth_path_skip(items, start, 1, (rest.len() - 1) as nat);
    }
}

/// A folder in an index is the folder of its tree.
pub proof fn lemma_folder_of_tree(items: Map<int, Item>, at: int, node: FsNode)
    requires
        path_holds(items, at, node),
        forall|o: int| #[trigger] is_meta(items, o) ==> items[o].ok(),
    ensures
        entry_is_folder(items, at) == node.is_folder(),
        node.is_folder() ==> node.children.len() == children_count(items, at) && list_holds(
            items,
            children_start(items, at),
            node.children,
        ),
        !node.is_folder() ==> node.children.len() == 0,
{
    if items[at]->meta != 0 {
        let meta = meta_of(items, at);
        assert(is_meta(items, meta));
        assert(items[meta].ok());
    }
}

/// The trees of the remaining children after advancing a cursor.
pub open spec fn forest_after(
    items: Map<int, Item>,
    frames: Seq<FrameView>,
    forest: Seq<Seq<FsNode>>,
) -> Seq<Seq<FsNode>>
    decreases frames.len(),
{
    if frames.len() == 0 {
        seq![]
    } else if frames.last().count == 0 {
        forest_after(items, frames.drop_last(), forest.drop_last())
    } else {
        let list = forest.last();
        let rest = forest.drop_last().push(list.drop_first());
        if list[0].is_folder() {
            rest.push(list[0].children)
        } else {
            rest
        }
    }
}

/// Advancing a cursor leads to the next entry.
pub proof fn lemma_advance_visits(
    items: Map<int, Item>,
    view: CursorView,
    forest: Seq<Seq<FsNode>>,
)
    requires
        forest_ok(items, view.frames, forest),
        forall|o: int| #[trigger] is_meta(items, o) ==> items[o].ok(),
    ensures
        forest_ok(items, view.advanced(items).frames, forest_after(items, view.frames, forest)),
        all_visits(items, view.advanced(items), forest_after(items, view.frames, forest))
            == later_visits(items, view.frames, forest, view.separator, view.force_file_ext),
        view.advanced(items).separator == view.separator,
        view.advanced(items).force_file_ext == view.force_file_ext,
    decreases view.frames.len(),
{
    let frames = view.frames;
    if frames.len() > 0 {
        let top = frames.last();
        let list = forest.last();
        assert(forest[frames.len() - 1] == list);
        let fewer = CursorView { frames: frames.drop_last(), ..view };
        assert forall|i: int| 0 <= i < fewer.frames.len() implies (
        #[trigger] forest.drop_last()[i]).len() == fewer.frames[i].count && list_holds(
            items,
            fewer.frames[i].start,
            forest.drop_last()[i],
        ) by {
            assert(forest.drop_last()[i] == forest[i]);
        }
        if top.count == 0 {
            lemma_advance_visits(items, fewer, forest.drop_last());
        } else {
            let sep = view.separator;
            let ext = view.force_file_ext;
            let node = list[0];
            let rest = FrameView {
                start: nth_path(items, top.start, 1),
                count: (top.count - 1) as nat,
                ..top
            };
            lemma_list_first(items, top.start, list);
            lemma_visits_first(items, top.start, list, top.path, sep, ext);
            lemma_folder_of_tree(items, top.start, node);
            let after = view.advanced(items);
            let new_forest = forest_after(items, frames, forest);
            let middle = frames.drop_last().push(rest);
            let middle_forest = forest.drop_last().push(list.drop_first());
            assert(middle.drop_last() == frames.drop_last());
            assert(middle_forest.drop_last() == forest.drop_last());
            assert(later_visits(items, middle, middle_forest, sep, ext) == list_visits(
                items,
                rest.start,
                list.drop_first(),
                top.path,
                sep,
                ext,
            ) + later_visits(items, frames.drop_last(), forest.drop_last(), sep, ext));
            if node.is_folder() {
                assert(after.frames.drop_last() == middle);
                assert(new_forest.drop_last() == middle_forest);
            } else {
                assert(after.frames == middle);
                assert(list_visits(
                    items,
                    children_start(items, top.start),
                    node.children,
                    after.path,
                    sep,
                    ext,
                ) == Seq::<Visit>::empty());
            }
            assert(all_visits(items, after, new_forest) == later_visits(
                items,
                frames,
                forest,
                sep,
                ext,
            ));
        }
    }
}

/// The records of the visited entries. Entries without metadata have none.
pub open spec fn visit_records(items: Map<int, Item>, visits: Seq<Visit>) -> Seq<RecordView>
    decreases visits.len(),
{
    if visits.len() == 0 {
        seq![]
    } else {
        let first = visits[0];
        let rest = visit_records(items, visits.drop_first());
        if items[first.at]->meta == 0 {
            rest
        } else {
            seq![items[meta_of(items, first.at)].info().record(first.path)] + rest
        }
    }
}

/// The records of a tree: each folder comes before everything inside it. Entries
/// without metadata have none.
pub open spec fn node_records(
    node: FsNode,
    folder: Seq<char>,
    separator: char,
    force_ext: bool,
) -> Seq<RecordView>
    decreases node, 1nat,
{
    let path = entry_path(folder, node.name, node.is_folder(), separator, force_ext);
    let inside = list_records(node.children, path, separator, force_ext);
    match node.info {
        Some(info) => seq![info.record(path)] + inside,
        None => inside,
    }
}

pub open spec fn list_records(
    list: Seq<FsNode>,
    folder: Seq<char>,
    separator: char,
    force_ext: bool,
) -> Seq<RecordView>
    decreases list, 2nat,
{
    if list.len() == 0 {
        seq![]
    } else {
        list_records(list.drop_last(), folder, separator, force_ext) + node_records(
            list.last(),
            folder,
            separator,
            force_ext,
        )
    }
}

/// Full path of the root folder.
pub open spec fn root_full_path(
    tree: FsNode,
    root_path: Option<Seq<char>>,
    separator: char,
) -> Seq<char> {
    let base = match root_path {
        Some(path) => path,
        None => tree.name,
    };
    if ends_with_separator(base) {
        base
    } else {
        base.push(separator)
    }
}

/// The records of an index with the given tree. An index whose root is not a
/// folder has none.
pub open spec fn tree_records(
    tree: FsNode,
    root_path: Option<Seq<char>>,
    separator: char,
    force_ext: bool,
) -> Seq<RecordView> {
    if tree.is_folder() {
        let path = root_full_path(tree, root_path, separator);
        seq![tree.info->0.record(path)] + list_records(tree.children, path, separator, force_ext)
    } else {
        seq![]
    }
}

proof fn lemma_visit_records_add(items: Map<int, Item>, a: Seq<Visit>, b: Seq<Visit>)
    ensures
        visit_records(items, a + b) == visit_records(items, a) + visit_records(items, b),
    decreases a.len(),
{
    if a.len() == 0 {
        assert(a + b == b);
        assert(visit_records(items, a) + visit_records(items, b) == visit_records(items, b));
    } else {
        assert((a + b).drop_first() == a.drop_first() + b);
        lemma_visit_records_add(items, a.drop_first(), b);
        assert(visit_records(items, a + b) == visit_records(items, a) + visit_records(items, b));
    }
}

/// Visiting a tree gives the records of the tree.
pub proof fn lemma_path_records(
    items: Map<int, Item>,
    at: int,
    node: FsNode,
    folder: Seq<char>,
    separator: char,
    force_ext: bool,
)
    requires
        path_holds(items, at, node),
        forall|o: int| #[trigger] is_meta(items, o) ==> items[o].ok(),
    ensures
        visit_records(items, path_visits(items, at, node, folder, separator, force_ext))
            == node_records(node, folder, separator, force_ext),
    decreases node, 1nat,
{
    let path = entry_path(folder, node.name, node.is_folder(), separator, force_ext);
    let first = seq![Visit { at, path }];
    let start = children_start(items, at);
    let inside = list_visits(items, start, node.children, path, separator, force_ext);
    lemma_folder_of_tree(items, at, node);
    if node.children.len() > 0 {
        lemma_list_records(items, start, node.children, path, separator, force_ext);
    }
    lemma_visit_records_add(items, first, inside);
    assert(first.drop_first() == Seq::<Visit>::empty());
    assert(visit_records(items, first.drop_first()) == Seq::<RecordView>::empty());
    let list = list_records(node.children, path, separator, force_ext);
    assert(visit_records(items, inside) == list);
    match node.info {
        Some(info) => {
            assert(visit_records(items, first) == seq![info.record(path)]);
        },
        None => {
            assert(visit_records(items, first) == Seq::<RecordView>::empty());
            assert(Seq::<RecordView>::empty() + list == list);
        },
    }
}

pub proof fn lemma_list_records(
    items: Map<int, Item>,
    start: int,
    list: Seq<FsNode>,
    folder: Seq<char>,
    separator: char,
    force_ext: bool,
)
    requires
        list_holds(items, start, list),
        forall|o: int| #[trigger] is_meta(items, o) ==> items[o].ok(),
    ensures
        visit_records(items, list_visits(items, start, list, folder, separator, force_ext))
            == list_records(list, folder, separator, force_ext),
    decreases list, 2nat,
{
    if list.len() > 0 {
        let at = nth_path(items, start, (list.len() - 1) as nat);
        lemma_list_records(items, start, list.drop_last(), folder, separator, force_ext);
        lemma_path_records(items, at, list.last(), folder, separator, force_ext);
        lemma_visit_records_add(
            items,
            list_visits(items, start, list.drop_last(), folder, separator, force_ext),
            path_visits(items, at, list.last(), folder, separator, force_ext),
        );
    }
}

/// Converts an [`FsIndex`] into CSV records, one after the other.
pub struct FsIndexToCsv<'a> {
    index: &'a FsIndex,
    cursor: FsCursor,
    forest: Ghost<Seq<Seq<FsNode>>>,
}

/// The options of a root path as text.
pub open spec fn path_option(root_path: Option<&str>) -> Option<Seq<char>> {
    match root_path {
        Some(path) => Some(path@),
        None => None,
    }
}

/// A cursor at the root of an index, and the trees of all its children.
pub(crate) fn root_cursor(index: &FsIndex, root_path: Option<&str>, separator: char) -> (result: (
    FsCursor,
    Ghost<Seq<Seq<FsNode>>>,
))
    requires
        index.wf(),
        index.spec_root() is Some ==> index.rooted(),
    ensures
        result.0.wf(index.items()),
        forest_ok(index.items(), result.0@.frames, result.1@),
        result.0@.separator == separator,
        !result.0@.case_sensitive,
        !result.0@.force_file_ext,
        ({
            let tree = index.root_tree();
            let path = root_full_path(tree, path_option(root_path), separator);
            if index.spec_root() is Some && tree.is_folder() {
                &&& result.0@.current == Some(index.spec_root()->0.at())
                &&& result.0@.path == path
                &&& result.0@.frames.len() == 1
                &&& result.0@.frames[0].id == index.spec_root()->0.at()
                &&& result.0@.frames[0].start == children_start(
                    index.items(),
                    index.spec_root()->0.at(),
                )
                &&& result.0@.frames[0].path == path
                &&& result.1@ == seq![tree.children]
            } else {
                result.0@.current is None
            }
        }),
{
    let mut cursor = FsCursor::new(separator);
    let ghost items = index.items();
    let ghost mut forest: Seq<Seq<FsNode>> = seq![];
    assert(cursor.wf(items));
    if let Some(root) = index.root() {
        proof {
            let tree = index.root_tree();
            assert(index.holds(root.at(), tree));
            index.lemma_places();
            lemma_folder_of_tree(items, root.at(), tree);
        }
        if cursor.set_root(root, root_path, index) {
            proof {
                forest = seq![index.root_tree().children];
            }
        }
    }
    (cursor, Ghost(forest))
}

impl<'a> FsIndexToCsv<'a> {
    pub closed spec fn wf(self) -> bool {
        &&& self.index.wf()
        &&& self.cursor.wf(self.index.items())
        &&& forest_ok(self.index.items(), self.cursor@.frames, self.forest@)
    }

    closed spec fn visits(self) -> Seq<Visit> {
        all_visits(self.index.items(), self.cursor@, self.forest@)
    }

    /// The records that are still to come.
    pub closed spec fn remaining(self) -> Seq<RecordView> {
        visit_records(self.index.items(), self.visits())
    }

    pub fn new(
        index: &'a FsIndex,
        root_path: Option<&str>,
        path_separator: char,
        force_file_extensions: bool,
    ) -> (this: Self)
        requires
            index.wf(),
            index.spec_root() is Some ==> index.rooted(),
        ensures
            this.wf(),
            this.remaining() == if index.spec_root() is Some {
                tree_records(
                    index.root_tree(),
                    path_option(root_path),
                    path_separator,
                    force_file_extensions,
                )
            } else {
                seq![]
            },
    {
        let (mut cursor, forest) = root_cursor(index, root_path, path_separator);
        cursor.set_force_file_extension(force_file_extensions);
        let this = FsIndexToCsv { index, cursor, forest };
        proof {
            let items = index.items();
            assert(cursor.wf(items));
            let tree = index.root_tree();
            if index.spec_root() is Some && tree.is_folder() {
                let at = index.spec_root()->0.at();
                let path = cursor@.path;
                let sep = path_separator;
                let ext = force_file_extensions;
                let start = children_start(items, at);
                assert(index.holds(at, tree));
                index.lemma_places();
                lemma_folder_of_tree(items, at, tree);
                lemma_list_records(items, start, tree.children, path, sep, ext);
                let frames = cursor@.frames;
                assert(frames.drop_last() == Seq::<FrameView>::empty());
                let inside = list_visits(items, start, tree.children, path, sep, ext);
                assert(forest@.last() == tree.children);
                assert(later_visits(
                    items,
                    frames.drop_last(),
                    forest@.drop_last(),
                    sep,
                    ext,
                ) == Seq::<Visit>::empty());
                assert(later_visits(items, frames, forest@, sep, ext) == inside + Seq::<
                    Visit,
                >::empty());
                assert(inside + Seq::<Visit>::empty() == inside);
                let first = seq![Visit { at, path }];
                lemma_visit_records_add(items, first, inside);
                assert(first.drop_first() == Seq::<Visit>::empty());
                assert(visit_records(items, first.drop_first()) == Seq::<RecordView>::empty());
                assert(items[meta_of(items, at)].info() == tree.info->0);
                assert(visit_records(items, first) == seq![tree.info->0.record(path)]);
            }
        }
        this
    }

    /// The next record, `None` if there are no more.
    pub fn next(&mut self) -> (record: Option<WizTreeCsvRecord>)
        requires
            old(self).wf(),
        ensures
            final(self).wf(),
            record is Some <==> old(self).remaining().len() > 0,
            record matches Some(record) ==> record@ == old(self).remaining()[0]
                && final(self).remaining() == old(self).remaining().drop_first(),
            record is None ==> final(self).remaining() == old(self).remaining(),
    {
        let ghost items = self.index.items();
        loop
            invariant
                self.wf(),
                items == self.index.items(),
                self.index == old(self).index,
                self.remaining() == old(self).remaining(),
            decreases self.visits().len(),
        {
            let id = match self.cursor.current_id() {
                Some(id) => id,
                None => {
                    return None;
                },
            };
            let ghost visits = self.visits();
            let ghost before = self.cursor@;
            let ghost rest = later_visits(
                items,
                before.frames,
                self.forest@,
                before.separator,
                before.force_file_ext,
            );
            proof {
                self.index.lemma_places();
                lemma_advance_visits(items, before, self.forest@);
                assert(visits[0] == Visit { at: id.at(), path: before.path });
                assert(visits.drop_first() == rest);
                self.cursor.lemma_current_ok(items);
            }
            let record: Option<WizTreeCsvRecord> = match id.load_metadata(self.index) {
                Some(entry) => {
                    proof {
                        entry.lemma_loaded(items, meta_of(items, id.at()));
                    }
                    let mut record = entry.metadata().to_csv_record_without_filename();
                    record.file_name = self.cursor.current_path().to_owned();
                    Some(record)
                },
                None => None,
            };
            let ghost next_forest = forest_after(items, before.frames, self.forest@);
            self.cursor.advance(self.index);
            self.forest = Ghost(next_forest);
            assert(self.visits() == rest);
            if let Some(record) = record {
                proof {
                    let all = old(self).remaining();
                    let more = visit_records(items, rest);
                    assert(all == seq![record@] + more);
                    assert(all.drop_first() == more);
                }
                return Some(record);
            }
        }
    }

    /// All records that are still to come.
    pub fn collect(self) -> (records: Vec<WizTreeCsvRecord>)
        requires
            self.wf(),
        ensures
            records@.map_values(|record: WizTreeCsvRecord| record@) == self.remaining(),
    {
        let mut this = self;
        let mut records: Vec<WizTreeCsvRecord> = Vec::new();
        let ghost all = self.remaining();
        let ghost view = |record: WizTreeCsvRecord| record@;
        assert(records@.map_values(view) + this.remaining() == all);
        loop
            invariant
                this.wf(),
                view == (|record: WizTreeCsvRecord| record@),
                records@.map_values(view) + this.remaining() == all,
                all == self.remaining(),
            decreases this.remaining().len(),
        {
            let ghost before = records@.map_values(view);
            let ghost rest = this.remaining();
            match this.next() {
                Some(record) => {
                    records.push(record);
                    proof {
                        assert(records@.map_values(view) == before.push(record@));
                        assert(before + rest == before.push(record@) + rest.drop_first());
                    }
                },
                None => {
                    assert(before + rest == before);
                    return records;
                },
            }
        }
    }
}

impl FsIndex {
    /// Reconstruct CSV records from the filesystem index.
    pub fn csv_iter<'a>(
        &'a self,
        root_path: Option<&str>,
        path_separator: char,
        force_file_extensions: bool,
    ) -> (iter: FsIndexToCsv<'a>)
        requires
            self.wf(),
            self.spec_root() is Some ==> self.rooted(),
        ensures
            iter.wf(),
            iter.remaining() == if self.spec_root() is Some {
                tree_records(
                    self.root_tree(),
                    path_option(root_path),
                    path_separator,
                    force_file_extensions,
                )
            } else {
                seq![]
            },
    {
        FsIndexToCsv::new(self, root_path, path_separator, force_file_extensions)
    }
}

/// The full path of an entry has one more piece than that of its folder: the name of the
/// entry. It ends with the separator if the entry is a folder. If files have to get an
/// extension then the path of one without a dot gets a dot at its end, and no other path
/// is different.
pub proof fn law_listed_paths_have_one_more_name(
    folder: Seq<char>,
    name: Seq<char>,
    is_folder: bool,
    separator: char,
)
    requires
        is_plain(name),
        is_separator(separator),
        ends_with_separator(folder),
    ensures
        segments(entry_path(folder, name, is_folder, separator, false)) == segments(folder).push(
            name,
        ),
        entry_path(folder, name, is_folder, separator, false).take(folder.len() as int) == folder,
        is_folder ==> entry_path(folder, name, is_folder, separator, false).last() == separator,
        ends_with_separator(entry_path(folder, name, is_folder, separator, false)) <==> is_folder,
        is_folder || name.contains('.') ==> entry_path(folder, name, is_folder, separator, true)
            == entry_path(folder, name, is_folder, separator, false),
        !is_folder && !name.contains('.') ==> entry_path(folder, name, is_folder, separator, true)
            == entry_path(folder, name, is_folder, separator, false).push('.'),
{
    let start = folder.drop_last();
    let last = folder.last();
    assert(start.push(last) == folder);
    law_one_more_name_is_one_more_piece(start, last, name, separator);
    lemma_trailing_separator(Seq::empty(), start, last);
    let path = entry_path(folder, name, is_folder, separator, false);
    assert(path.take(folder.len() as int) == folder);
    assert((folder + name).last() == name.last());
    assert(!is_separator(name[name.len() - 1]));
}

/// The path of the root is the given one, or else its name, with one separator more if it
/// does not end with one.
pub proof fn law_root_paths_end_with_a_separator(
    tree: FsNode,
    root_path: Option<Seq<char>>,
    separator: char,
)
    requires
        is_separator(separator),
    ensures
        ({
            let base = match root_path {
                Some(path) => path,
                None => tree.name,
            };
            let path = root_full_path(tree, root_path, separator);
            &&& ends_with_separator(path)
            &&& path == base || path == base.push(separator)
            &&& segments(path) == segments(base)
            &&& ends_with_separator(base) ==> path == base
        }),
{
    let base = match root_path {
        Some(path) => path,
        None => tree.name,
    };
    lemma_trailing_separator(Seq::empty(), base, separator);
    assert(base.push(separator).last() == separator);
}

} // verus!
