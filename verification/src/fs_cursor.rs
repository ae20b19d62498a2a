//! Traversal of an index.
use vstd::prelude::*;
use vstd::utf8::{encode_utf8, is_char_boundary};

use crate::fs_index::{
    entry_is_folder, first_child, is_path, lemma_nth_path_skip, nth_path, paths_ok, FsChildren,
    FsEntryId, FsIndex, Item,
};
use crate::text::{
    byte_len, byte_prefix, byte_suffix, case_folded, ends_with_separator, lemma_cut_concat,
    lemma_encode_concat, path_segments, same_ignoring_case, same_text, segments, starts_with,
    text_after, text_contains, text_ends_with_separator, text_starts_with, views,
};

verus! {

/// A folder that a cursor is in.
#[verifier::ext_equal]
pub struct FrameView {
    /// Place of the path of the folder.
    pub id: int,
    /// Place of the first child that has not been visited.
    pub start: int,
    /// Number of children that have not been visited.
    pub count: nat,
    /// Full path of the folder.
    pub path: Seq<char>,
}

/// Where a cursor is.
#[verifier::ext_equal]
pub struct CursorView {
    /// The folders from the root until the current one.
    pub frames: Seq<FrameView>,
    /// Place of the path of the current entry.
    pub current: Option<int>,
    /// Full path of the current entry.
    pub path: Seq<char>,
    pub separator: char,
    pub case_sensitive: bool,
    pub force_file_ext: bool,
}

/// Place of the metadata of the path at `at`.
pub open spec fn meta_of(items: Map<int, Item>, at: int) -> int {
    items[at]->meta as int
}

/// Place of the first child of the folder at `at`.
pub open spec fn children_start(items: Map<int, Item>, at: int) -> int {
    first_child(items, meta_of(items, at))
}

/// Number of children of the folder at `at`.
pub open spec fn children_count(items: Map<int, Item>, at: int) -> nat {
    match items[meta_of(items, at)].info().children {
        Some(n) => n as nat,
        None => 0,
    }
}

/// Place of the child number `i` of the folder at `at`.
pub open spec fn child(items: Map<int, Item>, at: int, i: nat) -> int {
    nth_path(items, children_start(items, at), i)
}

/// Whether the entry at `at` is a child of the folder at `folder`.
pub open spec fn is_child(items: Map<int, Item>, folder: int, at: int) -> bool {
    exists|k: nat| k < children_count(items, folder) && #[trigger] child(items, folder, k) == at
}

/// Whether the folder number `i` that a cursor is in is a child of the one before.
pub open spec fn linked_at(items: Map<int, Item>, frames: Seq<FrameView>, i: int) -> bool {
    is_child(items, frames[i - 1].id, frames[i].id)
}

/// Whether a name is the one that is searched for.
pub open spec fn name_matches(a: Seq<char>, b: Seq<char>, case_sensitive: bool) -> bool {
    if case_sensitive {
        a == b
    } else {
        case_folded(a) == case_folded(b)
    }
}

/// Number of the first child from `i` on that has the given name.
pub open spec fn find_child(
    items: Map<int, Item>,
    at: int,
    name: Seq<char>,
    case_sensitive: bool,
    i: nat,
) -> Option<nat>
    decreases children_count(items, at) - i,
{
    if i >= children_count(items, at) {
        None
    } else if name_matches(name, items[child(items, at, i)]->name, case_sensitive) {
        Some(i)
    } else {
        find_child(items, at, name, case_sensitive, i + 1)
    }
}

impl CursorView {
    pub open spec fn cleared(self) -> CursorView {
        CursorView { frames: seq![], current: None, path: seq![], ..self }
    }

    /// The cursor at a child of the current folder.
    pub open spec fn selected(self, items: Map<int, Item>, at: int) -> CursorView {
        let name = items[at]->name;
        if entry_is_folder(items, at) {
            let path = (self.path + name).push(self.separator);
            CursorView {
                frames: self.frames.push(
                    FrameView {
                        id: at,
                        start: children_start(items, at),
                        count: children_count(items, at),
                        path,
                    },
                ),
                current: Some(at),
                path,
                ..self
            }
        } else if self.force_file_ext && !name.contains('.') {
            CursorView { current: Some(at), path: (self.path + name).push('.'), ..self }
        } else {
            CursorView { current: Some(at), path: self.path + name, ..self }
        }
    }

    /// The cursor at the folder number `ix` if that is not the last one.
    pub open spec fn at_parent(self, ix: nat) -> CursorView {
        if ix + 1 < self.frames.len() {
            CursorView {
                frames: self.frames.take((ix + 1) as int),
                current: Some(self.frames[ix as int].id),
                path: self.frames[ix as int].path,
                ..self
            }
        } else {
            self
        }
    }

    /// The cursor at the last folder.
    pub open spec fn at_folder(self) -> CursorView {
        if self.frames.len() == 0 {
            self.cleared()
        } else {
            CursorView {
                current: Some(self.frames.last().id),
                path: self.frames.last().path,
                ..self
            }
        }
    }

    /// Whether the current entry is a folder.
    pub open spec fn in_folder(self) -> bool {
        self.frames.len() > 0 && self.current == Some(self.frames.last().id)
    }

    /// The cursor at the first child of the current folder with the given name.
    pub open spec fn picked(self, items: Map<int, Item>, name: Seq<char>) -> Option<CursorView> {
        if self.in_folder() {
            let at = self.frames.last().id;
            match find_child(items, at, name, self.case_sensitive, 0) {
                Some(i) => Some(self.selected(items, child(items, at, i))),
                None => None,
            }
        } else {
            None
        }
    }

    /// Where the cursor gets to by following some names after the folder number
    /// `i - 1`, and whether all names were found. Folders that the cursor is in
    /// are kept as long as they have the wanted names. If a name is not found then
    /// the cursor is at the folder that was reached last.
    pub open spec fn walked(
        self,
        items: Map<int, Item>,
        names: Seq<Seq<char>>,
        i: nat,
    ) -> (CursorView, bool)
        decreases names.len(),
    {
        if names.len() == 0 {
            (self.at_parent((i - 1) as nat), true)
        } else if i < self.frames.len() && name_matches(
            names[0],
            items[self.frames[i as int].id]->name,
            self.case_sensitive,
        ) {
            self.walked(items, names.drop_first(), i + 1)
        } else {
            let start = self.at_parent((i - 1) as nat);
            match start.picked(items, names[0]) {
                Some(next) => next.walked(items, names.drop_first(), i + 1),
                None => (start.at_folder(), false),
            }
        }
    }

    /// Where the cursor gets to for a path, and whether there is an entry for it.
    pub open spec fn went_to(self, items: Map<int, Item>, path: Seq<char>) -> (CursorView, bool) {
        if self.frames.len() == 0 {
            (self, false)
        } else if !starts_with(path, self.frames[0].path) {
            (self.at_parent(0).at_folder(), false)
        } else {
            self.at_folder().walked(
                items,
                segments(path.skip(self.frames[0].path.len() as int)),
                1,
            )
        }
    }

    /// The cursor at the next entry: the first child that was not visited of the
    /// last folder that has one.
    pub open spec fn advanced(self, items: Map<int, Item>) -> CursorView
        decreases self.frames.len(),
    {
        if self.frames.len() == 0 {
            self.cleared()
        } else {
            let top = self.frames.last();
            if top.count == 0 {
                (CursorView { frames: self.frames.drop_last(), ..self }).advanced(items)
            } else {
                let rest = FrameView {
                    start: nth_path(items, top.start, 1),
                    count: (top.count - 1) as nat,
                    ..top
                };
                (CursorView {
                    frames: self.frames.drop_last().push(rest),
                    current: Some(top.id),
                    path: top.path,
                    ..self
                }).selected(items, top.start)
            }
        }
    }

    /// Whether the cursor is at an entry of the index.
    pub open spec fn ok(self, items: Map<int, Item>) -> bool {
        &&& self.frames.len() == 0 <==> self.current is None
        &&& self.current is None ==> self.path.len() == 0
        &&& forall|i: int| 0 <= i < self.frames.len() ==> frame_ok(items, #[trigger] self.frames[i])
        &&& forall|i: int, j: int|
            #![trigger self.frames[i], self.frames[j]]
            0 <= i < j < self.frames.len() ==> starts_with(
                self.frames[j].path,
                self.frames[i].path,
            )
        &&& forall|i: int|
            0 < i < self.frames.len() ==> #[trigger] linked_at(items, self.frames, i)
        &&& self.frames.len() > 0 ==> starts_with(self.path, self.frames.last().path)
        &&& self.current matches Some(at) ==> is_path(items, at)
        &&& self.in_folder() ==> self.path == self.frames.last().path
        &&& self.current matches Some(at) ==> entry_is_folder(items, at) ==> self.in_folder()
    }
}

/// Whether a frame is about a folder and its remaining children.
pub open spec fn frame_ok(items: Map<int, Item>, frame: FrameView) -> bool {
    &&& is_path(items, frame.id)
    &&& entry_is_folder(items, frame.id)
    &&& paths_ok(items, frame.start, frame.count)
    &&& paths_ok(items, children_start(items, frame.id), children_count(items, frame.id))
    &&& frame.count <= children_count(items, frame.id)
    &&& frame.start == child(
        items,
        frame.id,
        (children_count(items, frame.id) - frame.count) as nat,
    )
}

/// A folder that the cursor is in.
struct Frame {
    id: FsEntryId,
    /// The children that have not been visited.
    children: FsChildren,
    /// The length of [`FsCursor::cached_children`] when this folder was pushed.
    cache_start: usize,
    /// The length of [`FsCursor::full_path`] after the folder name was pushed.
    path_len: usize,
    path: Ghost<Seq<char>>,
}

impl Frame {
    spec fn view(self) -> FrameView {
        FrameView {
            id: self.id.at(),
            start: self.children.start(),
            count: self.children.count(),
            path: self.path@,
        }
    }
}

/// Cursor for a [`FsIndex`] used to easily traverse it.
///
/// Tracks the current stack of parents and [`FsEntryId`] of their children.
pub struct FsCursor {
    /// The folders from the root until the current one.
    parents: Vec<Frame>,
    /// All children of some of the currently tracked folders. Only populated for
    /// a folder if a filename search is performed on it.
    cached_children: Vec<FsEntryId>,
    /// The current entry that the [`Self::full_path`] is for.
    current_entry: Option<FsEntryId>,
    full_path: String,
    /// Path separator used when combining path segments. Folder paths will
    /// always end with this separator.
    path_separator: char,
    /// Affects search.
    case_sensitive: bool,
    /// Append dot after file names without any file extension.
    force_file_ext: bool,
}

/// Where the cached children of the folder number `i` end.
spec fn cache_end(parents: Seq<Frame>, cached: Seq<FsEntryId>, i: int) -> int {
    if i + 1 < parents.len() {
        parents[i + 1].cache_start as int
    } else {
        cached.len() as int
    }
}

/// Whether for each folder no or all children are cached.
spec fn cache_ok(parents: Seq<Frame>, cached: Seq<FsEntryId>, items: Map<int, Item>) -> bool {
    &&& parents.len() > 0 ==> parents[0].cache_start == 0
    &&& parents.len() == 0 ==> cached.len() == 0
    &&& forall|i: int|
        0 <= i < parents.len() ==> #[trigger] cache_ok_at(parents, cached, items, i)
}

/// Whether the ids are those of all children of the folder at `at`.
pub open spec fn is_children(ids: Seq<FsEntryId>, items: Map<int, Item>, at: int) -> bool {
    &&& ids.len() == children_count(items, at)
    &&& forall|i: int|
        0 <= i < ids.len() ==> (#[trigger] ids[i]).at() == child(items, at, i as nat)
}

impl FsCursor {
    pub closed spec fn view(self) -> CursorView {
        CursorView {
            frames: self.parents@.map_values(|f: Frame| f.view()),
            current: match self.current_entry {
                Some(id) => Some(id.at()),
                None => None,
            },
            path: self.full_path@,
            separator: self.path_separator,
            case_sensitive: self.case_sensitive,
            force_file_ext: self.force_file_ext,
        }
    }

    closed spec fn private_ok(self, items: Map<int, Item>) -> bool {
        &&& cache_ok(self.parents@, self.cached_children@, items)
        &&& forall|i: int|
            0 <= i < self.parents@.len() ==> (#[trigger] self.parents@[i]).path_len == encode_utf8(
                self.parents@[i].path@,
            ).len()
    }

    /// Whether the cursor can be used with an index that has these items.
    pub closed spec fn wf(self, items: Map<int, Item>) -> bool {
        self.view().ok(items) && self.private_ok(items)
    }

    /// The current entry is an entry of the index.
    pub proof fn lemma_current_ok(self, items: Map<int, Item>)
        requires
            self.wf(items),
        ensures
            self@.ok(items),
    {
    }

    pub fn new(path_separator: char) -> (cursor: Self)
        ensures
            forall|items: Map<int, Item>| #[trigger] cursor.wf(items),
            cursor@ == (CursorView {
                frames: seq![],
                current: None,
                path: seq![],
                separator: path_separator,
                case_sensitive: false,
                force_file_ext: false,
            }),
    {
        let cursor = FsCursor {
            parents: Vec::new(),
            cached_children: Vec::new(),
            current_entry: None,
            full_path: String::new(),
            path_separator,
            case_sensitive: false,
            force_file_ext: false,
        };
        assert(cursor@.frames == Seq::<FrameView>::empty());
        cursor
    }
}

impl FsCursor {
    /// Affects search such as by [`Self::select_child_by_name`].
    pub fn set_case_sensitivity(&mut self, value: bool)
        ensures
            final(self)@ == (CursorView { case_sensitive: value, ..old(self)@ }),
            forall|items: Map<int, Item>|
                old(self).wf(items) ==> #[trigger] final(self).wf(items),
    {
        self.case_sensitive = value;
        assert forall|items: Map<int, Item>| old(self).wf(items) implies #[trigger] self.wf(
            items,
        ) by {
            assert(self@.frames == old(self)@.frames);
        }
    }

    /// If `true` then the path of a file that has no file extension will have a
    /// trailing dot for better compatibility with WizTree.
    pub fn set_force_file_extension(&mut self, value: bool)
        ensures
            final(self)@ == (CursorView { force_file_ext: value, ..old(self)@ }),
            forall|items: Map<int, Item>|
                old(self).wf(items) ==> #[trigger] final(self).wf(items),
    {
        self.force_file_ext = value;
        assert forall|items: Map<int, Item>| old(self).wf(items) implies #[trigger] self.wf(
            items,
        ) by {
            assert(self@.frames == old(self)@.frames);
        }
    }

    /// Clear all data from cursor except the `path_separator` and options.
    pub fn clear(&mut self)
        ensures
            final(self)@ == old(self)@.cleared(),
            forall|items: Map<int, Item>| #[trigger] final(self).wf(items),
    {
        self.current_entry = None;
        self.full_path = String::new();
        self.parents.clear();
        self.cached_children.clear();
        assert(self@.frames == Seq::<FrameView>::empty());
    }

    /// Returns `false` if the specified root is not a folder and so it could
    /// not be set as the root.
    pub fn set_root(&mut self, root: FsEntryId, root_path: Option<&str>, index: &FsIndex) -> (ok:
        bool)
        requires
            index.wf(),
            is_path(index.items(), root.at()),
        ensures
            final(self).wf(index.items()),
            ok == entry_is_folder(index.items(), root.at()),
            !ok ==> final(self)@ == old(self)@.cleared(),
            ok ==> {
                let items = index.items();
                let base = match root_path {
                    Some(path) => path@,
                    None => items[root.at()]->name,
                };
                let path = if ends_with_separator(base) {
                    base
                } else {
                    base.push(old(self)@.separator)
                };
                final(self)@ == (CursorView {
                    frames: seq![
                        FrameView {
                            id: root.at(),
                            start: children_start(items, root.at()),
                            count: children_count(items, root.at()),
                            path,
                        },
                    ],
                    current: Some(root.at()),
                    path,
                    ..old(self)@
                })
            },
    {
        self.clear();
        let ghost items = index.items();
        proof {
            assert(self.wf(items));
            assert(self@.frames.len() == self.parents@.len());
        }
        let children = match root.children(index) {
            Some(children) => children,
            None => {
                return false;
            },
        };
        self.current_entry = Some(root);
        let mut path: String = match root_path {
            Some(path) => path.to_owned(),
            None => root.file_name(index).to_owned(),
        };
        if !text_ends_with_separator(path.as_str()) {
            path.push(self.path_separator);
        }
        let path_len: usize = byte_len(path.as_str());
        let ghost path_view = path@;
        self.full_path = path;
        let frame = Frame { id: root, children, cache_start: 0, path_len, path: Ghost(path_view) };
        self.parents.push(frame);
        proof {
            assert(self@.frames == seq![frame.view()]);
            assert(frame_ok(items, frame.view())) by {
                assert(frame.view().count == children_count(items, root.at()));
                assert(child(items, root.at(), 0) == children_start(items, root.at()));
            }
            assert(cache_ok(self.parents@, self.cached_children@, items));
            assert(path_view.take(path_view.len() as int) == path_view);
        }
        true
    }

    /// The root set by [`Self::set_root`]. Note that the root can be forgotten
    /// if [`Self::advance`] is called too many times.
    pub fn root(&self) -> (root: Option<FsEntryId>)
        ensures
            root is Some <==> self@.frames.len() > 0,
            root matches Some(id) ==> id.at() == self@.frames[0].id,
    {
        if self.parents.len() > 0 {
            Some(self.parents[0].id)
        } else {
            None
        }
    }

    /// The id of the current filesystem entry. Returns `None` of no root has
    /// been set or if the cursor has advanced out of the root.
    pub fn current_id(&self) -> (id: Option<FsEntryId>)
        ensures
            id is Some <==> self@.current is Some,
            id matches Some(id) ==> self@.current == Some(id.at()),
    {
        self.current_entry
    }

    /// The full path of the current filesystem entry.
    pub fn current_path(&self) -> (path: &str)
        ensures
            path@ == self@.path,
    {
        self.full_path.as_str()
    }

    /// Number of folders tracked by the cursor.
    ///
    /// Note: the root is included in this count and if the current entry
    /// is a folder then it will also be included.
    pub fn parent_count(&self) -> (count: usize)
        ensures
            count == self@.frames.len(),
    {
        self.parents.len()
    }

    /// The ids of all child entries in the current folder. Returns `None` if
    /// the current entry is not a folder.
    pub fn current_folder_children(&mut self, index: &FsIndex) -> (children: Option<&[FsEntryId]>)
        requires
            index.wf(),
            old(self).wf(index.items()),
        ensures
            final(self).wf(index.items()),
            final(self)@ == old(self)@,
            children is Some <==> old(self)@.in_folder(),
            children matches Some(ids) ==> is_children(
                ids@,
                index.items(),
                old(self)@.frames.last().id,
            ),
    {
        let ghost items = index.items();
        if self.parents.len() == 0 {
            return None;
        }
        let last: usize = self.parents.len() - 1;
        let id = self.parents[last].id;
        let cache_start: usize = self.parents[last].cache_start;
        proof {
            assert(self@.frames[last as int] == self.parents@[last as int].view());
        }
        let is_current: bool = match self.current_entry {
            Some(current) => current.same(id),
            None => false,
        };
        if !is_current {
            return None;
        }
        proof {
            assert(frame_ok(items, self@.frames[last as int]));
            assert(cache_ok_at(self.parents@, self.cached_children@, items, last as int));
        }
        if self.cached_children.len() == cache_start {
            let children = match id.children(index) {
                Some(children) => children,
                None => {
                    return None;
                },
            };
            let ids = children.iter(index);
            let ghost before = self.cached_children@;
            let mut i: usize = 0;
            while i < ids.len()
                invariant
                    i <= ids@.len(),
                    self.cached_children@ == before + ids@.take(i as int),
                    self.parents@ == old(self).parents@,
                    self.current_entry == old(self).current_entry,
                    self.full_path == old(self).full_path,
                    self.path_separator == old(self).path_separator,
                    self.case_sensitive == old(self).case_sensitive,
                    self.force_file_ext == old(self).force_file_ext,
                decreases ids@.len() - i,
            {
                assert(ids@.take(i + 1) == ids@.take(i as int).push(ids@[i as int]));
                self.cached_children.push(ids[i]);
                i = i + 1;
            }
            proof {
                assert(ids@.take(i as int) == ids@);
                assert(is_children(ids@, items, id.at()));
                let cached = self.cached_children@;
                assert forall|k: int| 0 <= k < self.parents@.len() implies cache_ok_at(
                    self.parents@,
                    cached,
                    items,
                    k,
                ) by {
                    assert(cache_ok_at(self.parents@, before, items, k));
                    let start = self.parents@[k].cache_start as int;
                    let end = cache_end(self.parents@, cached, k);
                    if k < last {
                        assert(cached.subrange(start, end) == before.subrange(start, end));
                    } else {
                        assert(cached.subrange(start, end) == ids@);
                    }
                }
            }
        }
        proof {
            assert(self@ == old(self)@);
            let cached = self.cached_children@;
            let end = cache_end(self.parents@, cached, last as int);
            assert(cache_ok_at(self.parents@, cached, items, last as int));
            assert(self.parents@[last as int].cache_start == cache_start);
            assert(end == cached.len());
            if cache_start == cached.len() {
                assert(children_count(items, id.at()) == 0);
            }
        }
        Some(
            vstd::slice::slice_subrange(
                self.cached_children.as_slice(),
                cache_start,
                self.cached_children.len(),
            ),
        )
    }
}


impl FsCursor {
    /// Selects a child entry of the currently selected folder.
    fn select_child(&mut self, child_id: FsEntryId, index: &FsIndex)
        requires
            index.wf(),
            old(self).wf(index.items()),
            old(self)@.frames.len() > 0,
            old(self)@.path == old(self)@.frames.last().path,
            is_path(index.items(), child_id.at()),
            is_child(index.items(), old(self)@.frames.last().id, child_id.at()),
        ensures
            final(self).wf(index.items()),
            final(self)@ == old(self)@.selected(index.items(), child_id.at()),
    {
        let ghost items = index.items();
        let ghost before = *self;
        let ghost at = child_id.at();
        assert(frame_ok(items, self@.frames.last()));
        self.current_entry = Some(child_id);
        let name = child_id.file_name(index);
        self.full_path.append(name);
        let ghost named = self.full_path@;
        match child_id.children(index) {
            Some(children) => {
                self.full_path.push(self.path_separator);
                let frame = Frame {
                    id: child_id,
                    children,
                    cache_start: self.cached_children.len(),
                    path_len: byte_len(self.full_path.as_str()),
                    path: Ghost(self.full_path@),
                };
                self.parents.push(frame);
                proof {
                    let frames = self@.frames;
                    assert(frames == before@.frames.push(frame.view()));
                    let path = self.full_path@;
                    assert(frame_ok(items, frame.view())) by {
                        assert(child(items, at, 0) == children_start(items, at));
                    }
                    assert(path.take(path.len() as int) == path);
                    let top = before@.frames.last();
                    assert(path.take(top.path.len() as int) == top.path);
                    assert forall|i: int, j: int|
                        #![trigger frames[i], frames[j]]
                        0 <= i < j < frames.len() implies starts_with(
                        frames[j].path,
                        frames[i].path,
                    ) by {
                        if j == frames.len() - 1 {
                            let parent = before@.frames[i];
                            if i < frames.len() - 2 {
                                assert(starts_with(top.path, parent.path));
                            } else {
                                assert(top.path.take(top.path.len() as int) == top.path);
                            }
                            assert(path.take(parent.path.len() as int) == top.path.take(
                                parent.path.len() as int,
                            ));
                        } else {
                            assert(starts_with(before@.frames[j].path, before@.frames[i].path));
                        }
                    }
                    assert forall|i: int| 0 <= i < frames.len() implies frame_ok(
                        items,
                        #[trigger] frames[i],
                    ) by {
                        if i < frames.len() - 1 {
                            assert(frame_ok(items, before@.frames[i]));
                        }
                    }
                    assert forall|i: int| 0 < i < frames.len() implies #[trigger] linked_at(items, frames, i) by {
                        assert(frames[i - 1] == before@.frames[i - 1]);
                        if i < frames.len() - 1 {
                            assert(linked_at(items, before@.frames, i));
                            assert(frames[i] == before@.frames[i]);
                        }
                    }
                    lemma_cache_push(before.parents@, frame, self.cached_children@, items);
                }
            },
            None => {
                if self.force_file_ext && !text_contains(name, '.') {
                    self.full_path.push('.');
                }
                proof {
                    assert(self@.frames == before@.frames);
                    let top = before@.frames.last();
                    assert(self.full_path@.take(top.path.len() as int) == top.path);
                }
            },
        }
    }
}

/// A further folder without cached children.
proof fn lemma_cache_push(
    parents: Seq<Frame>,
    frame: Frame,
    cached: Seq<FsEntryId>,
    items: Map<int, Item>,
)
    requires
        cache_ok(parents, cached, items),
        frame.cache_start == cached.len(),
    ensures
        cache_ok(parents.push(frame), cached, items),
{
    let more = parents.push(frame);
    assert forall|i: int| 0 <= i < more.len() implies cache_ok_at(more, cached, items, i) by {
        if i < parents.len() {
            assert(cache_ok_at(parents, cached, items, i));
            assert(cache_end(more, cached, i) == cache_end(parents, cached, i));
        }
    }
}

/// A text that starts with another can be cut after it.
proof fn lemma_cut_prefix(text: Seq<char>, prefix: Seq<char>)
    requires
        starts_with(text, prefix),
    ensures
        encode_utf8(prefix).len() <= encode_utf8(text).len(),
        is_char_boundary(encode_utf8(text), encode_utf8(prefix).len() as int),
        byte_prefix(text, encode_utf8(prefix).len() as int) == prefix,
        byte_suffix(text, encode_utf8(prefix).len() as int) == Some(
            text.skip(prefix.len() as int),
        ),
{
    let rest = text.skip(prefix.len() as int);
    assert(text == prefix + rest);
    lemma_cut_concat(prefix, rest);
    lemma_encode_concat(prefix, rest);
}

/// Whether no or all children of the folder number `i` are cached.
spec fn cache_ok_at(
    parents: Seq<Frame>,
    cached: Seq<FsEntryId>,
    items: Map<int, Item>,
    i: int,
) -> bool {
    let start = parents[i].cache_start as int;
    let end = cache_end(parents, cached, i);
    &&& start <= end <= cached.len()
    &&& start < end ==> is_children(cached.subrange(start, end), items, parents[i].id.at())
}

/// Cutting off the last folders and what is cached for them.
proof fn lemma_cache_take(
    parents: Seq<Frame>,
    cached: Seq<FsEntryId>,
    items: Map<int, Item>,
    count: int,
)
    requires
        cache_ok(parents, cached, items),
        0 <= count < parents.len(),
    ensures
        parents[count].cache_start <= cached.len(),
        cache_ok(parents.take(count), cached.take(parents[count].cache_start as int), items),
{
    let fewer = parents.take(count);
    let end = parents[count].cache_start as int;
    assert(cache_ok_at(parents, cached, items, count));
    let rest = cached.take(end);
    assert forall|i: int| 0 <= i < fewer.len() implies cache_ok_at(fewer, rest, items, i) by {
        assert(cache_ok_at(parents, cached, items, i));
        let start = parents[i].cache_start as int;
        let stop = cache_end(parents, cached, i);
        lemma_cache_order(parents, cached, items, i + 1, count);
        assert(rest.subrange(start, stop) == cached.subrange(start, stop));
    }
}

proof fn lemma_cache_order(
    parents: Seq<Frame>,
    cached: Seq<FsEntryId>,
    items: Map<int, Item>,
    i: int,
    j: int,
)
    requires
        cache_ok(parents, cached, items),
        0 <= i <= j < parents.len(),
    ensures
        parents[i].cache_start <= parents[j].cache_start,
    decreases j - i,
{
    if i < j {
        lemma_cache_order(parents, cached, items, i, j - 1);
        assert(cache_ok_at(parents, cached, items, j - 1));
    }
}

impl FsCursor {
    /// Moves the cursor from a file inside a folder to the folder itself.
    fn select_folder(&mut self, items: Ghost<Map<int, Item>>)
        requires
            old(self).wf(items@),
        ensures
            final(self).wf(items@),
            final(self)@ == old(self)@.at_folder(),
    {
        if self.parents.len() == 0 {
            self.clear();
            return;
        }
        let ghost before = *self;
        let last: usize = self.parents.len() - 1;
        proof {
            assert(self@.frames[last as int] == self.parents@[last as int].view());
            lemma_cut_prefix(self.full_path@, self@.frames.last().path);
            assert(frame_ok(items@, self@.frames.last()));
        }
        self.current_entry = Some(self.parents[last].id);
        let len: usize = self.parents[last].path_len;
        self.full_path.truncate(len);
        proof {
            assert(self@.frames == before@.frames);
            let path = self.full_path@;
            assert(path.take(path.len() as int) == path);
        }
    }

    /// Move the cursor to a child entry of the current folder based on that
    /// child's name. Returns `false` if the child could **not** be found.
    pub fn select_child_by_name(&mut self, name: &str, index: &FsIndex) -> (found: bool)
        requires
            index.wf(),
            old(self).wf(index.items()),
        ensures
            final(self).wf(index.items()),
            match old(self)@.picked(index.items(), name@) {
                Some(view) => found && final(self)@ == view,
                None => !found && final(self)@ == old(self)@,
            },
    {
        let case_sensitive = self.case_sensitive;
        let ghost items = index.items();
        let ghost before = self@;
        let ghost at = before.frames.last().id;
        let mut found: Option<FsEntryId> = None;
        match self.current_folder_children(index) {
            None => {
                return false;
            },
            Some(children) => {
                proof {
                    assert(frame_ok(items, before.frames.last()));
                }
                let mut i: usize = 0;
                while i < children.len()
                    invariant_except_break
                        i <= children@.len(),
                        found is None,
                        find_child(items, at, name@, case_sensitive, 0) == find_child(
                            items,
                            at,
                            name@,
                            case_sensitive,
                            i as nat,
                        ),
                    invariant
                        index.wf(),
                        items == index.items(),
                        is_children(children@, items, at),
                        paths_ok(items, children_start(items, at), children_count(items, at)),
                    ensures
                        match find_child(items, at, name@, case_sensitive, 0) {
                            Some(k) => found is Some && found->0.at() == child(items, at, k)
                                && is_path(items, found->0.at()) && is_child(
                                items,
                                at,
                                found->0.at(),
                            ),
                            None => found is None,
                        },
                    decreases children@.len() - i,
                {
                    let id = children[i];
                    proof {
                        assert(id.at() == child(items, at, i as nat));
                        assert(is_path(items, nth_path(items, children_start(items, at), i as nat)));
                    }
                    let matches: bool = if case_sensitive {
                        same_text(name, id.file_name(index))
                    } else {
                        same_ignoring_case(name, id.file_name(index))
                    };
                    if matches {
                        found = Some(id);
                        break;
                    }
                    i = i + 1;
                }
            },
        }
        match found {
            Some(id) => {
                self.select_child(id, index);
                true
            },
            None => false,
        }
    }

    /// Move the cursor to one of the tracked folders, counting from the root. Does
    /// nothing if there is no such folder or it is the last one.
    pub fn go_to_parent_at_index(&mut self, ix: usize)
        requires
            ix < usize::MAX,
            exists|items: Map<int, Item>| #[trigger] old(self).wf(items),
        ensures
            forall|items: Map<int, Item>|
                old(self).wf(items) ==> #[trigger] final(self).wf(items),
            final(self)@ == old(self)@.at_parent(ix as nat),
    {
        let ghost before = *self;
        let ghost some_items = choose|items: Map<int, Item>| #[trigger] self.wf(items);
        if ix + 1 < self.parents.len() {
            let cache_start: usize = self.parents[ix + 1].cache_start;
            proof {
                lemma_cache_take(self.parents@, self.cached_children@, some_items, ix + 1);
                lemma_cut_prefix_of_frame(before@, some_items, ix as int);
            }
            self.cached_children.truncate(cache_start);
            self.parents.truncate(ix + 1);
            proof {
                assert(self.cached_children@ == before.cached_children@.take(cache_start as int));
                assert(self.parents@ == before.parents@.take(ix + 1));
                assert(self@.frames == before@.frames.take(ix + 1));
            }
            let len: usize = self.parents[ix].path_len;
            assert(self.parents@[ix as int].view() == before@.frames[ix as int]);
            self.current_entry = Some(self.parents[ix].id);
            self.full_path.truncate(len);
        }
        assert forall|items: Map<int, Item>| before.wf(items) implies #[trigger] self.wf(
            items,
        ) by {
            before@.lemma_at_parent_ok(items, ix as nat);
            if ix + 1 < before.parents@.len() {
                lemma_cache_take(before.parents@, before.cached_children@, items, ix + 1);
            }
        }
    }
}

impl CursorView {
    pub proof fn lemma_at_parent_ok(self, items: Map<int, Item>, ix: nat)
        requires
            self.ok(items),
        ensures
            self.at_parent(ix).ok(items),
    {
        if ix + 1 < self.frames.len() {
            let after = self.at_parent(ix);
            let frames = after.frames;
            let path = after.path;
            assert(path.take(path.len() as int) == path);
            assert forall|i: int| 0 <= i < frames.len() implies frame_ok(
                items,
                #[trigger] frames[i],
            ) by {
                assert(frames[i] == self.frames[i]);
            }
            assert forall|i: int, j: int|
                #![trigger frames[i], frames[j]]
                0 <= i < j < frames.len() implies starts_with(frames[j].path, frames[i].path) by {
                assert(frames[i] == self.frames[i] && frames[j] == self.frames[j]);
            }
            assert forall|i: int| 0 < i < frames.len() implies #[trigger] linked_at(items, frames, i) by {
                assert(linked_at(items, self.frames, i));
                assert(frames[i - 1] == self.frames[i - 1] && frames[i] == self.frames[i]);
            }
            assert(frame_ok(items, self.frames[ix as int]));
        }
    }
}

/// The path of the current entry starts with the path of each folder it is in.
proof fn lemma_cut_prefix_of_frame(view: CursorView, items: Map<int, Item>, i: int)
    requires
        view.ok(items),
        0 <= i < view.frames.len(),
    ensures
        starts_with(view.path, view.frames[i].path),
        encode_utf8(view.frames[i].path).len() <= encode_utf8(view.path).len(),
        is_char_boundary(encode_utf8(view.path), encode_utf8(view.frames[i].path).len() as int),
        byte_prefix(view.path, encode_utf8(view.frames[i].path).len() as int)
            == view.frames[i].path,
{
    let last = view.frames.last();
    let frame = view.frames[i];
    if i < view.frames.len() - 1 {
        assert(starts_with(view.frames[view.frames.len() - 1].path, frame.path));
        assert(view.path.take(frame.path.len() as int) == last.path.take(frame.path.len() as int));
    }
    lemma_cut_prefix(view.path, frame.path);
}

impl FsCursor {
    /// Move the cursor to the filesystem entry at the specified path. Returns
    /// `false` if there is no entry for the path.
    ///
    /// The cursor's selection might be changed even if the return value is
    /// `false`, in that case the closest parent folder is selected.
    pub fn go_to_path(&mut self, full_path: &str, index: &FsIndex) -> (found: bool)
        requires
            index.wf(),
            old(self).wf(index.items()),
        ensures
            final(self).wf(index.items()),
            (final(self)@, found) == old(self)@.went_to(index.items(), full_path@),
    {
        let ghost items = index.items();
        if self.parents.len() == 0 {
            return false;
        }
        let ghost before = self@;
        proof {
            lemma_cut_prefix_of_frame(before, items, 0);
            assert(self@.frames[0] == self.parents@[0].view());
        }
        let root_len: usize = self.parents[0].path_len;
        let (root_path, _rest) = self.full_path.as_str().split_at(root_len);
        proof {
            vstd::utf8::encode_utf8_decode_utf8(root_path@);
            assert(root_path@ == before.frames[0].path);
        }
        if !text_starts_with(full_path, root_path) {
            self.go_to_parent_at_index(0);
            self.select_folder(Ghost(items));
            return false;
        }
        proof {
            lemma_cut_prefix(full_path@, before.frames[0].path);
        }
        let rest: &str = match text_after(full_path, root_len) {
            Some(rest) => rest,
            None => "",
        };
        self.select_folder(Ghost(items));
        let names = path_segments(rest);
        let ghost all = segments(rest@);
        let ghost goal = self@.walked(items, all, 1);
        let mut k: usize = 0;
        assert(all.skip(0) == all);
        assert(goal == before.went_to(items, full_path@));
        while k < names.len()
            invariant
                k <= names@.len(),
                before == old(self)@,
                goal == before.went_to(items, full_path@),
                index.wf(),
                items == index.items(),
                self.wf(items),
                views(names@) == all,
                goal == self@.walked(items, all.skip(k as int), (k + 1) as nat),
            decreases names@.len() - k,
        {
            let ghost rest_names = all.skip(k as int);
            proof {
                assert(all[k as int] == names@[k as int]@);
                assert(rest_names[0] == all[k as int]);
                assert(rest_names.drop_first() == all.skip(k + 1));
            }
            let mut kept: bool = false;
            if k + 1 < self.parents.len() {
                proof {
                    assert(self@.frames[k + 1] == self.parents@[k + 1].view());
                    assert(frame_ok(items, self@.frames[k + 1]));
                }
                let actual = self.parents[k + 1].id.file_name(index);
                kept = if self.case_sensitive {
                    same_text(names[k].as_str(), actual)
                } else {
                    same_ignoring_case(names[k].as_str(), actual)
                };
            }
            if !kept {
                self.go_to_parent_at_index(k);
                if !self.select_child_by_name(names[k].as_str(), index) {
                    self.select_folder(Ghost(items));
                    return false;
                }
            }
            k = k + 1;
        }
        assert(all.skip(k as int) == Seq::<Seq<char>>::empty());
        if k < self.parents.len() {
            self.go_to_parent_at_index(k);
        }
        true
    }

    /// Move the cursor forward to the next child in the current folder.
    ///
    /// If the next child is a subfolder then the cursor is moved into that
    /// folder and will continue with its first child the next time the cursor
    /// is advanced.
    ///
    /// If the cursor is at the last child of a folder then advancing will move
    /// the cursor into the next child of an ancestor/parent folder. If there is
    /// no such child then the cursor advances out of the root folder and the
    /// root is forgotten.
    pub fn advance(&mut self, index: &FsIndex)
        requires
            index.wf(),
            old(self).wf(index.items()),
        ensures
            final(self).wf(index.items()),
            final(self)@ == old(self)@.advanced(index.items()),
    {
        let ghost items = index.items();
        let ghost before = *self;
        let ghost view = self@;
        assert(before.parents@.take(before.parents@.len() as int) == before.parents@);
        assert(view.frames.take(view.frames.len() as int) == view.frames);
        while self.parents.len() > 0 && self.parents[self.parents.len() - 1].children.is_empty()
            invariant
                view == before@,
                before.wf(items),
                self.parents@.len() <= before.parents@.len(),
                self.parents@ == before.parents@.take(self.parents@.len() as int),
                cache_ok(self.parents@, self.cached_children@, items),
                self.full_path == before.full_path,
                self.path_separator == before.path_separator,
                self.case_sensitive == before.case_sensitive,
                self.force_file_ext == before.force_file_ext,
                view.advanced(items) == (CursorView {
                    frames: view.frames.take(self.parents@.len() as int),
                    ..view
                }).advanced(items),
            decreases self.parents@.len(),
        {
            let last: usize = self.parents.len() - 1;
            let cache_start: usize = self.parents[last].cache_start;
            let ghost parents = self.parents@;
            proof {
                lemma_cache_take(parents, self.cached_children@, items, last as int);
                assert(view.frames[last as int] == before.parents@[last as int].view());
                assert(view.frames.take(last + 1).last() == view.frames[last as int]);
                assert(view.frames.take(last + 1).drop_last() == view.frames.take(last as int));
            }
            self.cached_children.truncate(cache_start);
            self.parents.truncate(last);
            proof {
                assert(self.parents@ == parents.take(last as int));
                assert(self.parents@ == before.parents@.take(last as int));
            }
        }
        let ghost count = self.parents@.len() as int;
        let mut frame = match self.parents.pop() {
            Some(frame) => frame,
            None => {
                self.clear();
                assert(view.frames.take(0) == Seq::<FrameView>::empty());
                return;
            },
        };
        let ghost old_frame = frame;
        let ghost top = view.frames[count - 1];
        proof {
            assert(top == frame.view());
            assert(frame_ok(items, top));
            lemma_cut_prefix_of_frame(view, items, count - 1);
            assert(view.frames.take(count).last() == top);
            assert(view.frames.take(count).drop_last() == view.frames.take(count - 1));
        }
        let child_id = match frame.children.next(index) {
            Some(id) => id,
            None => {
                return;
            },
        };
        self.current_entry = Some(frame.id);
        self.full_path.truncate(frame.path_len);
        self.parents.push(frame);
        proof {
            let rest = FrameView {
                start: nth_path(items, top.start, 1),
                count: (top.count - 1) as nat,
                ..top
            };
            assert(frame.view() == rest);
            let frames = self@.frames;
            assert(frames == view.frames.take(count - 1).push(rest));
            assert(frame_ok(items, rest)) by {
                let n = children_count(items, top.id);
                let start = children_start(items, top.id);
                lemma_nth_path_skip(items, start, (n - top.count) as nat, 1);
            }
            assert forall|i: int| 0 <= i < frames.len() implies frame_ok(
                items,
                #[trigger] frames[i],
            ) by {
                if i < count - 1 {
                    assert(frames[i] == view.frames[i]);
                }
            }
            assert forall|i: int, j: int|
                #![trigger frames[i], frames[j]]
                0 <= i < j < frames.len() implies starts_with(frames[j].path, frames[i].path) by {
                assert(frames[i].path == view.frames[i].path);
                assert(frames[j].path == view.frames[j].path);
            }
            assert forall|i: int| 0 < i < frames.len() implies #[trigger] linked_at(items, frames, i) by {
                assert(linked_at(items, view.frames, i));
                assert(frames[i - 1].id == view.frames[i - 1].id);
                assert(frames[i].id == view.frames[i].id);
            }
            assert(is_child(items, top.id, top.start)) by {
                let k = (children_count(items, top.id) - top.count) as nat;
                assert(child(items, top.id, k) == top.start);
            }
            let path = self.full_path@;
            assert(path == top.path);
            assert(path.take(path.len() as int) == path);
            lemma_cache_same(
                before.parents@.take(count),
                self.parents@,
                self.cached_children@,
                items,
            );
            assert(self.wf(items));
        }
        self.select_child(child_id, index);
    }
}

/// The cache does not depend on which children have been visited.
proof fn lemma_cache_same(
    a: Seq<Frame>,
    b: Seq<Frame>,
    cached: Seq<FsEntryId>,
    items: Map<int, Item>,
)
    requires
        cache_ok(a, cached, items),
        a.len() == b.len(),
        forall|i: int|
            #![trigger a[i]]
            #![trigger b[i]]
            0 <= i < a.len() ==> b[i].id == a[i].id && b[i].cache_start == a[i].cache_start,
    ensures
        cache_ok(b, cached, items),
{
    assert forall|i: int| 0 <= i < b.len() implies cache_ok_at(b, cached, items, i) by {
        assert(cache_ok_at(a, cached, items, i));
    }
}

impl CursorView {
    /// Selecting an entry of the current folder adds its name to the path, and a separator
    /// if it is a folder. The entry is found by its name in the folder. Going back to the
    /// folder undoes that.
    pub proof fn law_going_back_undoes_selecting(self, items: Map<int, Item>, name: Seq<char>)
        requires
            self.ok(items),
            !self.force_file_ext,
            self.in_folder(),
        ensures
            self.picked(items, name) matches Some(next) ==> {
                let at = next.current->0;
                &&& next.current is Some
                &&& entry_is_folder(items, at) ==> next.path == (self.path + items[at]->name).push(
                    self.separator,
                )
                &&& !entry_is_folder(items, at) ==> next.path == self.path + items[at]->name
                &&& entry_is_folder(items, at) ==> next.frames.len() == self.frames.len() + 1
                    && next.at_parent((self.frames.len() - 1) as nat) == self
                &&& !entry_is_folder(items, at) ==> next.at_folder() == self
                &&& name_matches(name, items[at]->name, self.case_sensitive)
                &&& is_child(items, self.frames.last().id, at)
            },
    {
        let folder = self.frames.last().id;
        lemma_found_child(items, folder, name, self.case_sensitive, 0);
        if let Some(next) = self.picked(items, name) {
            let i = find_child(items, folder, name, self.case_sensitive, 0)->0;
            let at = child(items, folder, i);
            assert(is_child(items, folder, at));
            if entry_is_folder(items, at) {
                let last = (self.frames.len() - 1) as nat;
                assert(next.frames.take(last + 1int) == self.frames);
                assert(next.frames[last as int] == self.frames.last());
            }
        }
    }
}

proof fn lemma_found_child(
    items: Map<int, Item>,
    at: int,
    name: Seq<char>,
    case_sensitive: bool,
    i: nat,
)
    ensures
        find_child(items, at, name, case_sensitive, i) matches Some(k) ==> {
            &&& i <= k < children_count(items, at)
            &&& name_matches(name, items[child(items, at, k)]->name, case_sensitive)
        },
    decreases children_count(items, at) - i,
{
    if i < children_count(items, at) {
        lemma_found_child(items, at, name, case_sensitive, i + 1);
    }
}

} // verus!
