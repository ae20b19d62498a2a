//! Finding entries by their path.
use vstd::prelude::*;

use crate::fs_cursor::{
    child, children_count, children_start, find_child, frame_ok, is_child, linked_at, meta_of,
    name_matches, CursorView,
};
use crate::fs_export::lemma_folder_of_tree;
use crate::fs_index::{entry_is_folder, folder_ok, is_meta, is_path, links_ok, nth_path, Item};
use crate::fs_tree::{lemma_list_holds, list_holds, path_holds, FsNode};
use crate::text::{segments, starts_with};

verus! {

/// Number of the first tree from `i` on that has the given name.
pub open spec fn find_in_list(
    list: Seq<FsNode>,
    name: Seq<char>,
    case_sensitive: bool,
    i: nat,
) -> Option<nat>
    decreases list.len() - i,
{
    if i >= list.len() {
        None
    } else if name_matches(name, list[i as int].name, case_sensitive) {
        Some(i)
    } else {
        find_in_list(list, name, case_sensitive, i + 1)
    }
}

/// The entry that is reached from a tree by some names. At each step it is the
/// first entry of the folder that has the name.
pub open spec fn find_node(
    tree: FsNode,
    names: Seq<Seq<char>>,
    case_sensitive: bool,
) -> Option<FsNode>
    decreases names.len(),
{
    if names.len() == 0 {
        Some(tree)
    } else if tree.is_folder() {
        match find_in_list(tree.children, names[0], case_sensitive, 0) {
            Some(i) => find_node(tree.children[i as int], names.drop_first(), case_sensitive),
            None => None,
        }
    } else {
        None
    }
}

/// Place of the entry that is reached from the entry at `at` by some names.
pub open spec fn find_entry(
    items: Map<int, Item>,
    at: int,
    names: Seq<Seq<char>>,
    case_sensitive: bool,
) -> Option<int>
    decreases names.len(),
{
    if names.len() == 0 {
        Some(at)
    } else if entry_is_folder(items, at) {
        match find_child(items, at, names[0], case_sensitive, 0) {
            Some(i) => find_entry(
                items,
                child(items, at, i),
                names.drop_first(),
                case_sensitive,
            ),
            None => None,
        }
    } else {
        None
    }
}

/// The first child with some name is the first tree with that name.
proof fn lemma_find_child(
    items: Map<int, Item>,
    at: int,
    list: Seq<FsNode>,
    name: Seq<char>,
    case_sensitive: bool,
    i: nat,
)
    requires
        list.len() == children_count(items, at),
        list_holds(items, children_start(items, at), list),
    ensures
        find_child(items, at, name, case_sensitive, i) == find_in_list(
            list,
            name,
            case_sensitive,
            i,
        ),
    decreases list.len() - i,
{
    if i < list.len() {
        lemma_find_child(items, at, list, name, case_sensitive, i + 1);
        lemma_list_holds(items, children_start(items, at), list);
        let k = i as int;
        assert(path_holds(items, nth_path(items, children_start(items, at), k as nat), list[k]));
    }
}

/// What is found is one of the children and has the name.
pub proof fn lemma_found(
    items: Map<int, Item>,
    at: int,
    name: Seq<char>,
    case_sensitive: bool,
    i: nat,
)
    ensures
        find_child(items, at, name, case_sensitive, i) matches Some(k) ==> {
            &&& i <= k < children_count(items, at)
            &&& name_matches(name, items[child(items, at, k)]->name, case_sensitive)
        },
    decreases children_count(items, at) - i,
{
    if i < children_count(items, at) {
        lemma_found(items, at, name, case_sensitive, i + 1);
    }
}

proof fn lemma_found_in_list(list: Seq<FsNode>, name: Seq<char>, case_sensitive: bool, i: nat)
    ensures
        find_in_list(list, name, case_sensitive, i) matches Some(k) ==> i <= k < list.len(),
    decreases list.len() - i,
{
    if i < list.len() {
        lemma_found_in_list(list, name, case_sensitive, i + 1);
    }
}

/// Following names in an index is following names in its tree.
pub proof fn lemma_find_entry(
    items: Map<int, Item>,
    at: int,
    tree: FsNode,
    names: Seq<Seq<char>>,
    case_sensitive: bool,
)
    requires
        path_holds(items, at, tree),
        forall|o: int| #[trigger] is_meta(items, o) ==> items[o].ok(),
    ensures
        find_entry(items, at, names, case_sensitive) is Some <==> find_node(
            tree,
            names,
            case_sensitive,
        ) is Some,
        find_entry(items, at, names, case_sensitive) matches Some(p) ==> path_holds(
            items,
            p,
            find_node(tree, names, case_sensitive)->0,
        ),
    decreases names.len(),
{
    lemma_folder_of_tree(items, at, tree);
    if names.len() > 0 && tree.is_folder() {
        lemma_find_child(items, at, tree.children, names[0], case_sensitive, 0);
        lemma_found_in_list(tree.children, names[0], case_sensitive, 0);
        if let Some(i) = find_in_list(tree.children, names[0], case_sensitive, 0) {
            lemma_list_holds(items, children_start(items, at), tree.children);
            let k = i as int;
            assert(path_holds(
                items,
                nth_path(items, children_start(items, at), k as nat),
                tree.children[k],
            ));
            lemma_find_entry(
                items,
                child(items, at, i),
                tree.children[k],
                names.drop_first(),
                case_sensitive,
            );
        }
    }
}

/// Two names that are considered the same find the same child.
proof fn lemma_same_name(
    items: Map<int, Item>,
    at: int,
    a: Seq<char>,
    b: Seq<char>,
    case_sensitive: bool,
    i: nat,
)
    requires
        name_matches(a, b, case_sensitive),
    ensures
        find_child(items, at, a, case_sensitive, i) == find_child(items, at, b, case_sensitive, i),
    decreases children_count(items, at) - i,
{
    if i < children_count(items, at) {
        lemma_same_name(items, at, a, b, case_sensitive, i + 1);
    }
}

impl CursorView {
    /// Whether each folder that the cursor is in is the one that is found by its
    /// name in the folder before.
    pub open spec fn first_matches(self, items: Map<int, Item>) -> bool {
        forall|i: int|
            0 < i < self.frames.len() ==> {
                let parent = self.frames[i - 1].id;
                let name = items[(#[trigger] self.frames[i]).id]->name;
                &&& find_child(items, parent, name, self.case_sensitive, 0) matches Some(k)
                    && child(items, parent, k) == self.frames[i].id
            }
    }

    /// Whether the entry number `i - 1` on the way to the current entry is a folder
    /// that the cursor is in, or the current entry.
    pub open spec fn at_step(self, i: nat) -> bool {
        &&& 1 <= i
        &&& self.frames.len() > 0
        &&& i <= self.frames.len() ==> self.in_folder()
        &&& i > self.frames.len() ==> i == self.frames.len() + 1 && !self.in_folder()
        &&& self.current is Some
    }

    /// Place of the entry number `i - 1` on the way to the current entry.
    pub open spec fn step_entry(self, i: nat) -> int {
        if i <= self.frames.len() {
            self.frames[i - 1].id
        } else {
            self.current->0
        }
    }

    proof fn lemma_parent_matches(self, items: Map<int, Item>, ix: nat)
        requires
            self.first_matches(items),
        ensures
            self.at_parent(ix).first_matches(items),
    {
        let after = self.at_parent(ix);
        assert forall|j: int| 0 < j < after.frames.len() implies {
            let parent = after.frames[j - 1].id;
            let name = items[(#[trigger] after.frames[j]).id]->name;
            &&& find_child(items, parent, name, after.case_sensitive, 0) matches Some(k)
                && child(items, parent, k) == after.frames[j].id
        } by {
            assert(after.frames[j] == self.frames[j]);
            assert(after.frames[j - 1] == self.frames[j - 1]);
        }
    }

    proof fn lemma_selected_matches(self, items: Map<int, Item>, name: Seq<char>)
        requires
            self.first_matches(items),
            self.in_folder(),
            find_child(items, self.frames.last().id, name, self.case_sensitive, 0) is Some,
        ensures
            ({
                let at = self.frames.last().id;
                let k = find_child(items, at, name, self.case_sensitive, 0)->0;
                self.selected(items, child(items, at, k)).first_matches(items)
            }),
    {
        let at = self.frames.last().id;
        let k = find_child(items, at, name, self.case_sensitive, 0)->0;
        let p = child(items, at, k);
        let after = self.selected(items, p);
        lemma_found(items, at, name, self.case_sensitive, 0);
        lemma_same_name(items, at, name, items[p]->name, self.case_sensitive, 0);
        assert forall|j: int| 0 < j < after.frames.len() implies {
            let parent = after.frames[j - 1].id;
            let name = items[(#[trigger] after.frames[j]).id]->name;
            &&& find_child(items, parent, name, after.case_sensitive, 0) matches Some(k) && child(
                items,
                parent,
                k,
            ) == after.frames[j].id
        } by {
            assert(after.frames[j - 1] == self.frames[j - 1]);
            if j < self.frames.len() {
                assert(after.frames[j] == self.frames[j]);
            }
        }
    }

    /// Where a cursor gets to by following some names does not depend on where it
    /// was before.
    #[verifier::spinoff_prover]
    proof fn lemma_walked(self, items: Map<int, Item>, names: Seq<Seq<char>>, i: nat)
        requires
            self.ok(items),
            links_ok(items, None),
            self.first_matches(items),
            self.at_step(i),
            i > self.frames.len() ==> !entry_is_folder(items, self.step_entry(i)),
        ensures
            ({
                let (after, found) = self.walked(items, names, i);
                let entry = find_entry(items, self.step_entry(i), names, self.case_sensitive);
                &&& found == (entry is Some)
                &&& found ==> after.current == entry
                &&& after.first_matches(items)
                &&& after.frames.len() > 0
                &&& after.frames[0] == self.frames[0]
                &&& after.case_sensitive == self.case_sensitive
            }),
        decreases names.len(),
    {
        let at = self.step_entry(i);
        if names.len() == 0 {
            self.lemma_parent_matches(items, (i - 1) as nat);
        } else if i < self.frames.len() && name_matches(
            names[0],
            items[self.frames[i as int].id]->name,
            self.case_sensitive,
        ) {
            assert(frame_ok(items, self.frames[i - 1]));
            let name = items[self.frames[i as int].id]->name;
            lemma_same_name(items, at, names[0], name, self.case_sensitive, 0);
            self.lemma_walked(items, names.drop_first(), i + 1);
        } else {
            let start = self.at_parent((i - 1) as nat);
            self.lemma_at_parent_ok(items, (i - 1) as nat);
            self.lemma_parent_matches(items, (i - 1) as nat);
            if i <= self.frames.len() {
                assert(start.frames.len() == i);
                assert(start.in_folder());
                assert(start.frames.last().id == at);
                assert(start.frames[0] == self.frames[0]);
                assert(frame_ok(items, start.frames.last()));
                lemma_found(items, at, names[0], self.case_sensitive, 0);
                if let Some(k) = find_child(items, at, names[0], self.case_sensitive, 0) {
                    let p = child(items, at, k);
                    let next = start.selected(items, p);
                    assert(is_path(items, nth_path(items, children_start(items, at), k)));
                    if entry_is_folder(items, p) {
                        assert(is_meta(items, meta_of(items, p)));
                        assert(folder_ok(items, meta_of(items, p)));
                    }
                    start.lemma_selected_ok(items, p);
                    start.lemma_selected_matches(items, names[0]);
                    next.lemma_walked(items, names.drop_first(), i + 1);
                }
            }
        }
    }

    /// Selecting a child of the current folder leads to an entry of the index.
    pub proof fn lemma_selected_ok(self, items: Map<int, Item>, at: int)
        requires
            self.ok(items),
            self.in_folder(),
            is_path(items, at),
            is_child(items, self.frames.last().id, at),
            entry_is_folder(items, at) ==> crate::fs_index::paths_ok(
                items,
                children_start(items, at),
                children_count(items, at),
            ),
        ensures
            self.selected(items, at).ok(items),
            !entry_is_folder(items, at) ==> !self.selected(items, at).in_folder(),
    {
        let after = self.selected(items, at);
        let top = self.frames.last();
        assert(frame_ok(items, top));
        let path = after.path;
        assert(path.take(top.path.len() as int) == top.path);
        assert(path.take(path.len() as int) == path);
        if entry_is_folder(items, at) {
            let frames = after.frames;
            assert forall|i: int, j: int|
                #![trigger frames[i], frames[j]]
                0 <= i < j < frames.len() implies starts_with(frames[j].path, frames[i].path) by {
                if j == frames.len() - 1 {
                    let parent = self.frames[i];
                    if i < frames.len() - 2 {
                        assert(starts_with(top.path, parent.path));
                    } else {
                        assert(top.path.take(top.path.len() as int) == top.path);
                    }
                    assert(path.take(parent.path.len() as int) == top.path.take(
                        parent.path.len() as int,
                    ));
                } else {
                    assert(starts_with(self.frames[j].path, self.frames[i].path));
                }
            }
            assert forall|i: int| 0 <= i < frames.len() implies frame_ok(
                items,
                #[trigger] frames[i],
            ) by {
                if i < frames.len() - 1 {
                    assert(frame_ok(items, self.frames[i]));
                }
            }
            assert forall|i: int| 0 < i < frames.len() implies #[trigger] linked_at(items, frames, i) by {
                assert(frames[i - 1] == self.frames[i - 1]);
                if i < frames.len() - 1 {
                    assert(linked_at(items, self.frames, i));
                    assert(frames[i] == self.frames[i]);
                }
            }
        }
    }

    /// Going to a path finds the entry that is reached by the names of the path,
    /// no matter where the cursor was before.
    pub proof fn lemma_went_to(self, items: Map<int, Item>, path: Seq<char>)
        requires
            self.ok(items),
            links_ok(items, None),
            self.first_matches(items),
            self.frames.len() > 0,
            starts_with(path, self.frames[0].path),
        ensures
            ({
                let (after, found) = self.went_to(items, path);
                let names = segments(path.skip(self.frames[0].path.len() as int));
                let entry = find_entry(items, self.frames[0].id, names, self.case_sensitive);
                &&& found == (entry is Some)
                &&& found ==> after.current == entry
                &&& after.first_matches(items)
                &&& after.frames.len() > 0
                &&& after.frames[0] == self.frames[0]
                &&& after.case_sensitive == self.case_sensitive
            }),
    {
        let start = self.at_folder();
        let names = segments(path.skip(self.frames[0].path.len() as int));
        let top = self.frames.last();
        assert(frame_ok(items, top));
        assert(top.path.take(top.path.len() as int) == top.path);
        assert(start.frames == self.frames);
        assert(start.ok(items));
        start.lemma_walked(items, names, 1);
    }
}

/// Whether the names inside each folder differ.
pub open spec fn unique_names(items: Map<int, Item>, case_sensitive: bool) -> bool {
    forall|at: int, i: nat, j: nat|
        #![trigger child(items, at, i), child(items, at, j)]
        is_path(items, at) && entry_is_folder(items, at) && i < children_count(items, at) && j
            < children_count(items, at) && name_matches(
            items[child(items, at, i)]->name,
            items[child(items, at, j)]->name,
            case_sensitive,
        ) ==> i == j
}

/// The first child with the name of a child has that name.
proof fn lemma_name_is_found(
    items: Map<int, Item>,
    at: int,
    name: Seq<char>,
    case_sensitive: bool,
    i: nat,
    k: nat,
)
    requires
        i <= k < children_count(items, at),
        name_matches(name, items[child(items, at, k)]->name, case_sensitive),
    ensures
        find_child(items, at, name, case_sensitive, i) is Some,
    decreases k - i,
{
    if i < k {
        lemma_name_is_found(items, at, name, case_sensitive, i + 1, k);
    }
}

/// If the names inside each folder differ then a path below the root is found exactly
/// if following its names from the root leads to an entry, wherever the cursor was
/// before. That entry is selected then. The root stays the same in all cases, and a
/// folder is selected if there is no entry.
pub proof fn law_paths_find_their_entries(
    cursor: CursorView,
    items: Map<int, Item>,
    path: Seq<char>,
)
    requires
        cursor.ok(items),
        links_ok(items, None),
        unique_names(items, cursor.case_sensitive),
        cursor.frames.len() > 0,
    ensures
        ({
            let (after, found) = cursor.went_to(items, path);
            let root = cursor.frames[0];
            let names = segments(path.skip(root.path.len() as int));
            let entry = find_entry(items, root.id, names, cursor.case_sensitive);
            &&& found == (starts_with(path, root.path) && entry is Some)
            &&& found ==> after.current == entry
            &&& !found ==> after.in_folder()
            &&& after.frames.len() > 0
            &&& after.frames[0] == root
        }),
{
    let frames = cursor.frames;
    assert forall|i: int| 0 < i < frames.len() implies {
        let parent = frames[i - 1].id;
        let name = items[(#[trigger] frames[i]).id]->name;
        &&& find_child(items, parent, name, cursor.case_sensitive, 0) matches Some(k) && child(
            items,
            parent,
            k,
        ) == frames[i].id
    } by {
        let parent = frames[i - 1].id;
        let name = items[frames[i].id]->name;
        assert(frame_ok(items, frames[i - 1]));
        assert(linked_at(items, frames, i));
        let k = choose|k: nat|
            k < children_count(items, parent) && #[trigger] child(items, parent, k)
                == frames[i].id;
        lemma_name_is_found(items, parent, name, cursor.case_sensitive, 0, k);
        lemma_found(items, parent, name, cursor.case_sensitive, 0);
        let first = find_child(items, parent, name, cursor.case_sensitive, 0)->0;
        assert(child(items, parent, first) == child(items, parent, k));
    }
    if starts_with(path, cursor.frames[0].path) {
        cursor.lemma_went_to(items, path);
        let names = segments(path.skip(cursor.frames[0].path.len() as int));
        cursor.at_folder().lemma_walked_to_folder(items, names, 1);
    }
}

impl CursorView {
    /// A folder is selected if a name is not found.
    proof fn lemma_walked_to_folder(self, items: Map<int, Item>, names: Seq<Seq<char>>, i: nat)
        requires
            self.frames.len() > 0,
            1 <= i,
        ensures
            !self.walked(items, names, i).1 ==> self.walked(items, names, i).0.in_folder(),
        decreases names.len(),
    {
        if names.len() > 0 {
            if i < self.frames.len() && name_matches(
                names[0],
                items[self.frames[i as int].id]->name,
                self.case_sensitive,
            ) {
                self.lemma_walked_to_folder(items, names.drop_first(), i + 1);
            } else {
                let start = self.at_parent((i - 1) as nat);
                if let Some(next) = start.picked(items, names[0]) {
                    next.lemma_walked_to_folder(items, names.drop_first(), i + 1);
                }
            }
        }
    }
}

} // verus!
