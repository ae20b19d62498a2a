//! The files and folders of an index as a tree.
use vstd::prelude::*;

use crate::fs_index::{first_child, is_meta, is_path, nth_path, paths_ok, FsIndex, Item};
use crate::metadata::FsEntryMetadata;

verus! {

/// A file or folder with everything inside of it.
#[verifier::ext_equal]
pub struct FsNode {
    pub name: Seq<char>,
    /// Nothing is known about an entry without metadata, it has no children.
    pub info: Option<FsEntryMetadata>,
    pub children: Seq<FsNode>,
}

impl FsNode {
    pub open spec fn is_folder(self) -> bool {
        self.info matches Some(info) && info.is_dir
    }
}

/// Whether the metadata at `meta` and what follows it is that of the tree.
pub open spec fn meta_holds(items: Map<int, Item>, meta: int, node: FsNode) -> bool
    decreases node, 0nat,
{
    &&& is_meta(items, meta)
    &&& node.info == Some(items[meta].info())
    &&& match items[meta].info().children {
        Some(n) => node.children.len() == n && list_holds(
            items,
            first_child(items, meta),
            node.children,
        ),
        None => node.children.len() == 0,
    }
}

/// Whether the paths that follow each other from `start` on are the trees.
pub open spec fn list_holds(items: Map<int, Item>, start: int, list: Seq<FsNode>) -> bool
    decreases list,
{
    list.len() > 0 ==> {
        &&& list_holds(items, start, list.drop_last())
        &&& path_holds(items, nth_path(items, start, (list.len() - 1) as nat), list.last())
    }
}

/// Whether the path at `at` and everything it refers to is the tree.
pub open spec fn path_holds(items: Map<int, Item>, at: int, node: FsNode) -> bool
    decreases node, 1nat,
{
    &&& is_path(items, at)
    &&& items[at]->name == node.name
    &&& if items[at]->meta == 0 {
        node.info is None && node.children.len() == 0
    } else {
        meta_holds(items, items[at]->meta as int, node)
    }
}

/// All places that belong to the tree whose metadata is at `meta`.
pub open spec fn meta_places(items: Map<int, Item>, meta: int, node: FsNode) -> Set<int>
    decreases node, 0nat,
{
    set![meta].union(list_places(items, first_child(items, meta), node.children))
}

/// All places that belong to paths that follow each other.
pub open spec fn list_places(items: Map<int, Item>, start: int, list: Seq<FsNode>) -> Set<int>
    decreases list,
{
    if list.len() == 0 {
        Set::empty()
    } else {
        list_places(items, start, list.drop_last()).union(
            path_places(items, nth_path(items, start, (list.len() - 1) as nat), list.last()),
        )
    }
}

/// All places that belong to the tree whose path is at `at`.
pub open spec fn path_places(items: Map<int, Item>, at: int, node: FsNode) -> Set<int>
    decreases node, 1nat,
{
    if items[at]->meta == 0 {
        set![at]
    } else {
        set![at].union(meta_places(items, items[at]->meta as int, node))
    }
}

/// Whether no place is used twice by the tree whose metadata is at `meta`.
pub open spec fn meta_separated(items: Map<int, Item>, meta: int, node: FsNode) -> bool
    decreases node, 0nat,
{
    &&& !list_places(items, first_child(items, meta), node.children).contains(meta)
    &&& list_separated(items, first_child(items, meta), node.children)
}

pub open spec fn list_separated(items: Map<int, Item>, start: int, list: Seq<FsNode>) -> bool
    decreases list,
{
    list.len() > 0 ==> {
        let at = nth_path(items, start, (list.len() - 1) as nat);
        &&& list_separated(items, start, list.drop_last())
        &&& list_places(items, start, list.drop_last()).disjoint(
            path_places(items, at, list.last()),
        )
        &&& path_separated(items, at, list.last())
    }
}

/// Whether no place is used twice by the tree whose path is at `at`.
pub open spec fn path_separated(items: Map<int, Item>, at: int, node: FsNode) -> bool
    decreases node, 1nat,
{
    items[at]->meta != 0 ==> {
        &&& !meta_places(items, items[at]->meta as int, node).contains(at)
        &&& meta_separated(items, items[at]->meta as int, node)
    }
}

/// Whether some places hold the same items.
pub open spec fn same_items(a: Map<int, Item>, b: Map<int, Item>, places: Set<int>) -> bool {
    forall|p: int| #[trigger] places.contains(p) ==> b.contains_key(p) && b[p] == a[p]
}

/// A tree only depends on the items at its own places.
pub proof fn lemma_meta_frame(a: Map<int, Item>, b: Map<int, Item>, meta: int, node: FsNode)
    requires
        meta_holds(a, meta, node),
        same_items(a, b, meta_places(a, meta, node)),
    ensures
        meta_holds(b, meta, node),
        meta_places(b, meta, node) == meta_places(a, meta, node),
        meta_separated(b, meta, node) == meta_separated(a, meta, node),
    decreases node, 0nat,
{
    let start = first_child(a, meta);
    assert(meta_places(a, meta, node).contains(meta));
    assert forall|p: int| #[trigger]
        list_places(a, start, node.children).contains(p) implies b.contains_key(p) && b[p]
        == a[p] by {
        assert(meta_places(a, meta, node).contains(p));
    }
    if node.children.len() == 0 {
        assert(list_places(b, first_child(b, meta), node.children) == list_places(
            a,
            start,
            node.children,
        ));
    } else {
        lemma_list_frame(a, b, start, node.children);
    }
}

pub proof fn lemma_list_frame(a: Map<int, Item>, b: Map<int, Item>, start: int, list: Seq<FsNode>)
    requires
        list_holds(a, start, list),
        same_items(a, b, list_places(a, start, list)),
    ensures
        list_holds(b, start, list),
        list_places(b, start, list) == list_places(a, start, list),
        list_separated(b, start, list) == list_separated(a, start, list),
        nth_path(b, start, list.len()) == nth_path(a, start, list.len()),
    decreases list, 2nat,
{
    if list.len() > 0 {
        let last = (list.len() - 1) as nat;
        let at = nth_path(a, start, last);
        assert forall|p: int| #[trigger]
            list_places(a, start, list.drop_last()).contains(p) implies b.contains_key(p) && b[p]
            == a[p] by {
            assert(list_places(a, start, list).contains(p));
        }
        lemma_list_frame(a, b, start, list.drop_last());
        assert forall|p: int| #[trigger] path_places(a, at, list.last()).contains(p) implies
            b.contains_key(p) && b[p] == a[p] by {
            assert(list_places(a, start, list).contains(p));
        }
        lemma_path_frame(a, b, at, list.last());
        assert(path_places(a, at, list.last()).contains(at));
    }
}

pub proof fn lemma_path_frame(a: Map<int, Item>, b: Map<int, Item>, at: int, node: FsNode)
    requires
        path_holds(a, at, node),
        same_items(a, b, path_places(a, at, node)),
    ensures
        path_holds(b, at, node),
        path_places(b, at, node) == path_places(a, at, node),
        path_separated(b, at, node) == path_separated(a, at, node),
    decreases node, 1nat,
{
    assert(path_places(a, at, node).contains(at));
    if a[at]->meta != 0 {
        let meta = a[at]->meta as int;
        assert forall|p: int| #[trigger] meta_places(a, meta, node).contains(p) implies
            b.contains_key(p) && b[p] == a[p] by {
            assert(path_places(a, at, node).contains(p));
        }
        lemma_meta_frame(a, b, meta, node);
    }
}

/// The trees of a list, one by one.
pub proof fn lemma_list_holds(items: Map<int, Item>, start: int, list: Seq<FsNode>)
    requires
        list_holds(items, start, list),
    ensures
        forall|i: int|
            0 <= i < list.len() ==> #[trigger] path_holds(
                items,
                nth_path(items, start, i as nat),
                list[i],
            ),
        paths_ok(items, start, list.len()),
    decreases list.len(),
{
    if list.len() > 0 {
        lemma_list_holds(items, start, list.drop_last());
        assert forall|i: int| 0 <= i < list.len() implies #[trigger] path_holds(
            items,
            nth_path(items, start, i as nat),
            list[i],
        ) by {
            if i < list.len() - 1 {
                assert(list.drop_last()[i] == list[i]);
                assert(path_holds(items, nth_path(items, start, i as nat), list.drop_last()[i]));
            }
        }
        assert forall|i: nat| i < list.len() implies is_path(
            items,
            #[trigger] nth_path(items, start, i),
        ) by {
            let k = i as int;
            assert(path_holds(items, nth_path(items, start, k as nat), list[k]));
        }
    }
}

/// At each place there is at most one tree.
pub proof fn lemma_meta_unique(items: Map<int, Item>, meta: int, a: FsNode, b: FsNode)
    requires
        meta_holds(items, meta, a),
        meta_holds(items, meta, b),
    ensures
        a.info == b.info,
        a.children == b.children,
    decreases a, 0nat,
{
    if a.children.len() == 0 {
        assert(a.children == b.children);
    } else {
        lemma_list_unique(items, first_child(items, meta), a.children, b.children);
    }
}

pub proof fn lemma_list_unique(items: Map<int, Item>, start: int, a: Seq<FsNode>, b: Seq<FsNode>)
    requires
        list_holds(items, start, a),
        list_holds(items, start, b),
        a.len() == b.len(),
    ensures
        a == b,
    decreases a, 2nat,
{
    if a.len() > 0 {
        lemma_list_unique(items, start, a.drop_last(), b.drop_last());
        lemma_path_unique(
            items,
            nth_path(items, start, (a.len() - 1) as nat),
            a.last(),
            b.last(),
        );
        assert(a == a.drop_last().push(a.last()));
        assert(b == b.drop_last().push(b.last()));
    } else {
        assert(a == b);
    }
}

pub proof fn lemma_path_unique(items: Map<int, Item>, at: int, a: FsNode, b: FsNode)
    requires
        path_holds(items, at, a),
        path_holds(items, at, b),
    ensures
        a == b,
    decreases a, 1nat,
{
    if items[at]->meta != 0 {
        lemma_meta_unique(items, items[at]->meta as int, a, b);
    } else {
        assert(a.children == b.children);
    }
}

/// All places of a tree hold items.
pub proof fn lemma_meta_places_exist(items: Map<int, Item>, meta: int, node: FsNode)
    requires
        meta_holds(items, meta, node),
    ensures
        forall|p: int| #[trigger]
            meta_places(items, meta, node).contains(p) ==> items.contains_key(p),
    decreases node, 0nat,
{
    let start = first_child(items, meta);
    if node.children.len() > 0 {
        lemma_list_places_exist(items, start, node.children);
    }
    assert forall|p: int| #[trigger] meta_places(items, meta, node).contains(p) implies
        items.contains_key(p) by {
        if p != meta {
            assert(list_places(items, start, node.children).contains(p));
        }
    }
}

pub proof fn lemma_list_places_exist(items: Map<int, Item>, start: int, list: Seq<FsNode>)
    requires
        list_holds(items, start, list),
    ensures
        forall|p: int| #[trigger]
            list_places(items, start, list).contains(p) ==> items.contains_key(p),
    decreases list, 2nat,
{
    if list.len() > 0 {
        lemma_list_places_exist(items, start, list.drop_last());
        let at = nth_path(items, start, (list.len() - 1) as nat);
        lemma_path_places_exist(items, at, list.last());
        assert forall|p: int| #[trigger] list_places(items, start, list).contains(p) implies
            items.contains_key(p) by {
            if !list_places(items, start, list.drop_last()).contains(p) {
                assert(path_places(items, at, list.last()).contains(p));
            }
        }
    }
}

pub proof fn lemma_path_places_exist(items: Map<int, Item>, at: int, node: FsNode)
    requires
        path_holds(items, at, node),
    ensures
        forall|p: int| #[trigger]
            path_places(items, at, node).contains(p) ==> items.contains_key(p),
    decreases node, 1nat,
{
    if items[at]->meta != 0 {
        lemma_meta_places_exist(items, items[at]->meta as int, node);
    }
    assert forall|p: int| #[trigger] path_places(items, at, node).contains(p) implies
        items.contains_key(p) by {
        if p != at {
            assert(meta_places(items, items[at]->meta as int, node).contains(p));
        }
    }
}

/// Whether all items are kept.
pub open spec fn items_kept(a: Map<int, Item>, b: Map<int, Item>) -> bool {
    forall|o: int| #[trigger] a.contains_key(o) ==> b.contains_key(o) && b[o] == a[o]
}

/// Further items do not affect a tree.
pub proof fn lemma_meta_kept(a: Map<int, Item>, b: Map<int, Item>, meta: int, node: FsNode)
    requires
        meta_holds(a, meta, node),
        items_kept(a, b),
    ensures
        meta_holds(b, meta, node),
        meta_places(b, meta, node) == meta_places(a, meta, node),
        meta_separated(b, meta, node) == meta_separated(a, meta, node),
{
    lemma_meta_places_exist(a, meta, node);
    lemma_meta_frame(a, b, meta, node);
}

/// A list of trees, one by one.
pub proof fn lemma_list_from_each(items: Map<int, Item>, start: int, list: Seq<FsNode>)
    requires
        forall|i: int|
            0 <= i < list.len() ==> path_holds(
                items,
                nth_path(items, start, i as nat),
                #[trigger] list[i],
            ),
    ensures
        list_holds(items, start, list),
    decreases list.len(),
{
    if list.len() > 0 {
        assert forall|i: int| 0 <= i < list.drop_last().len() implies path_holds(
            items,
            nth_path(items, start, i as nat),
            #[trigger] list.drop_last()[i],
        ) by {
            assert(list.drop_last()[i] == list[i]);
        }
        lemma_list_from_each(items, start, list.drop_last());
        assert(list[list.len() - 1] == list.last());
    }
}

/// Each place of a list of trees belongs to one of them.
pub proof fn lemma_list_place_of(items: Map<int, Item>, start: int, list: Seq<FsNode>, p: int)
    requires
        list_places(items, start, list).contains(p),
    ensures
        exists|i: int|
            0 <= i < list.len() && path_places(
                items,
                nth_path(items, start, i as nat),
                #[trigger] list[i],
            ).contains(p),
    decreases list.len(),
{
    if list.len() > 0 {
        if list_places(items, start, list.drop_last()).contains(p) {
            lemma_list_place_of(items, start, list.drop_last(), p);
            let i = choose|i: int|
                0 <= i < list.drop_last().len() && path_places(
                    items,
                    nth_path(items, start, i as nat),
                    #[trigger] list.drop_last()[i],
                ).contains(p);
            assert(list[i] == list.drop_last()[i]);
        } else {
            assert(list[list.len() - 1] == list.last());
        }
    }
}

/// Each place of one of some trees belongs to the list of them.
pub proof fn lemma_list_has_place(items: Map<int, Item>, start: int, list: Seq<FsNode>, i: int)
    requires
        0 <= i < list.len(),
    ensures
        path_places(items, nth_path(items, start, i as nat), list[i]).subset_of(
            list_places(items, start, list),
        ),
    decreases list.len(),
{
    if i < list.len() - 1 {
        lemma_list_has_place(items, start, list.drop_last(), i);
        assert(list.drop_last()[i] == list[i]);
    }
}

/// Trees that share no place with each other.
pub proof fn lemma_separated_from_each(items: Map<int, Item>, start: int, list: Seq<FsNode>)
    requires
        forall|i: int|
            0 <= i < list.len() ==> path_separated(
                items,
                nth_path(items, start, i as nat),
                #[trigger] list[i],
            ),
        forall|i: int, j: int|
            #![trigger list[i], list[j]]
            0 <= i < j < list.len() ==> path_places(
                items,
                nth_path(items, start, i as nat),
                list[i],
            ).disjoint(path_places(items, nth_path(items, start, j as nat), list[j])),
    ensures
        list_separated(items, start, list),
    decreases list.len(),
{
    if list.len() > 0 {
        let rest = list.drop_last();
        let last = (list.len() - 1) as int;
        assert forall|i: int| 0 <= i < rest.len() implies path_separated(
            items,
            nth_path(items, start, i as nat),
            #[trigger] rest[i],
        ) by {
            assert(rest[i] == list[i]);
        }
        assert forall|i: int, j: int|
            #![trigger rest[i], rest[j]]
            0 <= i < j < rest.len() implies path_places(
            items,
            nth_path(items, start, i as nat),
            rest[i],
        ).disjoint(path_places(items, nth_path(items, start, j as nat), rest[j])) by {
            assert(rest[i] == list[i] && rest[j] == list[j]);
        }
        lemma_separated_from_each(items, start, rest);
        assert(list[last] == list.last());
        assert forall|p: int| list_places(items, start, rest).contains(p) implies !path_places(
            items,
            nth_path(items, start, last as nat),
            list.last(),
        ).contains(p) by {
            lemma_list_place_of(items, start, rest, p);
            let i = choose|i: int|
                0 <= i < rest.len() && path_places(
                    items,
                    nth_path(items, start, i as nat),
                    #[trigger] rest[i],
                ).contains(p);
            assert(rest[i] == list[i]);
            assert(path_places(items, nth_path(items, start, i as nat), list[i]).disjoint(
                path_places(items, nth_path(items, start, last as nat), list[last]),
            ));
        }
    }
}

impl FsIndex {
    /// Whether the entry at `at` is the top of a finite tree in which no entry
    /// occurs twice.
    pub open spec fn has_tree(self, at: int) -> bool {
        exists|node: FsNode| #[trigger] self.holds(at, node)
    }

    pub open spec fn holds(self, at: int, node: FsNode) -> bool {
        path_holds(self.items(), at, node) && path_separated(self.items(), at, node)
    }

    /// The tree of the entry at `at`.
    pub open spec fn tree(self, at: int) -> FsNode {
        choose|node: FsNode| #[trigger] self.holds(at, node)
    }

    /// Whether there is a root that is the top of a tree.
    pub open spec fn rooted(self) -> bool {
        self.spec_root() matches Some(root) && self.has_tree(root.at())
    }

    /// The tree of the root.
    pub open spec fn root_tree(self) -> FsNode {
        self.tree(self.spec_root()->0.at())
    }

    pub proof fn lemma_tree_is(self, at: int, node: FsNode)
        requires
            self.holds(at, node),
        ensures
            self.has_tree(at),
            self.tree(at) == node,
    {
        lemma_path_unique(self.items(), at, self.tree(at), node);
    }
}

/// All elements of a list are the list.
pub proof fn lemma_take_all<T>(list: Seq<T>)
    ensures
        list.take(list.len() as int) == list,
{
}

} // verus!
