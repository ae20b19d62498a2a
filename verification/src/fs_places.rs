//! Entries of a tree, each by its number in the folder that it is in.
use vstd::prelude::*;

use crate::fs_cursor::name_matches;
use crate::fs_export::{entry_path, list_records, node_records, root_full_path, tree_records};
use crate::fs_lookup::{find_in_list, find_node};
use crate::fs_tree::FsNode;
use crate::metadata::FsEntryMetadata;
use crate::text::is_plain;

verus! {

/// The entry that is reached from a tree by some numbers, each one that of an entry
/// inside the folder before.
pub open spec fn entry_at(tree: FsNode, places: Seq<int>) -> Option<FsNode>
    decreases places.len(),
{
    if places.len() == 0 {
        Some(tree)
    } else if 0 <= places[0] < tree.children.len() {
        entry_at(tree.children[places[0]], places.drop_first())
    } else {
        None
    }
}

/// The names of the entries on the way to an entry, without that of the tree itself.
pub open spec fn names_at(tree: FsNode, places: Seq<int>) -> Seq<Seq<char>>
    decreases places.len(),
{
    if places.len() == 0 {
        seq![]
    } else {
        let entry = tree.children[places[0]];
        seq![entry.name] + names_at(entry, places.drop_first())
    }
}

/// What is known about an entry.
pub open spec fn info_at(tree: FsNode, places: Seq<int>) -> Option<FsEntryMetadata> {
    match entry_at(tree, places) {
        Some(entry) => entry.info,
        None => None,
    }
}

/// What is known about the entry that is found by some names.
pub open spec fn info_of_names(tree: FsNode, names: Seq<Seq<char>>) -> Option<FsEntryMetadata> {
    match find_node(tree, names, false) {
        Some(entry) => entry.info,
        None => None,
    }
}

/// Whether only folders have entries, and all names can stand in paths.
pub open spec fn is_tidy(node: FsNode) -> bool
    decreases node,
{
    &&& !node.is_folder() ==> node.children.len() == 0
    &&& forall|i: int|
        0 <= i < node.children.len() ==> is_plain((#[trigger] node.children[i]).name) && is_tidy(
            node.children[i],
        )
}

/// Whether the names in each folder differ, in whatever case they are written.
pub open spec fn has_unique_names(node: FsNode) -> bool
    decreases node,
{
    &&& forall|i: int|
        0 <= i < node.children.len() ==> has_unique_names(#[trigger] node.children[i])
    &&& forall|i: int, j: int|
        #![trigger node.children[i], node.children[j]]
        0 <= i < j < node.children.len() ==> !name_matches(
            node.children[i].name,
            node.children[j].name,
            false,
        )
}

/// Whether two lists of names are the same name by name, in whatever case they are
/// written.
pub open spec fn same_names(a: Seq<Seq<char>>, b: Seq<Seq<char>>) -> bool {
    &&& a.len() == b.len()
    &&& forall|i: int| 0 <= i < a.len() ==> name_matches(#[trigger] a[i], b[i], false)
}

/// Which entry of a list is found by a name.
pub proof fn lemma_first_match(list: Seq<FsNode>, name: Seq<char>, i: nat)
    ensures
        find_in_list(list, name, false, i) matches Some(k) ==> {
            &&& i <= k < list.len()
            &&& name_matches(name, list[k as int].name, false)
            &&& forall|j: int| i <= j < k ==> !name_matches(name, (#[trigger] list[j]).name, false)
        },
        find_in_list(list, name, false, i) is None ==> forall|j: int|
            i <= j < list.len() ==> !name_matches(name, (#[trigger] list[j]).name, false),
    decreases list.len() - i,
{
    if i < list.len() {
        lemma_first_match(list, name, i + 1);
    }
}

/// If the names in each folder differ then an entry is found by its names, and by no
/// other names.
pub proof fn law_entries_are_found_by_their_names(
    tree: FsNode,
    places: Seq<int>,
    names: Seq<Seq<char>>,
)
    requires
        is_tidy(tree),
        has_unique_names(tree),
        entry_at(tree, places) is Some,
        same_names(names, names_at(tree, places)),
    ensures
        find_node(tree, names, false) == entry_at(tree, places),
    decreases places.len(),
{
    if places.len() > 0 {
        let at = places[0];
        let entry = tree.children[at];
        let all = names_at(tree, places);
        let rest = names.drop_first();
        assert(all[0] == entry.name);
        assert(all.drop_first() == names_at(entry, places.drop_first()));
        assert(name_matches(names[0], all[0], false));
        lemma_first_match(tree.children, names[0], 0);
        let found = find_in_list(tree.children, names[0], false, 0);
        if let Some(k) = found {
            if k < at {
                assert(!name_matches(tree.children[k as int].name, entry.name, false));
            }
            if at < k {
                assert(!name_matches(entry.name, tree.children[k as int].name, false));
            }
        }
        assert(found == Some(at as nat));
        assert forall|i: int| 0 <= i < rest.len() implies name_matches(
            #[trigger] rest[i],
            names_at(entry, places.drop_first())[i],
            false,
        ) by {
            assert(name_matches(names[i + 1], all[i + 1], false));
        }
        law_entries_are_found_by_their_names(entry, places.drop_first(), rest);
    }
}

/// What is found by some names is an entry that has these names. In each folder on the way
/// to it no earlier entry has the name.
pub proof fn law_found_entries_have_the_names(tree: FsNode, names: Seq<Seq<char>>) -> (places: Seq<
    int,
>)
    requires
        find_node(tree, names, false) is Some,
    ensures
        places.len() == names.len(),
        entry_at(tree, places) == find_node(tree, names, false),
        same_names(names, names_at(tree, places)),
        forall|k: int|
            0 <= k < places.len() ==> !has_name_before(tree, #[trigger] places.take(k), places[k], names[k]),
    decreases names.len(),
{
    if names.len() == 0 {
        Seq::empty()
    } else {
        lemma_first_match(tree.children, names[0], 0);
        let at = find_in_list(tree.children, names[0], false, 0)->0;
        let entry = tree.children[at as int];
        let inner = law_found_entries_have_the_names(entry, names.drop_first());
        let places = seq![at as int] + inner;
        assert(places.drop_first() == inner);
        let all = names_at(tree, places);
        assert forall|i: int| 0 <= i < names.len() implies name_matches(
            #[trigger] names[i],
            all[i],
            false,
        ) by {
            if i > 0 {
                assert(names.drop_first()[i - 1] == names[i]);
                assert(all[i] == names_at(entry, inner)[i - 1]);
                assert(name_matches(names.drop_first()[i - 1], names_at(entry, inner)[i - 1], false));
            }
        }
        assert forall|k: int| 0 <= k < places.len() implies !has_name_before(
            tree,
            #[trigger] places.take(k),
            places[k],
            names[k],
        ) by {
            let way = places.take(k);
            if k == 0 {
                assert(entry_at(tree, way) == Some(tree));
                assert(places[0] == at);
            } else {
                assert(way[0] == at);
                assert(places[k] == inner[k - 1]);
                assert(names.drop_first()[k - 1] == names[k]);
                assert(way.drop_first() == inner.take(k - 1));
                assert(entry_at(tree, way) == entry_at(entry, inner.take(k - 1)));
                assert(!has_name_before(entry, inner.take(k - 1), inner[k - 1], names.drop_first()[k - 1]));
            }
        }
        places
    }
}

/// Whether an entry of a folder with a smaller number has the given name.
pub open spec fn has_name_before(
    tree: FsNode,
    folder: Seq<int>,
    number: int,
    name: Seq<char>,
) -> bool {
    entry_at(tree, folder) matches Some(node) && exists|j: int|
        0 <= j < number && name_matches(name, (#[trigger] node.children[j]).name, false)
}

/// The path of an entry that is reached from a folder.
pub open spec fn path_at(
    node: FsNode,
    places: Seq<int>,
    folder: Seq<char>,
    separator: char,
    force_ext: bool,
) -> Seq<char>
    decreases places.len(),
{
    let entry = node.children[places[0]];
    let path = entry_path(folder, entry.name, entry.is_folder(), separator, force_ext);
    if places.len() <= 1 {
        path
    } else {
        path_at(entry, places.drop_first(), path, separator, force_ext)
    }
}

/// Every entry with metadata is listed, with its metadata and its full path: the path of
/// the root and the names of the entries on the way to it, each folder with a separator.
pub proof fn law_every_entry_is_listed(
    tree: FsNode,
    places: Seq<int>,
    root_path: Option<Seq<char>>,
    separator: char,
    force_ext: bool,
)
    requires
        tree.is_folder(),
        info_at(tree, places) is Some,
    ensures
        ({
            let root = root_full_path(tree, root_path, separator);
            let path = if places.len() == 0 {
                root
            } else {
                path_at(tree, places, root, separator, force_ext)
            };
            tree_records(tree, root_path, separator, force_ext).contains(
                info_at(tree, places)->0.record(path),
            )
        }),
{
    let root = root_full_path(tree, root_path, separator);
    let all = tree_records(tree, root_path, separator, force_ext);
    let inside = list_records(tree.children, root, separator, force_ext);
    if places.len() == 0 {
        assert(all[0] == tree.info->0.record(root));
    } else {
        let k = lemma_listed_inside(tree, places, root, separator, force_ext);
        assert(all[k + 1] == inside[k]);
    }
}

proof fn lemma_listed_inside(
    node: FsNode,
    places: Seq<int>,
    folder: Seq<char>,
    separator: char,
    force_ext: bool,
) -> (k: int)
    requires
        places.len() > 0,
        info_at(node, places) is Some,
    ensures
        0 <= k < list_records(node.children, folder, separator, force_ext).len(),
        list_records(node.children, folder, separator, force_ext)[k] == info_at(
            node,
            places,
        )->0.record(path_at(node, places, folder, separator, force_ext)),
    decreases places.len(),
{
    let i = places[0];
    let entry = node.children[i];
    let rest = places.drop_first();
    let path = entry_path(folder, entry.name, entry.is_folder(), separator, force_ext);
    let own = node_records(entry, folder, separator, force_ext);
    let offset = lemma_listed_at(node.children, i, folder, separator, force_ext);
    let all = list_records(node.children, folder, separator, force_ext);
    if rest.len() == 0 {
        assert(entry_at(entry, rest) == Some(entry));
        assert(own[0] == entry.info->0.record(path));
        assert(all.subrange(offset, offset + own.len())[0] == all[offset]);
        offset
    } else {
        let k = lemma_listed_inside(entry, rest, path, separator, force_ext);
        let inside = list_records(entry.children, path, separator, force_ext);
        let first = if entry.info is Some {
            1int
        } else {
            0
        };
        assert(own[first + k] == inside[k]);
        assert(all.subrange(offset, offset + own.len())[first + k] == all[offset + first + k]);
        offset + first + k
    }
}

proof fn lemma_listed_at(
    list: Seq<FsNode>,
    i: int,
    folder: Seq<char>,
    separator: char,
    force_ext: bool,
) -> (offset: int)
    requires
        0 <= i < list.len(),
    ensures
        ({
            let own = node_records(list[i], folder, separator, force_ext);
            let all = list_records(list, folder, separator, force_ext);
            &&& 0 <= offset
            &&& offset + own.len() <= all.len()
            &&& all.subrange(offset, offset + own.len()) == own
        }),
    decreases list.len(),
{
    let rest = list.drop_last();
    let before = list_records(rest, folder, separator, force_ext);
    let all = list_records(list, folder, separator, force_ext);
    let own = node_records(list[i], folder, separator, force_ext);
    if i == list.len() - 1 {
        assert(all == before + own);
        assert(all.subrange(before.len() as int, all.len() as int) == own);
        before.len() as int
    } else {
        assert(rest[i] == list[i]);
        let offset = lemma_listed_at(rest, i, folder, separator, force_ext);
        assert(all.subrange(offset, offset + own.len()) == before.subrange(
            offset,
            offset + own.len(),
        ));
        offset
    }
}

} // verus!
