//! What holds of files in memory.
use vstd::prelude::*;

use crate::winfsp_memfs::{
    bytes_at, can_rename, child_with, children_ok, cleared_destination, closed, file_of, files_ok, found_from,
    has_file, info_of, is_slash, law_made_files_are_found, lemma_last_piece, lemma_lookup,
    lemma_name_place, lemma_one_more_piece, lemma_pieces_len, lemma_pieces_size, listing, lookup,
    made, name_place, numbered, opened, pieces, pieces_size, renamed, replaced_len, unlinked, used_by,
    used_space, with_child, with_file, without_child, without_file, without_id, written_to, FileView, FoundView, MemFsError, FILE_ATTRIBUTE_DIRECTORY,
    MAX_NAME_LEN, ROOT_ID,
};

verus! {

/// Whether a name can stand between the separators of a path.
pub open spec fn is_file_name(name: Seq<u16>) -> bool {
    &&& 0 < name.len() <= MAX_NAME_LEN
    &&& forall|i: int| 0 <= i < name.len() ==> !is_slash(#[trigger] name[i])
}

/// Where a search starts.
spec fn search_start() -> FoundView {
    FoundView { parent: ROOT_ID, parent_len: 0, name: seq![], node: Some(ROOT_ID) }
}

/// The file at a path.
pub open spec fn node_at(files: Map<u64, FileView>, path: Seq<u16>) -> Option<u64> {
    match lookup(files, path, None) {
        Ok(found) => found.node,
        Err(_) => None,
    }
}

/// An entry of a folder is found by its name exactly if it is in the folder.
pub proof fn law_entries_are_found_by_name(
    files: Map<u64, FileView>,
    last_id: u64,
    folder: u64,
    name: Seq<u16>,
    id: u64,
)
    requires
        files_ok(files, last_id),
        has_file(files, folder),
    ensures
        child_with(file_of(files, folder).children, name) == Some(id) <==> file_of(
            files,
            folder,
        ).children.contains((name, id)),
{
    let children = file_of(files, folder).children;
    lemma_name_place(children, name);
    assert(children_ok(files, file_of(files, folder)));
    if children.contains((name, id)) {
        let k = choose|k: int| 0 <= k < children.len() && children[k] == (name, id);
        let i = name_place(children, name)->0;
        if i < k {
            assert(children[i].0 != children[k].0);
        }
        if k < i {
            assert(children[k].0 != children[i].0);
        }
    }
    if let Some(i) = name_place(children, name) {
        assert(children[i] == (name, children[i].1));
    }
}

/// The empty path leads to the root. A path with one more name leads from the folder to its
/// entry with that name, and nowhere if there is none.
pub proof fn law_paths_lead_from_folder_to_entry(
    files: Map<u64, FileView>,
    last_id: u64,
    folder_path: Seq<u16>,
    slash: u16,
    name: Seq<u16>,
)
    requires
        files_ok(files, last_id),
        node_at(files, folder_path) is Some,
        is_slash(slash),
        is_file_name(name),
    ensures
        node_at(files, Seq::empty()) == Some(ROOT_ID),
        lookup(files, folder_path + seq![slash] + name, None) is Ok,
        node_at(files, folder_path + seq![slash] + name) == child_with(
            file_of(files, node_at(files, folder_path)->0).children,
            name,
        ),
        (lookup(files, folder_path + seq![slash] + name, None)->Ok_0).parent == node_at(
            files,
            folder_path,
        )->0,
        (lookup(files, folder_path + seq![slash] + name, None)->Ok_0).name == name,
        has_file(files, node_at(files, folder_path)->0),
{
    reveal_with_fuel(found_from, 3);
    let none = Seq::<u16>::empty();
    assert(pieces(none) == seq![none]);
    assert(found_from(files, pieces(none), 0, search_start(), 0, None) is Ok);
    lemma_last_piece(none, folder_path, name, slash);
    lemma_one_more_piece(files, pieces(folder_path), name, 0, search_start(), 0);
    lemma_lookup(files, folder_path, last_id);
}

/// Listing a folder agrees with looking up its entries: there is one entry in the list for
/// each entry of the folder, and its path leads to a file with exactly what the list tells.
/// The size of a file is the number of its bytes, and folders are marked as such.
pub proof fn law_listings_agree_with_files(
    files: Map<u64, FileView>,
    last_id: u64,
    folder_path: Seq<u16>,
    slash: u16,
    i: int,
)
    requires
        files_ok(files, last_id),
        node_at(files, folder_path) is Some,
        is_slash(slash),
        ({
            let folder = file_of(files, node_at(files, folder_path)->0);
            0 <= i < folder.children.len() && is_file_name(folder.children[i].0)
        }),
    ensures
        ({
            let id = node_at(files, folder_path)->0;
            let list = listing(files, id);
            let (name, info) = list[i];
            let entry = node_at(files, folder_path + seq![slash] + name);
            &&& list.len() == file_of(files, id).children.len()
            &&& name == file_of(files, id).children[i].0
            &&& entry == Some(file_of(files, id).children[i].1)
            &&& has_file(files, entry->0)
            &&& file_of(files, entry->0).is_dir ==> info.size == 0 && info.attributes
                == FILE_ATTRIBUTE_DIRECTORY
            &&& !file_of(files, entry->0).is_dir && file_of(files, entry->0).data.len() <= u64::MAX
                ==> info.size == file_of(files, entry->0).data.len() && info.attributes
                & FILE_ATTRIBUTE_DIRECTORY == 0
        }),
{
    let id = node_at(files, folder_path)->0;
    let folder = file_of(files, id);
    let (name, child) = folder.children[i];
    law_paths_lead_from_folder_to_entry(files, last_id, folder_path, slash, name);
    law_entries_are_found_by_name(files, last_id, id, name, child);
    assert(folder.children.contains((name, child)));
    assert(children_ok(files, folder));
    assert(has_file(files, folder.children[i].1));
    assert(0u32 & FILE_ATTRIBUTE_DIRECTORY == 0) by (bit_vector);
}

/// Opening something gives what its path leads to, and changes nothing but how often it is
/// open. Closing it again changes that back, unless it is removed then: only something that
/// is in no folder and not open otherwise is.
pub proof fn law_closing_undoes_opening(
    files: Map<u64, FileView>,
    last_id: u64,
    path: Seq<u16>,
    is_dir: Option<bool>,
)
    requires
        files_ok(files, last_id),
        node_at(files, path) matches Some(id) ==> file_of(files, id).open_count < u64::MAX,
    ensures
        opened(files, path, is_dir) is Ok <==> node_at(files, path) is Some && (is_dir matches Some(d)
            ==> d == file_of(files, node_at(files, path)->0).is_dir),
        opened(files, path, is_dir) matches Ok((after, id)) ==> {
            let before = file_of(files, id);
            &&& node_at(files, path) == Some(id)
            &&& file_of(after, id).open_count == before.open_count + 1
            &&& file_of(after, id) == (FileView {
                open_count: file_of(after, id).open_count,
                ..before
            })
            &&& forall|x: u64| x != id ==> has_file(after, x) == has_file(files, x) && #[trigger]
                file_of(after, x) == file_of(files, x)
            &&& before.parent is Some || id == ROOT_ID || before.open_count > 0 ==> closed(after, id)
                == files
            &&& !(before.parent is Some || id == ROOT_ID || before.open_count > 0) ==> !has_file(
                closed(after, id),
                id,
            )
        },
{
    lemma_lookup(files, path, last_id);
    if let Ok((after, id)) = opened(files, path, is_dir) {
        let before = file_of(files, id);
        assert(has_file(files, id));
        assert(before.id == id);
        assert(file_of(after, id).id == id);
        assert(closed(after, id) == if before.parent is Some || id == ROOT_ID || before.open_count
            > 0 {
            files
        } else {
            without_file(files, id)
        });
    }
}

/// Closing one file leaves all others as they are. The file itself keeps its contents as
/// long as it is in a folder, is the root or is still open, and is gone otherwise.
pub proof fn law_closing_keeps_what_is_in_use(files: Map<u64, FileView>, id: u64, other: u64)
    requires
        numbered(files),
        has_file(files, id),
        other != id,
    ensures
        has_file(closed(files, id), other) == has_file(files, other),
        file_of(closed(files, id), other) == file_of(files, other),
        has_file(closed(files, id), id) <==> file_of(files, id).parent is Some || id == ROOT_ID
            || file_of(files, id).open_count > 1,
        has_file(closed(files, id), id) ==> {
            let before = file_of(files, id);
            let after = file_of(closed(files, id), id);
            &&& after == (FileView { open_count: after.open_count, ..before })
            &&& before.open_count > 0 ==> after.open_count + 1 == before.open_count
            &&& before.open_count == 0 ==> after.open_count == 0
        },
{
}

/// What still leads to a folder after an entry was taken out of another one.
proof fn lemma_still_leads(
    files: Map<u64, FileView>,
    after: Map<u64, FileView>,
    folder: u64,
    name: Seq<u16>,
    id: u64,
    pieces: Seq<Seq<u16>>,
    k: int,
    found: FoundView,
    last_len: int,
)
    requires
        forall|x: u64| #[trigger] has_file(files, x) ==> children_ok(files, file_of(files, x)),
        has_file(files, folder),
        has_file(files, id),
        file_of(files, id).children.len() == 0,
        child_with(file_of(files, folder).children, name) == Some(id),
        forall|x: u64|
            has_file(files, x) && x != id ==> (#[trigger] file_of(after, x)).children == if x
                == folder {
                without_child(file_of(files, folder).children, name)
            } else {
                file_of(files, x).children
            },
        found.node matches Some(n) ==> has_file(files, n),
        0 <= k,
        found_from(files, pieces, k, found, last_len, None) matches Ok(r) && r.node == Some(folder),
    ensures
        found_from(after, pieces, k, found, last_len, None) == found_from(
            files,
            pieces,
            k,
            found,
            last_len,
            None,
        ),
    decreases pieces.len() - k,
{
    if k < pieces.len() {
        let piece = pieces[k];
        let start = found.parent_len + if k > 0 {
            1int
        } else {
            0int
        };
        if piece.len() == 0 {
            lemma_still_leads(
                files,
                after,
                folder,
                name,
                id,
                pieces,
                k + 1,
                FoundView { parent_len: start + last_len, ..found },
                0,
            );
        } else if piece.len() <= MAX_NAME_LEN {
            let n = found.node->0;
            let file = file_of(files, n);
            let next = FoundView {
                parent: n,
                parent_len: start + last_len,
                name: piece,
                node: child_with(file.children, piece),
            };
            lemma_name_place(file.children, piece);
            lemma_name_place(file_of(files, folder).children, name);
            if next.node is None || next.node == Some(id) {
                lemma_leads_nowhere(files, pieces, k + 1, next, piece.len() as int, id);
            }
            assert(next.node is Some && next.node != Some(id));
            assert(n != id);
            let i = name_place(file.children, piece)->0;
            assert(has_file(files, file.children[i].1));
            let changed = file_of(after, n).children;
            if n == folder {
                assert(piece != name);
                lemma_other_name(file.children, name, piece);
            }
            assert(child_with(changed, piece) == child_with(file.children, piece));
            lemma_still_leads(
                files,
                after,
                folder,
                name,
                id,
                pieces,
                k + 1,
                next,
                piece.len() as int,
            );
        }
    }
}

/// A path that leads to nothing or to something without entries leads to nothing else.
proof fn lemma_leads_nowhere(
    files: Map<u64, FileView>,
    pieces: Seq<Seq<u16>>,
    k: int,
    found: FoundView,
    last_len: int,
    id: u64,
)
    requires
        found.node is None || (found.node == Some(id) && file_of(files, id).children.len() == 0),
        0 <= k,
    ensures
        found_from(files, pieces, k, found, last_len, None) matches Ok(r) ==> r.node is None
            || r.node == Some(id),
    decreases pieces.len() - k,
{
    if k < pieces.len() {
        let piece = pieces[k];
        let start = found.parent_len + if k > 0 {
            1int
        } else {
            0int
        };
        if piece.len() == 0 {
            lemma_leads_nowhere(
                files,
                pieces,
                k + 1,
                FoundView { parent_len: start + last_len, ..found },
                0,
                id,
            );
        } else if piece.len() <= MAX_NAME_LEN && found.node is Some {
            let next = FoundView {
                parent: id,
                parent_len: start + last_len,
                name: piece,
                node: child_with(file_of(files, id).children, piece),
            };
            lemma_leads_nowhere(files, pieces, k + 1, next, piece.len() as int, id);
        }
    }
}

/// Taking an entry out of a folder keeps the entries with other names.
proof fn lemma_other_name(children: Seq<(Seq<u16>, u64)>, name: Seq<u16>, other: Seq<u16>)
    requires
        name != other,
        forall|i: int, j: int|
            #![trigger children[i], children[j]]
            0 <= i < j < children.len() ==> children[i].0 != children[j].0,
    ensures
        child_with(without_child(children, name), other) == child_with(children, other),
        child_with(without_child(children, name), name) is None,
{
    let less = without_child(children, name);
    lemma_name_place(children, name);
    lemma_name_place(children, other);
    lemma_name_place(less, other);
    lemma_name_place(less, name);
    if let Some(i) = name_place(children, name) {
        if let Some(k) = name_place(less, other) {
            let at = if k < i {
                k
            } else {
                k + 1
            };
            assert(less[k] == children[at]);
            let j = name_place(children, other)->0;
            if at < j {
                assert(children[at].0 != children[j].0);
            }
            if j < at {
                assert(children[j].0 != children[at].0);
            }
        } else if let Some(j) = name_place(children, other) {
            let at = if j < i {
                j
            } else {
                j - 1
            };
            assert(less[at] == children[j]);
        }
        if let Some(k) = name_place(less, name) {
            let at = if k < i {
                k
            } else {
                k + 1
            };
            assert(less[k] == children[at]);
            if at < i {
                assert(children[at].0 != children[i].0);
            } else {
                assert(children[i].0 != children[at].0);
            }
        }
    }
}

/// What was removed is not found at its path any more. It is gone, or kept without its
/// folder while it is open. Everything else keeps its contents, and the folder has all its
/// other entries. Only something without entries can be removed.
pub proof fn law_removed_files_are_not_found(
    files: Map<u64, FileView>,
    last_id: u64,
    folder_path: Seq<u16>,
    slash: u16,
    name: Seq<u16>,
    is_dir: Option<bool>,
    other: u64,
)
    requires
        files_ok(files, last_id),
        node_at(files, folder_path) is Some,
        is_slash(slash),
        is_file_name(name),
        node_at(files, folder_path + seq![slash] + name) != Some(ROOT_ID),
    ensures
        ({
            let path = folder_path + seq![slash] + name;
            let folder = node_at(files, folder_path)->0;
            let id = node_at(files, path)->0;
            &&& unlinked(files, path, is_dir) is Ok <==> node_at(files, path) is Some && (is_dir
                matches Some(d) ==> d == file_of(files, id).is_dir) && file_of(
                files,
                id,
            ).children.len() == 0
            &&& unlinked(files, path, is_dir) matches Ok(after) ==> {
                &&& node_at(after, path) is None
                &&& has_file(after, id) <==> file_of(files, id).open_count > 0
                &&& has_file(after, id) ==> file_of(after, id) == (FileView {
                    parent: None,
                    ..file_of(files, id)
                })
                &&& other != id ==> has_file(after, other) == has_file(files, other)
                &&& other != id && other != folder ==> file_of(after, other) == file_of(files, other)
                &&& file_of(after, folder).data == file_of(files, folder).data
                &&& node_at(after, folder_path) == Some(folder)
            }
        }),
{
    let path = folder_path + seq![slash] + name;
    let folder = node_at(files, folder_path)->0;
    law_paths_lead_from_folder_to_entry(files, last_id, folder_path, slash, name);
    lemma_lookup(files, path, last_id);
    lemma_lookup(files, folder_path, last_id);
    if let Ok(after) = unlinked(files, path, is_dir) {
        let id = node_at(files, path)->0;
        let children = file_of(files, folder).children;
        lemma_name_place(children, name);
        assert(has_file(files, id) && file_of(files, id).id == id);
        assert(file_of(files, folder).id == folder);
        assert(id != folder) by {
            assert(children.len() > 0);
        }
        assert(children_ok(files, file_of(files, folder)));
        assert(file_of(after, folder) == (FileView {
            children: without_child(children, name),
            ..file_of(files, folder)
        }));
        lemma_still_leads(
            files,
            after,
            folder,
            name,
            id,
            pieces(folder_path),
            0,
            search_start(),
            0,
        );
        assert(node_at(after, folder_path) == Some(folder));
        lemma_last_piece(Seq::empty(), folder_path, name, slash);
        lemma_one_more_piece(after, pieces(folder_path), name, 0, search_start(), 0);
        lemma_other_name(children, name, name.push(0));
        assert(name != name.push(0)) by {
            assert(name.len() != name.push(0).len());
        }
    }
}

/// A new file is made exactly where nothing is. It has the bytes that it is made with, is
/// not open and has nothing in it. Its folder has it as one more entry, and everything else
/// stays the same.
pub proof fn law_making_a_file_keeps_the_others(
    files: Map<u64, FileView>,
    last_id: u64,
    folder_path: Seq<u16>,
    slash: u16,
    name: Seq<u16>,
    is_dir: bool,
    data: Seq<u8>,
    id: u64,
    other: u64,
)
    requires
        files_ok(files, last_id),
        last_id < id,
        node_at(files, folder_path) is Some,
        is_slash(slash),
        is_file_name(name),
    ensures
        ({
            let path = folder_path + seq![slash] + name;
            let folder = node_at(files, folder_path)->0;
            &&& made(files, path, is_dir, data, id) is Ok <==> node_at(files, path) is None
            &&& made(files, path, is_dir, data, id) matches Err(e) ==> e
                == MemFsError::AlreadyExists
            &&& made(files, path, is_dir, data, id) matches Ok(after) ==> {
                &&& node_at(after, path) == Some(id)
                &&& has_file(after, id)
                &&& file_of(after, id) == (FileView {
                    data,
                    id,
                    parent: Some(folder),
                    children: seq![],
                    open_count: 0,
                    is_dir,
                })
                &&& other != id ==> has_file(after, other) == has_file(files, other)
                &&& other != id && other != folder ==> file_of(after, other) == file_of(files, other)
                &&& file_of(after, folder) == (FileView {
                    children: file_of(files, folder).children.push((name, id)),
                    ..file_of(files, folder)
                })
            }
        }),
{
    let path = folder_path + seq![slash] + name;
    let folder = node_at(files, folder_path)->0;
    law_paths_lead_from_folder_to_entry(files, last_id, folder_path, slash, name);
    lemma_lookup(files, folder_path, last_id);
    lemma_name_place(file_of(files, folder).children, name);
    law_made_files_are_found(files, last_id, folder_path, slash, name, is_dir, data, id);
    assert(folder <= last_id);
}

/// Something that is at the new path of a file is only replaced if that is wanted and it is
/// neither the root nor has entries. The bytes and the entries of the file that gets the
/// new path stay the same.
pub proof fn law_renaming_replaces_only_if_wanted(
    files: Map<u64, FileView>,
    last_id: u64,
    context: u64,
    path: Seq<u16>,
    replace: bool,
)
    requires
        files_ok(files, last_id),
        can_rename(files, context, path, replace),
        node_at(files, path) is Some,
        node_at(files, path) != Some(context),
    ensures
        ({
            let id = node_at(files, path)->0;
            let blocked = id == ROOT_ID || file_of(files, id).children.len() > 0;
            &&& !replace ==> renamed(files, context, path, replace) == Err::<
                Map<u64, FileView>,
                _,
            >(MemFsError::AlreadyExists)
            &&& replace && blocked ==> renamed(files, context, path, replace) == Err::<
                Map<u64, FileView>,
                _,
            >(MemFsError::DirectoryNotEmpty)
            &&& replace && !blocked ==> (renamed(files, context, path, replace) matches Ok(after)
                && {
                &&& has_file(after, context)
                &&& file_of(after, context).data == file_of(files, context).data
                &&& file_of(after, context).open_count == file_of(files, context).open_count
                &&& file_of(after, context).is_dir == file_of(files, context).is_dir
            })
        }),
{
    lemma_lookup(files, path, last_id);
    let found = lookup(files, path, None)->Ok_0;
    let id = found.node->0;
    assert(file_of(files, id).id == id);
    assert(file_of(files, found.parent).id == found.parent);
    assert(file_of(files, context).id == context);
    lemma_name_place(file_of(files, found.parent).children, found.name);
    if let Ok(cleared) = cleared_destination(files, path, found, replace) {
        assert(found.parent != id);
        assert(file_of(cleared, found.parent) == file_of(files, found.parent));
        assert(file_of(cleared, context) == file_of(files, context));
        if let Some(previous) = file_of(cleared, context).parent {
            assert(has_file(cleared, previous));
            assert(has_file(files, previous));
            assert(file_of(cleared, previous).id == previous);
        }
        let target = file_of(cleared, found.parent);
        let filled = with_child(target.children, found.name, context);
        let first = with_file(cleared, FileView { children: filled, ..target });
        assert(file_of(first, context).data == file_of(files, context).data);
        assert(file_of(first, context).id == context);
    }
}

/// What was read is the piece of a file at the offset, as long as it was asked for or as
/// the file goes on.
pub proof fn law_reads_give_the_bytes_at_the_offset(data: Seq<u8>, len: int, offset: int, i: int)
    requires
        0 <= len,
        0 <= offset,
        data.len() <= u32::MAX || len <= u32::MAX,
    ensures
        offset >= data.len() ==> bytes_at(data, len, offset).len() == 0,
        offset < data.len() && offset + len <= data.len() ==> bytes_at(data, len, offset).len()
            == len,
        offset < data.len() < offset + len ==> bytes_at(data, len, offset).len() + offset
            == data.len(),
        0 <= i < bytes_at(data, len, offset).len() ==> bytes_at(data, len, offset)[i] == data[offset
            + i],
{
}

/// A file grows by exactly what is written behind its end. If its size must stay then the
/// bytes up to its end are replaced and the others are lost.
pub proof fn law_files_grow_by_what_is_added(
    data: Seq<u8>,
    buffer: Seq<u8>,
    offset: int,
    to_end: bool,
    i: int,
)
    requires
        0 <= offset,
    ensures
        ({
            let all = written_to(data, buffer, offset, to_end, false);
            let place = if to_end || offset > data.len() {
                data.len() as int
            } else {
                offset
            };
            &&& place + buffer.len() > data.len() ==> all.len() == place + buffer.len()
            &&& place + buffer.len() <= data.len() ==> all.len() == data.len()
            &&& 0 <= i < data.len() ==> written_to(data, buffer, offset, to_end, true)[i] == all[i]
            &&& written_to(data, buffer, offset, to_end, true).len() == data.len()
        }),
{
}

/// Numbers that only depend on what a file has are the same for the same files.
proof fn lemma_same_use(a: Map<u64, FileView>, b: Map<u64, FileView>, ids: Set<u64>)
    requires
        ids.finite(),
        forall|id: u64| #[trigger]
            ids.contains(id) ==> file_of(a, id).data.len() == file_of(b, id).data.len(),
    ensures
        used_by(a, ids) == used_by(b, ids),
    decreases ids.len(),
{
    let count_a = |sum: int, id: u64| sum + file_of(a, id).data.len();
    let count_b = |sum: int, id: u64| sum + file_of(b, id).data.len();
    if ids.len() == 0 {
        assert(ids == Set::<u64>::empty());
        vstd::set::fold::lemma_fold_empty(0int, count_a);
        vstd::set::fold::lemma_fold_empty(0int, count_b);
    } else {
        let id = ids.choose();
        let rest = ids.remove(id);
        lemma_same_use(a, b, rest);
        assert(rest.insert(id) == ids);
        vstd::set::fold::lemma_fold_insert(rest, 0int, count_a, id);
        vstd::set::fold::lemma_fold_insert(rest, 0int, count_b, id);
    }
}

proof fn lemma_use_without(files: Map<u64, FileView>, id: u64)
    requires
        files.dom().finite(),
        has_file(files, id),
    ensures
        used_space(files) == used_by(files, files.dom().remove(id)) + file_of(files, id).data.len(),
{
    let rest = files.dom().remove(id);
    assert(rest.insert(id) == files.dom());
    vstd::set::fold::lemma_fold_insert(
        rest,
        0int,
        |sum: int, x: u64| sum + file_of(files, x).data.len(),
        id,
    );
}

/// The space in use is the number of bytes of all files: a new file adds its bytes, one
/// that is gone does not count any more, and one that changes counts with its new bytes.
pub proof fn law_every_byte_is_counted(files: Map<u64, FileView>, file: FileView)
    requires
        files.dom().finite(),
    ensures
        used_space(Map::<u64, FileView>::empty()) == 0,
        !has_file(files, file.id) ==> used_space(with_file(files, file)) == used_space(files)
            + file.data.len(),
        has_file(files, file.id) ==> used_space(with_file(files, file)) + file_of(
            files,
            file.id,
        ).data.len() == used_space(files) + file.data.len(),
        has_file(files, file.id) ==> used_space(without_file(files, file.id)) + file_of(
            files,
            file.id,
        ).data.len() == used_space(files),
{
    let none = Map::<u64, FileView>::empty();
    assert(none.dom() == Set::<u64>::empty());
    vstd::set::fold::lemma_fold_empty(
        0int,
        |sum: int, id: u64| sum + file_of(none, id).data.len(),
    );
    let after = with_file(files, file);
    let less = without_file(files, file.id);
    let rest = files.dom().remove(file.id);
    assert(after.dom().remove(file.id) == rest);
    assert(less.dom() == rest);
    lemma_use_without(after, file.id);
    lemma_same_use(files, after, rest);
    lemma_same_use(files, less, rest);
    if has_file(files, file.id) {
        lemma_use_without(files, file.id);
    } else {
        assert(rest == files.dom());
    }
}

/// Looking for one more name, which can be too long.
proof fn lemma_last_name(
    files: Map<u64, FileView>,
    pieces: Seq<Seq<u16>>,
    name: Seq<u16>,
    k: int,
    found: FoundView,
    last_len: int,
)
    requires
        name.len() > 0,
        0 <= k <= pieces.len(),
        found_from(files, pieces, k, found, last_len, None) matches Ok(r) && r.node is Some,
        k == 0 ==> found.parent_len == 0 && last_len == 0,
        k > 0 ==> found.parent_len + last_len == pieces_size(pieces.take(k)) - 1,
    ensures
        name.len() > MAX_NAME_LEN ==> found_from(
            files,
            pieces.push(name),
            k,
            found,
            last_len,
            None,
        ) == Err::<FoundView, _>(MemFsError::NameTooLong),
        found_from(files, pieces.push(name), k, found, last_len, None) matches Ok(r) ==> r.parent_len
            == pieces_size(pieces),
    decreases pieces.len() - k,
{
    let all = pieces.push(name);
    let start = found.parent_len + if k > 0 {
        1int
    } else {
        0int
    };
    assert(pieces.take(0) == Seq::<Seq<u16>>::empty());
    if k == pieces.len() {
        assert(all[k] == name);
        assert(pieces.take(k) == pieces);
        let n = found.node->0;
        let next = FoundView {
            parent: n,
            parent_len: start + last_len,
            name,
            node: child_with(file_of(files, n).children, name),
        };
        assert(found_from(files, all, k + 1, next, name.len() as int, None) == Ok::<
            FoundView,
            MemFsError,
        >(next));
    } else {
        let piece = pieces[k];
        assert(all[k] == piece);
        lemma_pieces_size(pieces, k);
        if piece.len() == 0 {
            lemma_last_name(
                files,
                pieces,
                name,
                k + 1,
                FoundView { parent_len: start + last_len, ..found },
                0,
            );
        } else {
            let n = found.node->0;
            lemma_last_name(
                files,
                pieces,
                name,
                k + 1,
                FoundView {
                    parent: n,
                    parent_len: start + last_len,
                    name: piece,
                    node: child_with(file_of(files, n).children, piece),
                },
                piece.len() as int,
            );
        }
    }
}

/// A name that is too long is refused wherever a name can be.
pub proof fn law_long_names_are_refused(
    files: Map<u64, FileView>,
    folder_path: Seq<u16>,
    slash: u16,
    name: Seq<u16>,
    is_dir: bool,
    data: Seq<u8>,
    id: u64,
)
    requires
        node_at(files, folder_path) is Some,
        is_slash(slash),
        name.len() > MAX_NAME_LEN,
        forall|i: int| 0 <= i < name.len() ==> !is_slash(#[trigger] name[i]),
    ensures
        lookup(files, folder_path + seq![slash] + name, None) == Err::<FoundView, _>(
            MemFsError::NameTooLong,
        ),
        made(files, folder_path + seq![slash] + name, is_dir, data, id) == Err::<
            Map<u64, FileView>,
            _,
        >(MemFsError::NameTooLong),
{
    lemma_last_piece(Seq::empty(), folder_path, name, slash);
    lemma_last_name(files, pieces(folder_path), name, 0, search_start(), 0);
}

/// A file can be moved to a name that is free in another folder. It is in that folder then
/// and not in the one that it was in, with the same bytes, and no other file changes but
/// these two folders.
pub proof fn law_files_move_to_free_names(
    files: Map<u64, FileView>,
    last_id: u64,
    context: u64,
    folder_path: Seq<u16>,
    slash: u16,
    name: Seq<u16>,
    replace: bool,
    other: u64,
)
    requires
        files_ok(files, last_id),
        node_at(files, folder_path) is Some,
        is_slash(slash),
        is_file_name(name),
        node_at(files, folder_path + seq![slash] + name) is None,
        has_file(files, context),
        context != node_at(files, folder_path)->0,
        file_of(files, context).parent matches Some(previous) ==> has_file(files, previous)
            && previous != node_at(files, folder_path)->0 && previous != context,
    ensures
        ({
            let path = folder_path + seq![slash] + name;
            let folder = node_at(files, folder_path)->0;
            let before = file_of(files, context);
            renamed(files, context, path, replace) matches Ok(after) && {
                &&& file_of(after, folder).children == file_of(files, folder).children.push(
                    (name, context),
                )
                &&& file_of(after, context) == (FileView { parent: Some(folder), ..before })
                &&& before.parent matches Some(previous) ==> file_of(after, previous).children
                    == file_of(files, previous).children.filter(
                    |c: (Seq<u16>, u64)| c.1 != context,
                )
                &&& other != context && other != folder && before.parent != Some(other)
                    ==> file_of(after, other) == file_of(files, other)
                &&& has_file(after, other) == has_file(files, other)
            }
        }),
{
    let path = folder_path + seq![slash] + name;
    let folder = node_at(files, folder_path)->0;
    law_paths_lead_from_folder_to_entry(files, last_id, folder_path, slash, name);
    lemma_last_piece(Seq::empty(), folder_path, name, slash);
    lemma_last_name(files, pieces(folder_path), name, 0, search_start(), 0);
    lemma_pieces_len(Seq::empty(), folder_path);
    let found = lookup(files, path, None)->Ok_0;
    assert(found.parent_len == folder_path.len() + 1);
    assert forall|i: int| found.parent_len <= i < path.len() implies !is_slash(
        #[trigger] path[i],
    ) by {
        assert(path[i] == name[i - folder_path.len() - 1]);
    }
    assert(cleared_destination(files, path, found, replace) == Ok::<
        Map<u64, FileView>,
        MemFsError,
    >(files));
    lemma_name_place(file_of(files, folder).children, name);
    assert(file_of(files, folder).id == folder);
    assert(file_of(files, context).id == context);
    if let Some(previous) = file_of(files, context).parent {
        assert(file_of(files, previous).id == previous);
        lemma_without_id_is_filter(file_of(files, previous).children, context);
    }
}

proof fn lemma_without_id_is_filter(children: Seq<(Seq<u16>, u64)>, id: u64)
    ensures
        without_id(children, id) == children.filter(|c: (Seq<u16>, u64)| c.1 != id),
    decreases children.len(),
{
    reveal(Seq::filter);
    if children.len() > 0 {
        lemma_without_id_is_filter(children.drop_last(), id);
    }
}

/// What the file system tells about a file: the number of its bytes, that it is a file, and
/// that it is in one place. A folder is told to be one, and has no size.
pub proof fn law_infos_tell_the_size(file: FileView)
    requires
        file.data.len() <= u64::MAX,
    ensures
        file.is_dir ==> info_of(file).size == 0,
        !file.is_dir ==> info_of(file).size == file.data.len(),
        info_of(file).attributes & FILE_ATTRIBUTE_DIRECTORY != 0 <==> file.is_dir,
        info_of(file).hard_links == 1,
{
    assert(0u32 & FILE_ATTRIBUTE_DIRECTORY == 0) by (bit_vector);
    assert(FILE_ATTRIBUTE_DIRECTORY & FILE_ATTRIBUTE_DIRECTORY != 0) by (bit_vector);
}

/// What is written replaces bytes or is added: the file grows by all bytes that replace
/// none. Nothing is replaced at the end of a file or behind it.
pub proof fn law_written_bytes_replace_or_are_added(
    data: Seq<u8>,
    buffer: Seq<u8>,
    offset: int,
    to_end: bool,
)
    requires
        0 <= offset,
    ensures
        ({
            let n = replaced_len(data.len() as int, buffer.len() as int, offset, to_end);
            &&& 0 <= n <= buffer.len()
            &&& written_to(data, buffer, offset, to_end, false).len() + n == data.len()
                + buffer.len()
            &&& to_end || offset >= data.len() ==> n == 0
            &&& !to_end && offset + buffer.len() <= data.len() && buffer.len() > 0 ==> n
                == buffer.len()
        }),
{
}

} // verus!
