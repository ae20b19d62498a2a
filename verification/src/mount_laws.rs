//! What holds of backups that are browsed.
use vstd::prelude::*;
use vstd::utf8::encode_utf8;

use crate::fs_cursor::name_matches;
use crate::fs_lookup::{find_in_list, find_node};
use crate::fs_places::{
    entry_at, has_unique_names, info_at, is_tidy, law_entries_are_found_by_their_names,
    lemma_first_match, names_at, same_names,
};
use crate::fs_tree::FsNode;
use crate::metadata::FsEntryMetadata;
use crate::mount::{
    found_metadata, found_node, letter_in_output, listed_entries, place_of, recreation_of,
    root_place, shown_entry, MountPlace, NetUseError, PathPrefix, Recreation,
};
use crate::text::{
    ends_with_separator, is_plain, law_one_more_name_is_one_more_piece, segments, starts_with,
};
use crate::text_lines::{law_first_line_ends_at_line_feed, lines};
use crate::timestamp::lemma_unix_seconds_bound;
use crate::wiztree_csv::RecordView;

verus! {

/// A path with one more name leads to the entry with that name in the folder.
proof fn lemma_found_inside(tree: FsNode, path: Seq<char>, name: Seq<char>)
    requires
        found_node(tree, path) is Some,
        is_plain(name),
    ensures
        found_node(tree, path.push('/') + name) == {
            let folder = found_node(tree, path)->0;
            if folder.is_folder() {
                match find_in_list(folder.children, name, false, 0) {
                    Some(i) => Some(folder.children[i as int]),
                    None => None,
                }
            } else {
                None
            }
        },
{
    reveal_strlit("/");
    let longer = path.push('/') + name;
    assert(starts_with(longer, "/"@)) by {
        assert(longer.take(1) == path.take(1));
    }
    assert(longer.skip(1) == path.skip(1).push('/') + name);
    law_one_more_name_is_one_more_piece(path.skip(1), '/', name, '/');
    lemma_find_inside(tree, segments(path.skip(1)), name);
}

proof fn lemma_find_inside(tree: FsNode, names: Seq<Seq<char>>, name: Seq<char>)
    requires
        find_node(tree, names, false) is Some,
    ensures
        find_node(tree, names.push(name), false) == {
            let folder = find_node(tree, names, false)->0;
            if folder.is_folder() {
                match find_in_list(folder.children, name, false, 0) {
                    Some(i) => Some(folder.children[i as int]),
                    None => None,
                }
            } else {
                None
            }
        },
    decreases names.len(),
{
    let all = names.push(name);
    assert(all[0] == if names.len() == 0 {
        name
    } else {
        names[0]
    });
    if names.len() == 0 {
        assert(all.drop_first() == names);
        if let Some(i) = find_in_list(tree.children, name, false, 0) {
            assert(find_node(tree.children[i as int], names, false) == Some(
                tree.children[i as int],
            ));
        }
    } else {
        assert(all.drop_first() == names.drop_first().push(name));
        let i = find_in_list(tree.children, names[0], false, 0)->0;
        lemma_find_inside(tree.children[i as int], names.drop_first(), name);
    }
}

/// Listing a folder agrees with looking up the entries in it: there is one entry in the
/// list for each entry of the folder, in the same order. Looking up the path of the folder
/// with the name in the list gives exactly the metadata in the list, if no earlier entry
/// has the same name. Looking up something else than the entry is gives nothing.
pub proof fn law_listings_agree_with_lookups(tree: FsNode, path: Seq<char>, i: int)
    requires
        found_node(tree, path) matches Some(folder) && folder.is_folder() && 0 <= i
            < folder.children.len() && is_plain(folder.children[i].name) && folder.children[i].info
            is Some,
        forall|j: int|
            0 <= j < i ==> !name_matches(
                found_node(tree, path)->0.children[i].name,
                (#[trigger] found_node(tree, path)->0.children[j]).name,
                false,
            ),
    ensures
        ({
            let folder = found_node(tree, path)->0;
            let (name, info) = listed_entries(folder.children)[i];
            &&& listed_entries(folder.children).len() == folder.children.len()
            &&& name == folder.children[i].name
            &&& folder.children[i].info == Some(info)
            &&& found_metadata(tree, path.push('/') + name, None) == Some(info)
            &&& found_metadata(tree, path.push('/') + name, Some(info.is_dir)) == Some(info)
            &&& found_metadata(tree, path.push('/') + name, Some(!info.is_dir)) is None
        }),
{
    let folder = found_node(tree, path)->0;
    let name = folder.children[i].name;
    lemma_found_inside(tree, path, name);
    lemma_first_match(folder.children, name, 0);
    let found = find_in_list(folder.children, name, false, 0);
    assert(name_matches(name, folder.children[i].name, false));
    assert(found == Some(i as nat)) by {
        if let Some(k) = found {
            if k < i {
                assert(!name_matches(name, folder.children[k as int].name, false));
            }
        }
    }
}

/// Looking up the path of an entry gives exactly what is stored about it, in whatever case
/// the path is written, if the names in each folder differ.
pub proof fn law_lookups_give_stored_metadata(tree: FsNode, places: Seq<int>, path: Seq<char>)
    requires
        tree.is_folder(),
        is_tidy(tree),
        has_unique_names(tree),
        info_at(tree, places) is Some,
        starts_with(path, "/"@),
        same_names(segments(path.skip(1)), names_at(tree, places)),
    ensures
        found_node(tree, path) == entry_at(tree, places),
        found_metadata(tree, path, None) == info_at(tree, places),
        found_metadata(tree, path, Some(info_at(tree, places)->0.is_dir)) == info_at(tree, places),
        found_metadata(tree, path, Some(!info_at(tree, places)->0.is_dir)) is None,
{
    law_entries_are_found_by_their_names(tree, places, segments(path.skip(1)));
}

/// A path that does not start with a separator, or with a name that no entry has, leads to
/// nothing.
pub proof fn law_missing_entries_are_not_found(
    tree: FsNode,
    path: Seq<char>,
    name: Seq<char>,
    find_dir: Option<bool>,
)
    ensures
        !starts_with(path, "/"@) ==> found_metadata(tree, path, find_dir) is None,
        is_plain(name) && (found_node(tree, path) matches Some(folder) && forall|j: int|
            0 <= j < folder.children.len() ==> !name_matches(
                name,
                (#[trigger] folder.children[j]).name,
                false,
            )) ==> found_metadata(tree, path.push('/') + name, find_dir) is None,
{
    if is_plain(name) && found_node(tree, path) is Some {
        lemma_found_inside(tree, path, name);
        lemma_first_match(found_node(tree, path)->0.children, name, 0);
    }
}

/// The root among some records is a folder. No other folder has a shorter path, and none
/// before it has a path of the same length. There is no root only if there is no folder.
pub proof fn law_roots_have_the_shortest_paths(records: Seq<RecordView>)
    ensures
        root_place(records) matches Some(place) ==> {
            &&& 0 <= place < records.len()
            &&& ends_with_separator(records[place].file_name)
            &&& forall|i: int|
                0 <= i < records.len() && ends_with_separator((#[trigger] records[i]).file_name)
                    ==> {
                    let own = encode_utf8(records[place].file_name).len();
                    let other = encode_utf8(records[i].file_name).len();
                    own <= other && (i < place ==> own < other)
                }
        },
        root_place(records) is None ==> forall|i: int|
            0 <= i < records.len() ==> !ends_with_separator((#[trigger] records[i]).file_name),
    decreases records.len(),
{
    if records.len() > 0 {
        let rest = records.drop_last();
        law_roots_have_the_shortest_paths(rest);
        assert forall|i: int| 0 <= i < rest.len() implies #[trigger] rest[i] == records[i] by {}
        assert forall|i: int| 0 <= i < rest.len() implies #[trigger] records[i] == rest[i] by {}
    }
}

/// Records are recreated perfectly exactly if they are the same. Otherwise one list of
/// records starts with all of the other one, or the first different record is told.
pub proof fn law_recreations_tell_differences(given: Seq<RecordView>, listed: Seq<RecordView>)
    requires
        given.len() <= usize::MAX,
    ensures
        recreation_of(given, listed, 0) == Recreation::Perfect <==> given == listed,
        recreation_of(given, listed, 0) == Recreation::TooMany <==> given.len() < listed.len()
            && listed.take(given.len() as int) == given,
        recreation_of(given, listed, 0) == Recreation::TooFew <==> listed.len() < given.len()
            && given.take(listed.len() as int) == listed,
        recreation_of(given, listed, 0) matches Recreation::Different(i) ==> {
            &&& i < given.len()
            &&& i < listed.len()
            &&& given.take(i as int) == listed.take(i as int)
            &&& given[i as int] != listed[i as int]
        },
{
    lemma_recreation(given, listed, 0);
    let result = recreation_of(given, listed, 0);
    if given == listed {
        assert(result == Recreation::Perfect);
    }
    if given.len() < listed.len() && listed.take(given.len() as int) == given {
        assert forall|k: int| 0 <= k < given.len() implies given[k] == listed[k] by {
            assert(listed.take(given.len() as int)[k] == listed[k]);
        }
    }
    if listed.len() < given.len() && given.take(listed.len() as int) == listed {
        assert forall|k: int| 0 <= k < listed.len() implies given[k] == listed[k] by {
            assert(given.take(listed.len() as int)[k] == given[k]);
        }
    }
}

proof fn lemma_recreation(given: Seq<RecordView>, listed: Seq<RecordView>, from: int)
    requires
        given.len() <= usize::MAX,
        0 <= from <= given.len(),
        from <= listed.len(),
        forall|k: int| 0 <= k < from ==> #[trigger] given[k] == listed[k],
    ensures
        match recreation_of(given, listed, from) {
            Recreation::Perfect => given == listed,
            Recreation::TooMany => given.len() < listed.len() && listed.take(given.len() as int)
                == given,
            Recreation::TooFew => listed.len() < given.len() && given.take(listed.len() as int)
                == listed,
            Recreation::Different(i) => {
                &&& i < given.len()
                &&& i < listed.len()
                &&& given.take(i as int) == listed.take(i as int)
                &&& given[i as int] != listed[i as int]
            },
        },
    decreases given.len() - from,
{
    if from < given.len() && from < listed.len() && given[from] == listed[from] {
        lemma_recreation(given, listed, from + 1);
    }
}

/// The letter that follows `Drive ` at the start of the output is found, whatever else
/// follows.
pub proof fn law_letters_follow_the_first_word(letter: char, rest: Seq<char>)
    requires
        letter != '\n',
        letter != '\r',
    ensures
        letter_in_output("Drive "@ + seq![letter] + rest) == Ok::<char, NetUseError>(letter),
{
    reveal_strlit("Drive ");
    let start = "Drive "@ + seq![letter];
    let output = start + rest;
    let line = law_first_line_ends_at_line_feed(output);
    assert(starts_with(output, start)) by {
        assert(output.take(7) == start);
    }
    assert(line.len() >= 7) by {
        if line.len() < 7 {
            assert(output[line.len() as int] == start[line.len() as int]);
        }
    }
    let first = lines(output)[0];
    assert(line.take(7) == output.take(line.len() as int).take(7));
    assert(line.take(7) == start);
    assert(line[6] == line.take(7)[6]);
    assert(first.len() >= 7);
    assert(first.take(6) == "Drive "@) by {
        assert(first.take(6) == line.take(7).take(6));
        assert(start.take(6) == "Drive "@);
    }
    assert(first[6] == letter);
}

/// A letter is found only after `Drive ` at the start of the output.
pub proof fn law_other_output_has_no_letter(output: Seq<char>)
    ensures
        letter_in_output(output) is Ok ==> starts_with(output, "Drive "@),
        letter_in_output(output) matches Ok(letter) ==> output.len() > 6 && output[6] == letter,
        output.len() == 0 ==> letter_in_output(output) == Err::<char, _>(NetUseError::NoOutput),
{
    reveal_strlit("Drive ");
    if output.len() > 0 {
        let line = law_first_line_ends_at_line_feed(output);
        let first = lines(output)[0];
        if starts_with(first, "Drive "@) {
            assert(first == output.take(first.len() as int));
            assert(output.take(6) == first.take(6));
        }
    }
}

/// Without a mount point any free drive is used. A mount point is a drive exactly if it is
/// a disk and nothing else. Only a share is refused.
pub proof fn law_mount_points_are_kept(
    mount_point: bool,
    prefix: Option<PathPrefix>,
    has_more: bool,
    letter: char,
)
    ensures
        place_of(mount_point, prefix, has_more) == Some(MountPlace::Drive(None)) <==> !mount_point,
        place_of(mount_point, prefix, has_more) == Some(MountPlace::Drive(Some(letter)))
            <==> mount_point && !has_more && prefix == Some(PathPrefix::Disk(letter)),
        place_of(mount_point, prefix, has_more) is None <==> mount_point && !has_more && prefix
            == Some(PathPrefix::Unc),
{
}

/// Files are shown with their size and folders without one. Entries that are shown with the
/// same time were modified in the same second, and a later one is shown with a larger
/// number if both are after the start of 1970.
pub proof fn law_shown_entries_tell_size_and_time(a: FsEntryMetadata, b: FsEntryMetadata)
    requires
        a.modified.valid(),
        b.modified.valid(),
        a.modified.nanos < 1_000_000_000,
        b.modified.nanos < 1_000_000_000,
    ensures
        shown_entry(a).is_dir == a.is_dir,
        !a.is_dir ==> shown_entry(a).len == a.size,
        a.is_dir ==> shown_entry(a).len == 0,
        shown_entry(a).modified == shown_entry(b).modified ==> a.modified.spec_unix_seconds()
            == b.modified.spec_unix_seconds(),
        0 <= a.modified.spec_unix_seconds() < b.modified.spec_unix_seconds() ==> shown_entry(
            a,
        ).modified < shown_entry(b).modified,
        a.modified.spec_unix_seconds() >= 0 ==> shown_entry(a).modified / 1_000_000
            == a.modified.spec_unix_seconds(),
{
    let t = a.modified;
    let u = b.modified;
    lemma_unix_seconds_bound(t.year as int, t.ordinal as int, t.secs as int);
    lemma_unix_seconds_bound(u.year as int, u.ordinal as int, u.secs as int);
}

} // verus!
