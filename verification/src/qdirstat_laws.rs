//! What holds of cache files of QDirStat.
use vstd::prelude::*;
use vstd::utf8::encode_utf8;

use crate::fs_export::{list_records, node_records, root_full_path, tree_records};
use crate::fs_index::FsIndex;
use crate::fs_places::{entry_at, is_tidy, names_at};
use crate::fs_qdirstat::{
    clean_path, file_line, file_lines, folder_line, folder_lines, index_lines, list_lines,
    own_lines, tree_lines,
};
use crate::fs_tree::FsNode;
use crate::laws::folder_path;
use crate::metadata::FsEntryMetadata;
use crate::mount::{complete, lemma_complete_list};
use crate::text::{is_plain, is_separator, lemma_encode_injective};
use crate::text_format::{
    decimal, law_digits_stand_for_the_number, law_encoded_bytes_can_be_decoded,
    law_encoded_texts_have_no_separators, law_numbers_have_different_texts,
    law_trimming_keeps_the_middle, percent_encoded, prefixed_hex, replaced, trimmed,
};
use crate::timestamp::lemma_unix_seconds_bound;

verus! {

/// Whether an entry is a file with metadata.
pub open spec fn is_file(node: FsNode) -> bool {
    node.info matches Some(info) && !info.is_dir
}

/// The files among the entries of a folder.
pub open spec fn files_of(list: Seq<FsNode>) -> Seq<FsNode> {
    list.filter(|node: FsNode| is_file(node))
}

proof fn lemma_file_lines_push(list: Seq<FsNode>, last: FsNode, uid: u32, gid: u32)
    ensures
        file_lines(list.push(last), uid, gid) == file_lines(list, uid, gid) + if is_file(last) {
            seq![file_line(last.info->0, last.name, uid, gid)]
        } else {
            seq![]
        },
    decreases list.len(),
{
    reveal_with_fuel(file_lines, 2);
    let all = list.push(last);
    let none = Seq::<Seq<char>>::empty();
    if list.len() == 0 {
        assert(all.drop_first() == Seq::<FsNode>::empty());
        assert(all[0] == last);
        assert(file_lines(all.drop_first(), uid, gid) == none);
    } else {
        assert(all.drop_first() == list.drop_first().push(last));
        assert(all[0] == list[0]);
        lemma_file_lines_push(list.drop_first(), last, uid, gid);
        let rest = file_lines(list.drop_first(), uid, gid);
        let end = if is_file(last) {
            seq![file_line(last.info->0, last.name, uid, gid)]
        } else {
            none
        };
        let first = seq![file_line(list[0].info->0, list[0].name, uid, gid)];
        assert(first + (rest + end) == (first + rest) + end);
    }
}

/// There is one line for each file of a folder, in the order of the files.
pub proof fn lemma_lines_of_files(list: Seq<FsNode>, uid: u32, gid: u32)
    ensures
        file_lines(list, uid, gid).len() == files_of(list).len(),
        forall|k: int|
            0 <= k < files_of(list).len() ==> #[trigger] file_lines(list, uid, gid)[k] == file_line(
                files_of(list)[k].info->0,
                files_of(list)[k].name,
                uid,
                gid,
            ),
    decreases list.len(),
{
    reveal(Seq::filter);
    if list.len() > 0 {
        let rest = list.drop_last();
        lemma_lines_of_files(rest, uid, gid);
        lemma_file_lines_push(rest, list.last(), uid, gid);
        assert(rest.push(list.last()) == list);
        assert(files_of(list) == if is_file(list.last()) {
            files_of(rest).push(list.last())
        } else {
            files_of(rest)
        });
        assert forall|k: int| 0 <= k < files_of(list).len() implies #[trigger] file_lines(
            list,
            uid,
            gid,
        )[k] == file_line(files_of(list)[k].info->0, files_of(list)[k].name, uid, gid) by {
            if k < files_of(rest).len() {
                assert(file_lines(rest, uid, gid)[k] == file_line(
                    files_of(rest)[k].info->0,
                    files_of(rest)[k].name,
                    uid,
                    gid,
                ));
            }
        }
    }
}

/// A path is empty after cleaning exactly if it has nothing but separators.
pub proof fn law_only_separators_are_cleaned_away(path: Seq<char>)
    ensures
        clean_path(path).len() == 0 <==> forall|i: int|
            0 <= i < path.len() ==> is_separator(#[trigger] path[i]),
        clean_path(path).len() > 0 ==> !is_separator(clean_path(path)[0]) && !is_separator(
            clean_path(path).last(),
        ),
        !clean_path(path).contains('\\'),
{
    let same = replaced(path, '\\', '/');
    let (start, end) = law_trimming_keeps_the_middle(same, '/');
    let clean = clean_path(path);
    assert forall|i: int| 0 <= i < same.len() implies #[trigger] same[i] != '\\' && (same[i] == '/'
        <==> is_separator(path[i])) by {}
    assert forall|i: int| 0 <= i < clean.len() implies #[trigger] clean[i] == same[start + i] by {}
    if clean.len() == 0 {
        assert forall|i: int| 0 <= i < path.len() implies is_separator(#[trigger] path[i]) by {
            assert(same[i] == '/');
        }
    } else {
        assert(same[start] == clean[0]);
        assert(!is_separator(path[start]));
    }
}

/// A longer path is not empty after cleaning if a shorter one is not.
proof fn lemma_longer_path(path: Seq<char>, name: Seq<char>)
    ensures
        clean_path(path).len() > 0 ==> clean_path((path + name).push('/')).len() > 0,
        is_plain(name) ==> clean_path((path + name).push('/')).len() > 0,
{
    let longer = (path + name).push('/');
    law_only_separators_are_cleaned_away(path);
    law_only_separators_are_cleaned_away(longer);
    if clean_path(path).len() > 0 {
        let i = choose|i: int| 0 <= i < path.len() && !is_separator(#[trigger] path[i]);
        assert(longer[i] == path[i]);
    }
    if is_plain(name) {
        assert(longer[path.len() as int] == name[0]);
        assert(!is_separator(name[0]));
    }
}

/// A folder has as many lines as records, if it has a name.
proof fn lemma_folder_count(
    node: FsNode,
    path: Seq<char>,
    folder: Seq<char>,
    separator: char,
    force_ext: bool,
    uid: u32,
    gid: u32,
)
    requires
        is_tidy(node),
        complete(node),
        node.is_folder(),
        clean_path(path).len() > 0,
    ensures
        folder_lines(node.info->0, path, node.children, uid, gid).len() == 1 + list_records(
            node.children,
            folder,
            separator,
            force_ext,
        ).len(),
    decreases node, 1nat, 0nat,
{
    lemma_list_count(
        node,
        node.children.len(),
        path,
        folder,
        separator,
        force_ext,
        uid,
        gid,
    );
    assert(node.children.take(node.children.len() as int) == node.children);
}

proof fn lemma_list_count(
    node: FsNode,
    count: nat,
    path: Seq<char>,
    folder: Seq<char>,
    separator: char,
    force_ext: bool,
    uid: u32,
    gid: u32,
)
    requires
        is_tidy(node),
        complete(node),
        clean_path(path).len() > 0,
        count <= node.children.len(),
    ensures
        file_lines(node.children.take(count as int), uid, gid).len() + list_lines(
            node.children.take(count as int),
            path,
            uid,
            gid,
        ).len() == list_records(
            node.children.take(count as int),
            folder,
            separator,
            force_ext,
        ).len(),
    decreases node, 0nat, count,
{
    let list = node.children.take(count as int);
    if count > 0 {
        let at = count - 1;
        let rest = node.children.take(at);
        let last = node.children[at];
        assert(list.drop_last() == rest);
        assert(list == rest.push(last));
        assert(list.last() == last);
        lemma_list_count(node, at as nat, path, folder, separator, force_ext, uid, gid);
        lemma_file_lines_push(rest, last, uid, gid);
        lemma_complete_list(node.children);
        assert(complete(last));
        assert(is_tidy(last));
        let inner = crate::fs_export::entry_path(
            folder,
            last.name,
            last.is_folder(),
            separator,
            force_ext,
        );
        if last.is_folder() {
            lemma_longer_path(path, last.name);
            lemma_folder_count(
                last,
                (path + last.name).push('/'),
                inner,
                separator,
                force_ext,
                uid,
                gid,
            );
        } else {
            assert(last.children.len() == 0);
            assert(list_records(last.children, inner, separator, force_ext).len() == 0);
        }
        assert(node_records(last, folder, separator, force_ext).len() == 1 + list_records(
            last.children,
            inner,
            separator,
            force_ext,
        ).len());
    } else {
        assert(list.len() == 0);
    }
}

/// There is exactly one line for each record that an index lists, if its root has a name.
pub proof fn law_each_record_has_a_line(
    tree: FsNode,
    root_path: Option<Seq<char>>,
    separator: char,
    force_ext: bool,
    uid: u32,
    gid: u32,
)
    requires
        is_tidy(tree),
        complete(tree),
        clean_path(root_full_path(tree, root_path, '/')).len() > 0,
    ensures
        tree_lines(tree, root_path, uid, gid).len() == tree_records(
            tree,
            root_path,
            separator,
            force_ext,
        ).len(),
{
    if tree.is_folder() {
        lemma_folder_count(
            tree,
            root_full_path(tree, root_path, '/'),
            root_full_path(tree, root_path, separator),
            separator,
            force_ext,
            uid,
            gid,
        );
    }
}

/// Where the lines of a folder are among the lines of a list.
proof fn lemma_lines_of_list(list: Seq<FsNode>, folder: Seq<char>, uid: u32, gid: u32, i: int) -> (at:
    int)
    requires
        0 <= i < list.len(),
        list[i].is_folder(),
    ensures
        ({
            let own = folder_lines(
                list[i].info->0,
                (folder + list[i].name).push('/'),
                list[i].children,
                uid,
                gid,
            );
            let all = list_lines(list, folder, uid, gid);
            0 <= at && at + own.len() <= all.len() && all.subrange(at, at + own.len()) == own
        }),
    decreases list.len(),
{
    let rest = list.drop_last();
    let before = list_lines(rest, folder, uid, gid);
    let all = list_lines(list, folder, uid, gid);
    let own = folder_lines(
        list[i].info->0,
        (folder + list[i].name).push('/'),
        list[i].children,
        uid,
        gid,
    );
    if i == list.len() - 1 {
        assert(all == before + own);
        assert(all.subrange(before.len() as int, all.len() as int) == own);
        before.len() as int
    } else {
        assert(rest[i] == list[i]);
        let at = lemma_lines_of_list(rest, folder, uid, gid, i);
        assert(all.subrange(at, at + own.len()) == before.subrange(at, at + own.len()));
        at
    }
}

/// Each folder of an index with a name has a line with its own path. The lines after it are
/// those of the files in it, one for each file and in the same order.
pub proof fn law_files_follow_their_folder(
    tree: FsNode,
    root_path: Option<Seq<char>>,
    uid: u32,
    gid: u32,
    places: Seq<int>,
) -> (at: int)
    requires
        is_tidy(tree),
        tree.is_folder(),
        entry_at(tree, places) matches Some(folder) && folder.is_folder(),
        clean_path(
            folder_path(root_full_path(tree, root_path, '/'), names_at(tree, places), '/'),
        ).len() > 0,
    ensures
        ({
            let folder = entry_at(tree, places)->0;
            let path = folder_path(
                root_full_path(tree, root_path, '/'),
                names_at(tree, places),
                '/',
            );
            let all = tree_lines(tree, root_path, uid, gid);
            let files = files_of(folder.children);
            &&& 0 <= at
            &&& at + files.len() < all.len()
            &&& all[at] == folder_line(folder.info->0, path, uid, gid)
            &&& forall|k: int|
                0 <= k < files.len() ==> #[trigger] all[at + 1 + k] == file_line(
                    files[k].info->0,
                    files[k].name,
                    uid,
                    gid,
                )
        }),
{
    let base = root_full_path(tree, root_path, '/');
    lemma_folder_at(tree, base, uid, gid, places)
}

proof fn lemma_folder_at(
    node: FsNode,
    base: Seq<char>,
    uid: u32,
    gid: u32,
    places: Seq<int>,
) -> (at: int)
    requires
        is_tidy(node),
        node.is_folder(),
        entry_at(node, places) matches Some(folder) && folder.is_folder(),
        clean_path(folder_path(base, names_at(node, places), '/')).len() > 0,
    ensures
        ({
            let folder = entry_at(node, places)->0;
            let path = folder_path(base, names_at(node, places), '/');
            let all = folder_lines(node.info->0, base, node.children, uid, gid);
            let files = files_of(folder.children);
            &&& 0 <= at
            &&& at + files.len() < all.len()
            &&& all[at] == folder_line(folder.info->0, path, uid, gid)
            &&& forall|k: int|
                0 <= k < files.len() ==> #[trigger] all[at + 1 + k] == file_line(
                    files[k].info->0,
                    files[k].name,
                    uid,
                    gid,
                )
        }),
    decreases places.len(),
{
    let all = folder_lines(node.info->0, base, node.children, uid, gid);
    let own = own_lines(node.info->0, base, node.children, uid, gid);
    let inside = list_lines(node.children, base, uid, gid);
    assert(all == own + inside);
    if places.len() == 0 {
        let files = files_of(node.children);
        lemma_lines_of_files(node.children, uid, gid);
        assert(names_at(node, places) == Seq::<Seq<char>>::empty());
        assert(folder_path(base, names_at(node, places), '/') == base);
        let lines = file_lines(node.children, uid, gid);
        assert forall|k: int| 0 <= k < files.len() implies #[trigger] all[0 + 1 + k] == file_line(
            files[k].info->0,
            files[k].name,
            uid,
            gid,
        ) by {
            assert(all[1 + k] == own[1 + k]);
            assert(own[1 + k] == lines[k]);
        }
        0
    } else {
        let i = places[0];
        let entry = node.children[i];
        let rest = places.drop_first();
        assert(is_tidy(entry));
        assert(entry.is_folder()) by {
            if !entry.is_folder() {
                assert(entry.children.len() == 0);
                if rest.len() == 0 {
                    assert(entry_at(entry, rest) == Some(entry));
                }
            }
        }
        let path = (base + entry.name).push('/');
        lemma_path_inside(base, entry.name, names_at(entry, rest));
        let inner = lemma_folder_at(entry, path, uid, gid, rest);
        let offset = lemma_lines_of_list(node.children, base, uid, gid, i);
        let part = folder_lines(entry.info->0, path, entry.children, uid, gid);
        let at = own.len() + offset + inner;
        let folder = entry_at(entry, rest)->0;
        let files = files_of(folder.children);
        assert forall|k: int| 0 <= k < part.len() implies #[trigger] part[k] == all[own.len()
            + offset + k] by {
            assert(inside.subrange(offset, offset + part.len())[k] == inside[offset + k]);
        }
        assert(all[at] == part[inner]);
        assert forall|k: int| 0 <= k < files.len() implies #[trigger] all[at + 1 + k] == file_line(
            files[k].info->0,
            files[k].name,
            uid,
            gid,
        ) by {
            assert(part[inner + 1 + k] == all[own.len() + offset + (inner + 1 + k)]);
        }
        at
    }
}

/// The path of a folder inside another folder.
proof fn lemma_path_inside(base: Seq<char>, name: Seq<char>, names: Seq<Seq<char>>)
    ensures
        folder_path(base, seq![name] + names, '/') == folder_path(
            (base + name).push('/'),
            names,
            '/',
        ),
{
    let all = seq![name] + names;
    assert(all[0] == name);
    assert(all.drop_first() == names);
}

/// Two texts are the same if they are up to their first tab.
proof fn lemma_cut_at_tab(a: Seq<char>, x: Seq<char>, b: Seq<char>, y: Seq<char>)
    requires
        !a.contains('\t'),
        !b.contains('\t'),
        a + seq!['\t'] + x == b + seq!['\t'] + y,
    ensures
        a == b,
        x == y,
{
    let left = a + seq!['\t'] + x;
    let right = b + seq!['\t'] + y;
    if a.len() < b.len() {
        assert(left[a.len() as int] == '\t');
        assert(right[a.len() as int] == b[a.len() as int]);
        assert(b.contains('\t'));
    }
    if b.len() < a.len() {
        assert(right[b.len() as int] == '\t');
        assert(left[b.len() as int] == a[b.len() as int]);
        assert(a.contains('\t'));
    }
    assert(a == left.take(a.len() as int));
    assert(b == right.take(b.len() as int));
    assert(x == left.skip(a.len() + 1int));
    assert(y == right.skip(b.len() + 1int));
}

proof fn lemma_no_tabs(bytes: Seq<u8>, n: nat)
    ensures
        !percent_encoded(bytes).contains('\t'),
        !decimal(n).contains('\t'),
{
    law_encoded_texts_have_no_separators(bytes);
    law_digits_stand_for_the_number(n, 10);
    let text = decimal(n);
    if text.contains('\t') {
        let i = choose|i: int| 0 <= i < text.len() && text[i] == '\t';
        assert('0' <= text[i] || 'a' <= text[i]);
    }
    let encoded = percent_encoded(bytes);
    if encoded.contains('\t') {
        let i = choose|i: int| 0 <= i < encoded.len() && encoded[i] == '\t';
        assert(encoded[i] > ' ');
    }
}

/// The owner, the group and the time at the end of lines.
proof fn lemma_same_ends(
    uid: u32,
    gid: u32,
    seconds: int,
    other_uid: u32,
    other_gid: u32,
    other_seconds: int,
    mode: Seq<char>,
)
    requires
        i64::MIN <= seconds <= i64::MAX,
        i64::MIN <= other_seconds <= i64::MAX,
        decimal(uid as nat) + seq!['\t'] + (decimal(gid as nat) + seq!['\t'] + (mode + seq!['\t']
            + prefixed_hex(seconds))) == decimal(other_uid as nat) + seq!['\t'] + (decimal(
            other_gid as nat,
        ) + seq!['\t'] + (mode + seq!['\t'] + prefixed_hex(other_seconds))),
    ensures
        uid == other_uid,
        gid == other_gid,
        seconds == other_seconds,
{
    let none = Seq::<u8>::empty();
    lemma_no_tabs(none, uid as nat);
    lemma_no_tabs(none, gid as nat);
    lemma_no_tabs(none, other_uid as nat);
    lemma_no_tabs(none, other_gid as nat);
    let end = mode + seq!['\t'] + prefixed_hex(seconds);
    let other_end = mode + seq!['\t'] + prefixed_hex(other_seconds);
    lemma_cut_at_tab(
        decimal(uid as nat),
        decimal(gid as nat) + seq!['\t'] + end,
        decimal(other_uid as nat),
        decimal(other_gid as nat) + seq!['\t'] + other_end,
    );
    lemma_cut_at_tab(decimal(gid as nat), end, decimal(other_gid as nat), other_end);
    assert(end.skip(mode.len() + 1int) == prefixed_hex(seconds));
    assert(other_end.skip(mode.len() + 1int) == prefixed_hex(other_seconds));
    law_numbers_have_different_texts(uid as int, other_uid as int);
    law_numbers_have_different_texts(gid as int, other_gid as int);
    law_numbers_have_different_texts(seconds, other_seconds);
}

/// A line of fields that were added one by one.
proof fn lemma_fields(
    first: Seq<char>,
    a: Seq<char>,
    b: Seq<char>,
    c: Seq<char>,
    d: Seq<char>,
    mode: Seq<char>,
    e: Seq<char>,
    tab: Seq<char>,
)
    ensures
        first + a + tab + b + tab + c + tab + d + (tab + mode + tab) + e == first + (a + tab + (b
            + tab + (c + tab + (d + tab + (mode + tab + e))))),
{
}

/// A line of fields of a folder that were added one by one.
proof fn lemma_folder_fields(
    first: Seq<char>,
    a: Seq<char>,
    b: Seq<char>,
    c: Seq<char>,
    d: Seq<char>,
    mode: Seq<char>,
    e: Seq<char>,
    tab: Seq<char>,
)
    ensures
        first + a + (tab + b + tab) + c + tab + d + (tab + mode + tab) + e == first + (a + tab + (b
            + tab + (c + tab + (d + tab + (mode + tab + e))))),
{
}

/// The lines of files tell everything that is in them: two lines are the same only if the
/// files have the same name, size, time, owner and group.
pub proof fn law_file_lines_tell_files_apart(
    info: FsEntryMetadata,
    name: Seq<char>,
    uid: u32,
    gid: u32,
    other: FsEntryMetadata,
    other_name: Seq<char>,
    other_uid: u32,
    other_gid: u32,
)
    requires
        info.modified.valid(),
        other.modified.valid(),
        file_line(info, name, uid, gid) == file_line(other, other_name, other_uid, other_gid),
    ensures
        trimmed(name, '/') == trimmed(other_name, '/'),
        info.size == other.size,
        info.modified.spec_unix_seconds() == other.modified.spec_unix_seconds(),
        uid == other_uid,
        gid == other_gid,
{
    reveal_strlit("F\t");
    reveal_strlit("\t");
    reveal_strlit("\t0644\t");
    let tab = seq!['\t'];
    let mode = seq!['0', '6', '4', '4'];
    assert("\t"@ == tab);
    assert("\t0644\t"@ == tab + mode + tab);
    let a = encode_utf8(trimmed(name, '/'));
    let b = encode_utf8(trimmed(other_name, '/'));
    let t = info.modified.spec_unix_seconds();
    let u = other.modified.spec_unix_seconds();
    let end = decimal(uid as nat) + tab + (decimal(gid as nat) + tab + (mode + tab + prefixed_hex(
        t,
    )));
    let other_end = decimal(other_uid as nat) + tab + (decimal(other_gid as nat) + tab + (mode + tab
        + prefixed_hex(u)));
    let rest = decimal(info.size as nat) + tab + end;
    let other_rest = decimal(other.size as nat) + tab + other_end;
    let line = file_line(info, name, uid, gid);
    let other_line = file_line(other, other_name, other_uid, other_gid);
    lemma_fields(
        "F\t"@,
        percent_encoded(a),
        decimal(info.size as nat),
        decimal(uid as nat),
        decimal(gid as nat),
        mode,
        prefixed_hex(t),
        tab,
    );
    lemma_fields(
        "F\t"@,
        percent_encoded(b),
        decimal(other.size as nat),
        decimal(other_uid as nat),
        decimal(other_gid as nat),
        mode,
        prefixed_hex(u),
        tab,
    );
    assert(line == "F\t"@ + (percent_encoded(a) + tab + rest));
    assert(other_line == "F\t"@ + (percent_encoded(b) + tab + other_rest));
    assert(line.skip(2) == percent_encoded(a) + tab + rest);
    assert(other_line.skip(2) == percent_encoded(b) + tab + other_rest);
    lemma_no_tabs(a, info.size as nat);
    lemma_no_tabs(b, other.size as nat);
    lemma_cut_at_tab(percent_encoded(a), rest, percent_encoded(b), other_rest);
    lemma_cut_at_tab(decimal(info.size as nat), end, decimal(other.size as nat), other_end);
    law_numbers_have_different_texts(info.size as int, other.size as int);
    law_encoded_bytes_can_be_decoded(a);
    law_encoded_bytes_can_be_decoded(b);
    lemma_encode_injective(trimmed(name, '/'), trimmed(other_name, '/'));
    lemma_time_fits(info);
    lemma_time_fits(other);
    lemma_same_ends(uid, gid, t, other_uid, other_gid, u, mode);
}

proof fn lemma_time_fits(info: FsEntryMetadata)
    requires
        info.modified.valid(),
    ensures
        i64::MIN <= info.modified.spec_unix_seconds() <= i64::MAX,
{
    let t = info.modified;
    lemma_unix_seconds_bound(t.year as int, t.ordinal as int, t.secs as int);
}

/// The lines of folders tell everything that is in them: two lines are the same only if the
/// folders have the same path, time, owner and group. They are never lines of files.
pub proof fn law_folder_lines_tell_folders_apart(
    info: FsEntryMetadata,
    path: Seq<char>,
    uid: u32,
    gid: u32,
    other: FsEntryMetadata,
    other_path: Seq<char>,
    other_uid: u32,
    other_gid: u32,
)
    requires
        info.modified.valid(),
        other.modified.valid(),
    ensures
        folder_line(info, path, uid, gid) != file_line(other, other_path, other_uid, other_gid),
        folder_line(info, path, uid, gid) == folder_line(other, other_path, other_uid, other_gid)
            ==> {
            &&& clean_path(path) == clean_path(other_path)
            &&& info.modified.spec_unix_seconds() == other.modified.spec_unix_seconds()
            &&& uid == other_uid
            &&& gid == other_gid
        },
{
    reveal_strlit("F\t");
    reveal_strlit("D /");
    reveal_strlit("\t");
    reveal_strlit("\t0\t");
    reveal_strlit("\t0755\t");
    let line = folder_line(info, path, uid, gid);
    let other_line = folder_line(other, other_path, other_uid, other_gid);
    assert(line[0] == 'D');
    assert(file_line(other, other_path, other_uid, other_gid)[0] == 'F');
    let tab = seq!['\t'];
    let zero = seq!['0'];
    let mode = seq!['0', '7', '5', '5'];
    assert("\t"@ == tab);
    assert("\t0\t"@ == tab + zero + tab);
    assert("\t0755\t"@ == tab + mode + tab);
    let a = encode_utf8(clean_path(path));
    let b = encode_utf8(clean_path(other_path));
    let t = info.modified.spec_unix_seconds();
    let u = other.modified.spec_unix_seconds();
    let end = decimal(uid as nat) + tab + (decimal(gid as nat) + tab + (mode + tab + prefixed_hex(
        t,
    )));
    let other_end = decimal(other_uid as nat) + tab + (decimal(other_gid as nat) + tab + (mode + tab
        + prefixed_hex(u)));
    lemma_folder_fields(
        "D /"@,
        percent_encoded(a),
        zero,
        decimal(uid as nat),
        decimal(gid as nat),
        mode,
        prefixed_hex(t),
        tab,
    );
    lemma_folder_fields(
        "D /"@,
        percent_encoded(b),
        zero,
        decimal(other_uid as nat),
        decimal(other_gid as nat),
        mode,
        prefixed_hex(u),
        tab,
    );
    assert(line == "D /"@ + (percent_encoded(a) + tab + (zero + tab + end)));
    assert(other_line == "D /"@ + (percent_encoded(b) + tab + (zero + tab + other_end)));
    if line == other_line {
        assert(line.skip(3) == percent_encoded(a) + tab + (zero + tab + end));
        assert(other_line.skip(3) == percent_encoded(b) + tab + (zero + tab + other_end));
        lemma_no_tabs(a, 0);
        lemma_no_tabs(b, 0);
        lemma_cut_at_tab(
            percent_encoded(a),
            zero + tab + end,
            percent_encoded(b),
            zero + tab + other_end,
        );
        assert((zero + tab + end).skip(2) == end);
        assert((zero + tab + other_end).skip(2) == other_end);
        law_encoded_bytes_can_be_decoded(a);
        law_encoded_bytes_can_be_decoded(b);
        lemma_encode_injective(clean_path(path), clean_path(other_path));
        lemma_time_fits(info);
        lemma_time_fits(other);
        lemma_same_ends(uid, gid, t, other_uid, other_gid, u, mode);
    }
}

/// The lines of an index are those of its tree, and an index without a root has none.
pub proof fn law_indexes_have_the_lines_of_their_tree(
    index: FsIndex,
    root_path: Option<Seq<char>>,
    uid: u32,
    gid: u32,
)
    ensures
        index.spec_root() is Some ==> index_lines(index, root_path, uid, gid) == tree_lines(
            index.root_tree(),
            root_path,
            uid,
            gid,
        ),
        index.spec_root() is None ==> index_lines(index, root_path, uid, gid).len() == 0,
{
}

} // verus!
