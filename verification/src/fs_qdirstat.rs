//! Cache files of QDirStat.
use vstd::prelude::*;
use vstd::utf8::encode_utf8;

use crate::fs_cursor::{
    child, children_count, children_start, frame_ok, meta_of, FrameView, FsCursor,
};
use crate::fs_export::{
    all_visits, entry_path, forest_after, forest_ok, later_visits, lemma_advance_visits,
    lemma_folder_of_tree, list_visits, path_option, path_visits, root_cursor, root_full_path, Visit,
};
use crate::fs_index::{entry_is_folder, is_meta, is_path, nth_path, FsEntryId, FsIndex, Item};
use crate::fs_tree::{lemma_list_holds, list_holds, path_holds, FsNode};
use crate::metadata::FsEntryMetadata;
use crate::text_format::{
    append_decimal, append_hex, decimal, percent_encoded, prefixed_hex, replace_char, replaced,
    trim_matches, trimmed, url_encode,
};

verus! {

/// The first lines of a cache file.
pub open spec fn header_line() -> Seq<char> {
    "[qdirstat 2.0 cache file]\n# Type\tpath\tsize\tuid\tgid\tperm\tmtime"@
}

/// The full path of a folder without any separator at its start or end.
pub open spec fn clean_path(path: Seq<char>) -> Seq<char> {
    trimmed(replaced(path, '\\', '/'), '/')
}

/// The line for a folder. Its size is 0 so that QDirStat computes it from the files.
pub open spec fn folder_line(info: FsEntryMetadata, path: Seq<char>, uid: u32, gid: u32) -> Seq<
    char,
> {
    "D /"@ + percent_encoded(encode_utf8(clean_path(path))) + "\t0\t"@ + decimal(uid as nat)
        + "\t"@ + decimal(gid as nat) + "\t0755\t"@ + prefixed_hex(
        info.modified.spec_unix_seconds(),
    )
}

/// The line for a file.
pub open spec fn file_line(info: FsEntryMetadata, name: Seq<char>, uid: u32, gid: u32) -> Seq<
    char,
> {
    "F\t"@ + percent_encoded(encode_utf8(trimmed(name, '/'))) + "\t"@ + decimal(info.size as nat)
        + "\t"@ + decimal(uid as nat) + "\t"@ + decimal(gid as nat) + "\t0644\t"@ + prefixed_hex(
        info.modified.spec_unix_seconds(),
    )
}

/// The lines for the files among the entries of a folder.
pub open spec fn file_lines(list: Seq<FsNode>, uid: u32, gid: u32) -> Seq<Seq<char>>
    decreases list.len(),
{
    if list.len() == 0 {
        seq![]
    } else {
        let first = list[0];
        let rest = file_lines(list.drop_first(), uid, gid);
        match first.info {
            Some(info) => if info.is_dir {
                rest
            } else {
                seq![file_line(info, first.name, uid, gid)] + rest
            },
            None => rest,
        }
    }
}

/// The lines for a folder with the given path and contents: the folder and its
/// files, then all folders inside it. A folder without a name has no lines itself.
pub open spec fn folder_lines(
    info: FsEntryMetadata,
    path: Seq<char>,
    children: Seq<FsNode>,
    uid: u32,
    gid: u32,
) -> Seq<Seq<char>>
    decreases children, 1nat,
{
    own_lines(info, path, children, uid, gid) + list_lines(children, path, uid, gid)
}

pub open spec fn own_lines(
    info: FsEntryMetadata,
    path: Seq<char>,
    children: Seq<FsNode>,
    uid: u32,
    gid: u32,
) -> Seq<Seq<char>> {
    if clean_path(path).len() == 0 {
        seq![]
    } else {
        seq![folder_line(info, path, uid, gid)] + file_lines(children, uid, gid)
    }
}

pub open spec fn list_lines(
    list: Seq<FsNode>,
    folder: Seq<char>,
    uid: u32,
    gid: u32,
) -> Seq<Seq<char>>
    decreases list, 0nat,
{
    if list.len() == 0 {
        seq![]
    } else {
        let last = list.last();
        list_lines(list.drop_last(), folder, uid, gid) + if last.is_folder() {
            folder_lines(
                last.info->0,
                (folder + last.name).push('/'),
                last.children,
                uid,
                gid,
            )
        } else {
            seq![]
        }
    }
}

/// The lines of an index with the given tree.
pub open spec fn tree_lines(
    tree: FsNode,
    root_path: Option<Seq<char>>,
    uid: u32,
    gid: u32,
) -> Seq<Seq<char>> {
    if tree.is_folder() {
        folder_lines(
            tree.info->0,
            root_full_path(tree, root_path, '/'),
            tree.children,
            uid,
            gid,
        )
    } else {
        seq![]
    }
}

/// The lines for the files of the folder at `at`, from the child number `k` on.
pub open spec fn child_lines(
    items: Map<int, Item>,
    at: int,
    k: nat,
    uid: u32,
    gid: u32,
) -> Seq<Seq<char>>
    decreases children_count(items, at) - k,
{
    if k >= children_count(items, at) {
        seq![]
    } else {
        let p = child(items, at, k);
        let rest = child_lines(items, at, k + 1, uid, gid);
        if items[p]->meta == 0 || items[meta_of(items, p)].info().is_dir {
            rest
        } else {
            seq![file_line(items[meta_of(items, p)].info(), items[p]->name, uid, gid)] + rest
        }
    }
}

/// The lines for a visited entry.
pub open spec fn entry_lines(items: Map<int, Item>, visit: Visit, uid: u32, gid: u32) -> Seq<
    Seq<char>,
> {
    if !entry_is_folder(items, visit.at) || clean_path(visit.path).len() == 0 {
        seq![]
    } else {
        seq![folder_line(items[meta_of(items, visit.at)].info(), visit.path, uid, gid)]
            + child_lines(items, visit.at, 0, uid, gid)
    }
}

pub open spec fn visit_lines(items: Map<int, Item>, visits: Seq<Visit>, uid: u32, gid: u32) -> Seq<
    Seq<char>,
>
    decreases visits.len(),
{
    if visits.len() == 0 {
        seq![]
    } else {
        entry_lines(items, visits[0], uid, gid) + visit_lines(
            items,
            visits.drop_first(),
            uid,
            gid,
        )
    }
}

proof fn lemma_visit_lines_add(
    items: Map<int, Item>,
    a: Seq<Visit>,
    b: Seq<Visit>,
    uid: u32,
    gid: u32,
)
    ensures
        visit_lines(items, a + b, uid, gid) == visit_lines(items, a, uid, gid) + visit_lines(
            items,
            b,
            uid,
            gid,
        ),
    decreases a.len(),
{
    if a.len() == 0 {
        assert(a + b == b);
        assert(Seq::<Seq<char>>::empty() + visit_lines(items, b, uid, gid) == visit_lines(
            items,
            b,
            uid,
            gid,
        ));
    } else {
        assert((a + b).drop_first() == a.drop_first() + b);
        lemma_visit_lines_add(items, a.drop_first(), b, uid, gid);
        assert(visit_lines(items, a + b, uid, gid) == visit_lines(items, a, uid, gid)
            + visit_lines(items, b, uid, gid));
    }
}

/// The files of a folder are those of its tree.
proof fn lemma_child_lines(
    items: Map<int, Item>,
    at: int,
    list: Seq<FsNode>,
    k: nat,
    uid: u32,
    gid: u32,
)
    requires
        list.len() == children_count(items, at),
        list_holds(items, children_start(items, at), list),
        k <= list.len(),
    ensures
        child_lines(items, at, k, uid, gid) == file_lines(list.skip(k as int), uid, gid),
    decreases list.len() - k,
{
    if k < list.len() {
        lemma_child_lines(items, at, list, k + 1, uid, gid);
        lemma_list_holds(items, children_start(items, at), list);
        let node = list[k as int];
        assert(path_holds(items, nth_path(items, children_start(items, at), k as int as nat), node));
        assert(list.skip(k as int)[0] == node);
        assert(list.skip(k as int).drop_first() == list.skip(k + 1int));
    } else {
        assert(list.skip(k as int) == Seq::<FsNode>::empty());
    }
}

/// Visiting a tree gives the lines of the tree.
proof fn lemma_path_lines(
    items: Map<int, Item>,
    at: int,
    node: FsNode,
    folder: Seq<char>,
    uid: u32,
    gid: u32,
)
    requires
        path_holds(items, at, node),
        forall|o: int| #[trigger] is_meta(items, o) ==> items[o].ok(),
    ensures
        visit_lines(items, path_visits(items, at, node, folder, '/', false), uid, gid)
            == if node.is_folder() {
            folder_lines(node.info->0, (folder + node.name).push('/'), node.children, uid, gid)
        } else {
            seq![]
        },
    decreases node, 1nat,
{
    let path = entry_path(folder, node.name, node.is_folder(), '/', false);
    lemma_folder_of_tree(items, at, node);
    lemma_inside_lines(items, at, node, path, uid, gid);
    if !node.is_folder() {
        let first = seq![Visit { at, path }];
        let inside = list_visits(items, children_start(items, at), node.children, path, '/', false);
        assert(first + inside == first);
        assert(first.drop_first() == Seq::<Visit>::empty());
        assert(visit_lines(items, first.drop_first(), uid, gid) == Seq::<Seq<char>>::empty());
        assert(entry_lines(items, first[0], uid, gid) == Seq::<Seq<char>>::empty());
        assert(visit_lines(items, first, uid, gid) == Seq::<Seq<char>>::empty());
    }
}

/// The lines of a folder and everything inside it.
proof fn lemma_inside_lines(
    items: Map<int, Item>,
    at: int,
    node: FsNode,
    path: Seq<char>,
    uid: u32,
    gid: u32,
)
    requires
        path_holds(items, at, node),
        forall|o: int| #[trigger] is_meta(items, o) ==> items[o].ok(),
    ensures
        node.is_folder() ==> visit_lines(
            items,
            seq![Visit { at, path }] + list_visits(
                items,
                children_start(items, at),
                node.children,
                path,
                '/',
                false,
            ),
            uid,
            gid,
        ) == folder_lines(node.info->0, path, node.children, uid, gid),
    decreases node, 0nat,
{
    if node.is_folder() {
        let first = seq![Visit { at, path }];
        let start = children_start(items, at);
        let inside = list_visits(items, start, node.children, path, '/', false);
        lemma_folder_of_tree(items, at, node);
        if node.children.len() > 0 {
            lemma_list_lines(items, start, node.children, path, uid, gid);
        }
        lemma_visit_lines_add(items, first, inside, uid, gid);
        assert(first.drop_first() == Seq::<Visit>::empty());
        assert(visit_lines(items, first.drop_first(), uid, gid) == Seq::<Seq<char>>::empty());
        assert(visit_lines(items, first, uid, gid) == entry_lines(items, first[0], uid, gid));
        lemma_child_lines(items, at, node.children, 0, uid, gid);
        assert(node.children.skip(0) == node.children);
        assert(entry_lines(items, first[0], uid, gid) == own_lines(
            node.info->0,
            path,
            node.children,
            uid,
            gid,
        ));
    }
}

proof fn lemma_list_lines(
    items: Map<int, Item>,
    start: int,
    list: Seq<FsNode>,
    folder: Seq<char>,
    uid: u32,
    gid: u32,
)
    requires
        list_holds(items, start, list),
        forall|o: int| #[trigger] is_meta(items, o) ==> items[o].ok(),
    ensures
        visit_lines(items, list_visits(items, start, list, folder, '/', false), uid, gid)
            == list_lines(list, folder, uid, gid),
    decreases list, 2nat,
{
    if list.len() > 0 {
        let at = nth_path(items, start, (list.len() - 1) as nat);
        lemma_list_lines(items, start, list.drop_last(), folder, uid, gid);
        lemma_path_lines(items, at, list.last(), folder, uid, gid);
        lemma_visit_lines_add(
            items,
            list_visits(items, start, list.drop_last(), folder, '/', false),
            path_visits(items, at, list.last(), folder, '/', false),
            uid,
            gid,
        );
    }
}

/// Converts an [`FsIndex`] into line-by-line formatted strings for a QDirStat v2.0
/// cache file.
pub struct FsIndexToQDirStat<'a> {
    index: &'a FsIndex,
    cursor: FsCursor,
    /// The child of the current folder whose line comes next, if the line of the
    /// folder has been produced.
    next_file_index: Option<usize>,
    default_uid: u32,
    default_gid: u32,
    is_first: bool,
    forest: Ghost<Seq<Seq<FsNode>>>,
}

impl<'a> FsIndexToQDirStat<'a> {
    pub closed spec fn wf(self) -> bool {
        let items = self.index.items();
        &&& self.index.wf()
        &&& self.cursor.wf(items)
        &&& forest_ok(items, self.cursor@.frames, self.forest@)
        &&& self.cursor@.separator == '/'
        &&& !self.cursor@.force_file_ext
        &&& self.next_file_index matches Some(k) ==> self.cursor@.in_folder() && k
            <= children_count(items, self.cursor@.frames.last().id)
    }

    closed spec fn visits(self) -> Seq<Visit> {
        all_visits(self.index.items(), self.cursor@, self.forest@)
    }

    /// The lines of the files of the current folder that are still to come.
    closed spec fn rest_of_files(self, uid: u32, gid: u32) -> Seq<Seq<char>> {
        child_lines(
            self.index.items(),
            self.cursor@.frames.last().id,
            self.next_file_index->0 as nat,
            uid,
            gid,
        )
    }

    /// The lines of the entry that is visited next.
    closed spec fn visit_entry_lines(self, uid: u32, gid: u32) -> Seq<Seq<char>> {
        entry_lines(self.index.items(), self.visits()[0], uid, gid)
    }

    /// The lines that are still to come after the header.
    closed spec fn body(self, uid: u32, gid: u32) -> Seq<Seq<char>> {
        let items = self.index.items();
        match self.next_file_index {
            Some(_) => self.rest_of_files(uid, gid) + visit_lines(
                items,
                self.visits().drop_first(),
                uid,
                gid,
            ),
            None => visit_lines(items, self.visits(), uid, gid),
        }
    }

    /// The lines that are still to come if everything belongs to the given owner.
    pub closed spec fn remaining_as(self, uid: u32, gid: u32) -> Seq<Seq<char>> {
        if self.is_first {
            seq![header_line()] + self.body(uid, gid)
        } else {
            self.body(uid, gid)
        }
    }

    /// The lines that are still to come.
    pub closed spec fn remaining(self) -> Seq<Seq<char>> {
        self.remaining_as(self.default_uid, self.default_gid)
    }

    /// Whether nothing has been produced yet, and what the index is.
    pub closed spec fn starts(self, index: &FsIndex, root_path: Option<Seq<char>>) -> bool {
        &&& self.is_first
        &&& self.next_file_index is None
        &&& self.index == index
        &&& self.wf()
        &&& forall|uid: u32, gid: u32|
            visit_lines(index.items(), self.visits(), uid, gid) == #[trigger] index_lines(
                *index,
                root_path,
                uid,
                gid,
            )
    }

    pub fn new(index: &'a FsIndex, root_path: Option<&str>) -> (this: Self)
        requires
            index.wf(),
            index.spec_root() is Some ==> index.rooted(),
        ensures
            this.wf(),
            this.starts(index, path_option(root_path)),
            this.remaining() == seq![header_line()] + index_lines(
                *index,
                path_option(root_path),
                1000,
                1000,
            ),
            forall|uid: u32, gid: u32| #[trigger]
                this.remaining_as(uid, gid) == seq![header_line()] + index_lines(
                    *index,
                    path_option(root_path),
                    uid,
                    gid,
                ),
    {
        let (cursor, forest) = root_cursor(index, root_path, '/');
        let this = FsIndexToQDirStat {
            index,
            cursor,
            next_file_index: None,
            default_uid: 1000,
            default_gid: 1000,
            is_first: true,
            forest,
        };
        proof {
            let items = index.items();
            assert forall|uid: u32, gid: u32|
                visit_lines(items, this.visits(), uid, gid) == #[trigger] index_lines(
                    *index,
                    path_option(root_path),
                    uid,
                    gid,
                ) by {
                let tree = index.root_tree();
                if index.spec_root() is Some && tree.is_folder() {
                    let at = index.spec_root()->0.at();
                    let path = cursor@.path;
                    assert(index.holds(at, tree));
                    index.lemma_places();
                    lemma_inside_lines(items, at, tree, path, uid, gid);
                    let frames = cursor@.frames;
                    let start = children_start(items, at);
                    let inside = list_visits(items, start, tree.children, path, '/', false);
                    assert(forest@.last() == tree.children);
                    assert(frames.drop_last() == Seq::<FrameView>::empty());
                    assert(later_visits(
                        items,
                        frames.drop_last(),
                        forest@.drop_last(),
                        '/',
                        false,
                    ) == Seq::<Visit>::empty());
                    assert(inside + Seq::<Visit>::empty() == inside);
                    assert(this.visits() == seq![Visit { at, path }] + inside);
                }
            }
        }
        this
    }

    /// Sets the default User ID and Group ID used in the QDirStat output (default
    /// is 1000:1000).
    pub fn with_owner(self, uid: u32, gid: u32) -> (this: Self)
        requires
            self.wf(),
        ensures
            this.wf(),
            this.remaining() == self.remaining_as(uid, gid),
            forall|u: u32, g: u32| #[trigger]
                this.remaining_as(u, g) == self.remaining_as(u, g),
            forall|index: &FsIndex, root_path: Option<Seq<char>>|
                #[trigger] self.starts(index, root_path) ==> {
                    &&& this.starts(index, root_path)
                    &&& this.remaining() == seq![header_line()] + index_lines(
                        *index,
                        root_path,
                        uid,
                        gid,
                    )
                },
    {
        let mut this = self;
        this.default_uid = uid;
        this.default_gid = gid;
        this
    }

    /// The next line, `None` if there are no more.
    pub fn next(&mut self) -> (line: Option<String>)
        requires
            old(self).wf(),
        ensures
            final(self).wf(),
            line is Some <==> old(self).remaining().len() > 0,
            line matches Some(line) ==> line@ == old(self).remaining()[0]
                && final(self).remaining() == old(self).remaining().drop_first(),
            line is None ==> final(self).remaining() == old(self).remaining(),
            forall|u: u32, g: u32| #[trigger]
                final(self).remaining_as(u, g) == if line is Some {
                    old(self).remaining_as(u, g).drop_first()
                } else {
                    old(self).remaining_as(u, g)
                },
    {
        if self.is_first {
            self.is_first = false;
            proof {
                assert forall|u: u32, g: u32| #[trigger]
                    self.remaining_as(u, g) == old(self).remaining_as(u, g).drop_first() by {
                    assert((seq![header_line()] + self.body(u, g)).drop_first() == self.body(
                        u,
                        g,
                    ));
                }
            }
            return Some(
                "[qdirstat 2.0 cache file]\n# Type\tpath\tsize\tuid\tgid\tperm\tmtime".to_owned(),
            );
        }
        let ghost items = self.index.items();
        let uid: u32 = self.default_uid;
        let gid: u32 = self.default_gid;
        let ghost goal = self.remaining();
        loop
            invariant
                self.wf(),
                !self.is_first,
                items == self.index.items(),
                self.default_uid == uid,
                self.default_gid == gid,
                self.remaining() == goal,
                goal == old(self).remaining(),
                forall|u: u32, g: u32| #[trigger]
                    self.remaining_as(u, g) == old(self).remaining_as(u, g),
            decreases self.visits().len(),
        {
            let ghost before = *self;
            if self.next_file_index.is_some() {
                let ghost later = visit_lines(items, self.visits().drop_first(), uid, gid);
                if let Some(line) = self.next_file_line() {
                    proof {
                        let more = child_lines(
                            items,
                            self.cursor@.frames.last().id,
                            self.next_file_index->0 as nat,
                            uid,
                            gid,
                        );
                        assert(goal == seq![line@] + more + later);
                        assert(goal.drop_first() == more + later);
                        assert(goal[0] == line@);
                        assert forall|u: u32, g: u32| #[trigger]
                            self.remaining_as(u, g) == old(self).remaining_as(
                            u,
                            g,
                        ).drop_first() by {
                            let files = before.rest_of_files(u, g);
                            let rest = visit_lines(items, self.visits().drop_first(), u, g);
                            assert(before.remaining_as(u, g) == files + rest);
                            assert((files + rest).drop_first() == files.drop_first() + rest);
                        }
                    }
                    return Some(line);
                }
                assert(Seq::<Seq<char>>::empty() + later == later);
                let ghost middle = *self;
                self.step();
                proof {
                    assert forall|u: u32, g: u32| #[trigger]
                        self.remaining_as(u, g) == old(self).remaining_as(u, g) by {
                        let rest = visit_lines(items, middle.visits().drop_first(), u, g);
                        assert(before.remaining_as(u, g) == before.rest_of_files(u, g) + rest);
                        assert(Seq::<Seq<char>>::empty() + rest == rest);
                    }
                }
            }
            let ghost before = *self;
            let ghost visits = self.visits();
            let ghost rest = visit_lines(items, visits.drop_first(), uid, gid);
            match self.current_folder_line() {
                Some(line) => {
                    proof {
                        let files = child_lines(items, self.cursor@.frames.last().id, 0, uid, gid);
                        assert(goal == seq![line@] + files + rest);
                        assert(goal.drop_first() == files + rest);
                        assert(goal[0] == line@);
                    }
                    self.next_file_index = Some(0);
                    proof {
                        assert forall|u: u32, g: u32| #[trigger]
                            self.remaining_as(u, g) == old(self).remaining_as(
                            u,
                            g,
                        ).drop_first() by {
                            let lines = before.visit_entry_lines(u, g);
                            let rest = visit_lines(items, visits.drop_first(), u, g);
                            assert(before.remaining_as(u, g) == lines + rest);
                            assert((lines + rest).drop_first() == lines.drop_first() + rest);
                        }
                    }
                    return Some(line);
                },
                None => {
                    if self.cursor.current_id().is_none() {
                        return None;
                    }
                    assert(Seq::<Seq<char>>::empty() + rest == rest);
                    self.step();
                    proof {
                        assert forall|u: u32, g: u32| #[trigger]
                            self.remaining_as(u, g) == old(self).remaining_as(u, g) by {
                            let rest = visit_lines(items, visits.drop_first(), u, g);
                            assert(before.remaining_as(u, g) == before.visit_entry_lines(u, g)
                                + rest);
                            assert(Seq::<Seq<char>>::empty() + rest == rest);
                        }
                    }
                },
            }
        }
    }

    /// The line for the next file of the current folder.
    fn next_file_line(&mut self) -> (line: Option<String>)
        requires
            old(self).wf(),
            old(self).next_file_index is Some,
        ensures
            final(self).wf(),
            final(self).next_file_index is Some,
            final(self).cursor@ == old(self).cursor@,
            final(self).forest == old(self).forest,
            final(self).index == old(self).index,
            final(self).default_uid == old(self).default_uid,
            final(self).default_gid == old(self).default_gid,
            final(self).is_first == old(self).is_first,
            ({
                let items = old(self).index.items();
                let at = old(self).cursor@.frames.last().id;
                let uid = old(self).default_uid;
                let gid = old(self).default_gid;
                let before = child_lines(items, at, old(self).next_file_index->0 as nat, uid, gid);
                let after = child_lines(items, at, final(self).next_file_index->0 as nat, uid, gid);
                match line {
                    Some(line) => before == seq![line@] + after,
                    None => before == Seq::<Seq<char>>::empty(),
                }
            }),
            forall|u: u32, g: u32|
                #![trigger old(self).rest_of_files(u, g)]
                match line {
                    Some(_) => old(self).rest_of_files(u, g).len() > 0 && old(self).rest_of_files(
                        u,
                        g,
                    ).drop_first() == final(self).rest_of_files(u, g),
                    None => old(self).rest_of_files(u, g) == Seq::<Seq<char>>::empty(),
                },
    {
        let ghost items = self.index.items();
        let ghost at = self.cursor@.frames.last().id;
        let uid: u32 = self.default_uid;
        let gid: u32 = self.default_gid;
        let ghost goal = child_lines(items, at, self.next_file_index->0 as nat, uid, gid);
        loop
            invariant
                self.wf(),
                self.next_file_index is Some,
                self.cursor@ == old(self).cursor@,
                self.forest == old(self).forest,
                self.index == old(self).index,
                self.default_uid == old(self).default_uid,
                self.default_gid == old(self).default_gid,
                self.is_first == old(self).is_first,
                items == self.index.items(),
                at == self.cursor@.frames.last().id,
                self.default_uid == uid,
                self.default_gid == gid,
                goal == child_lines(items, at, self.next_file_index->0 as nat, uid, gid),
                goal == child_lines(items, at, old(self).next_file_index->0 as nat, uid, gid),
                forall|u: u32, g: u32|
                    child_lines(items, at, self.next_file_index->0 as nat, u, g)
                        == #[trigger] child_lines(
                        items,
                        at,
                        old(self).next_file_index->0 as nat,
                        u,
                        g,
                    ),
            decreases children_count(items, at) - self.next_file_index->0,
        {
            proof {
                self.index.lemma_places();
                self.cursor.lemma_current_ok(items);
                assert(frame_ok(items, self.cursor@.frames.last()));
            }
            let k: usize = match self.next_file_index {
                Some(k) => k,
                None => 0,
            };
            let next: Option<FsEntryId> = match self.cursor.current_folder_children(self.index) {
                Some(children) => if k < children.len() {
                    Some(children[k])
                } else {
                    None
                },
                None => None,
            };
            let id = match next {
                Some(id) => id,
                None => {
                    return None;
                },
            };
            self.next_file_index = Some(k + 1);
            proof {
                assert(id.at() == child(items, at, k as nat));
                assert(is_path(items, nth_path(items, children_start(items, at), k as nat)));
            }
            if let Some(entry) = id.load_metadata(self.index) {
                proof {
                    entry.lemma_loaded(items, meta_of(items, id.at()));
                    crate::metadata_bytes::lemma_decoded_time(
                        items[meta_of(items, id.at())]->bytes,
                    );
                }
                let meta = entry.metadata();
                if !meta.is_dir {
                    let name = trim_matches(id.file_name(self.index), '/');
                    proof {
                        assert forall|u: u32, g: u32|
                            #![trigger old(self).rest_of_files(u, g)]
                            old(self).rest_of_files(u, g).len() > 0 && old(self).rest_of_files(
                                u,
                                g,
                            ).drop_first() == self.rest_of_files(u, g) by {
                            let after = child_lines(items, at, (k + 1) as nat, u, g);
                            let info = items[meta_of(items, id.at())].info();
                            let first = file_line(info, items[id.at()]->name, u, g);
                            assert(child_lines(items, at, k as nat, u, g) == seq![first] + after);
                            assert((seq![first] + after).drop_first() == after);
                        }
                    }
                    return Some(make_file_line(meta, name.as_str(), uid, gid));
                }
            }
        }
    }

    /// The line for the current entry if that is a folder with a name.
    fn current_folder_line(&self) -> (line: Option<String>)
        requires
            self.wf(),
            self.next_file_index is None,
        ensures
            ({
                let items = self.index.items();
                let uid = self.default_uid;
                let gid = self.default_gid;
                match line {
                    Some(line) => {
                        &&& self.cursor@.in_folder()
                        &&& self.visits().len() > 0
                        &&& entry_lines(items, self.visits()[0], uid, gid) == seq![line@]
                            + child_lines(items, self.cursor@.frames.last().id, 0, uid, gid)
                    },
                    None => self.visits().len() > 0 ==> entry_lines(
                        items,
                        self.visits()[0],
                        uid,
                        gid,
                    ) == Seq::<Seq<char>>::empty(),
                }
            }),
            self.visits().len() > 0 ==> forall|u: u32, g: u32|
                #![trigger self.visit_entry_lines(u, g)]
                match line {
                    Some(_) => self.visit_entry_lines(u, g).len() > 0 && self.visit_entry_lines(
                        u,
                        g,
                    ).drop_first() == child_lines(
                        self.index.items(),
                        self.cursor@.frames.last().id,
                        0,
                        u,
                        g,
                    ),
                    None => self.visit_entry_lines(u, g) == Seq::<Seq<char>>::empty(),
                },
    {
        let ghost items = self.index.items();
        let id = match self.cursor.current_id() {
            Some(id) => id,
            None => {
                return None;
            },
        };
        proof {
            self.index.lemma_places();
            self.cursor.lemma_current_ok(items);
            assert(self.visits()[0] == Visit { at: id.at(), path: self.cursor@.path });
        }
        let entry = match id.load_metadata(self.index) {
            Some(entry) => entry,
            None => {
                return None;
            },
        };
        proof {
            entry.lemma_loaded(items, meta_of(items, id.at()));
            crate::metadata_bytes::lemma_decoded_time(items[meta_of(items, id.at())]->bytes);
        }
        let meta = entry.metadata();
        if !meta.is_dir {
            return None;
        }
        let raw = replace_char(self.cursor.current_path(), '\\', '/');
        let clean = trim_matches(raw.as_str(), '/');
        if clean.as_str().is_empty() {
            return None;
        }
        proof {
            let info = items[meta_of(items, id.at())].info();
            assert forall|u: u32, g: u32|
                #![trigger self.visit_entry_lines(u, g)]
                self.visit_entry_lines(u, g).len() > 0 && self.visit_entry_lines(
                    u,
                    g,
                ).drop_first() == child_lines(items, id.at(), 0, u, g) by {
                let first = folder_line(info, self.cursor@.path, u, g);
                let files = child_lines(items, id.at(), 0, u, g);
                assert((seq![first] + files).drop_first() == files);
            }
        }
        Some(make_folder_line(meta, clean.as_str(), self.default_uid, self.default_gid))
    }

    /// Moves to the next entry.
    fn step(&mut self)
        requires
            old(self).wf(),
            old(self).cursor@.current is Some,
        ensures
            final(self).wf(),
            final(self).visits() == old(self).visits().drop_first(),
            final(self).next_file_index is None,
            final(self).index == old(self).index,
            final(self).default_uid == old(self).default_uid,
            final(self).default_gid == old(self).default_gid,
            final(self).is_first == old(self).is_first,
    {
        let ghost items = self.index.items();
        let ghost before = self.cursor@;
        let ghost rest = later_visits(items, before.frames, self.forest@, '/', false);
        proof {
            self.index.lemma_places();
            lemma_advance_visits(items, before, self.forest@);
            assert(self.visits().drop_first() == rest);
        }
        let ghost next_forest = forest_after(items, before.frames, self.forest@);
        self.cursor.advance(self.index);
        self.forest = Ghost(next_forest);
        self.next_file_index = None;
    }

    /// All lines that are still to come.
    pub fn collect(self) -> (lines: Vec<String>)
        requires
            self.wf(),
        ensures
            crate::text::views(lines@) == self.remaining(),
    {
        let mut this = self;
        let mut lines: Vec<String> = Vec::new();
        let ghost all = self.remaining();
        assert(crate::text::views(lines@) + this.remaining() == all);
        loop
            invariant
                this.wf(),
                crate::text::views(lines@) + this.remaining() == all,
                all == self.remaining(),
            decreases this.remaining().len(),
        {
            let ghost before = crate::text::views(lines@);
            let ghost rest = this.remaining();
            match this.next() {
                Some(line) => {
                    lines.push(line);
                    proof {
                        assert(crate::text::views(lines@) == before.push(line@));
                        assert(before + rest == before.push(line@) + rest.drop_first());
                    }
                },
                None => {
                    assert(before + rest == before);
                    return lines;
                },
            }
        }
    }
}

/// The lines of an index after the header.
pub open spec fn index_lines(
    index: FsIndex,
    root_path: Option<Seq<char>>,
    uid: u32,
    gid: u32,
) -> Seq<Seq<char>> {
    if index.spec_root() is Some {
        tree_lines(index.root_tree(), root_path, uid, gid)
    } else {
        seq![]
    }
}

fn make_file_line(info: &FsEntryMetadata, name: &str, uid: u32, gid: u32) -> (line: String)
    requires
        info.modified.valid(),
    ensures
        line@ == "F\t"@ + percent_encoded(encode_utf8(name@)) + "\t"@ + decimal(info.size as nat)
            + "\t"@ + decimal(uid as nat) + "\t"@ + decimal(gid as nat) + "\t0644\t"@
            + prefixed_hex(info.modified.spec_unix_seconds()),
{
    let mut line = "F\t".to_owned();
    line.append(url_encode(name).as_str());
    line.append("\t");
    append_decimal(&mut line, info.size);
    line.append("\t");
    append_decimal(&mut line, uid as u64);
    line.append("\t");
    append_decimal(&mut line, gid as u64);
    line.append("\t0644\t");
    append_hex(&mut line, info.modified.unix_timestamp());
    line
}

fn make_folder_line(info: &FsEntryMetadata, clean: &str, uid: u32, gid: u32) -> (line: String)
    requires
        info.modified.valid(),
    ensures
        line@ == "D /"@ + percent_encoded(encode_utf8(clean@)) + "\t0\t"@ + decimal(uid as nat)
            + "\t"@ + decimal(gid as nat) + "\t0755\t"@ + prefixed_hex(
            info.modified.spec_unix_seconds(),
        ),
{
    let mut line = "D /".to_owned();
    line.append(url_encode(clean).as_str());
    line.append("\t0\t");
    append_decimal(&mut line, uid as u64);
    line.append("\t");
    append_decimal(&mut line, gid as u64);
    line.append("\t0755\t");
    append_hex(&mut line, info.modified.unix_timestamp());
    line
}

impl FsIndex {
    /// Reconstruct QDirStat cache lines from the filesystem index.
    pub fn qdirstat_iter<'a>(&'a self, root_path: Option<&str>) -> (iter: FsIndexToQDirStat<'a>)
        requires
            self.wf(),
            self.spec_root() is Some ==> self.rooted(),
        ensures
            iter.wf(),
            iter.starts(self, path_option(root_path)),
            iter.remaining() == seq![header_line()] + index_lines(
                *self,
                path_option(root_path),
                1000,
                1000,
            ),
            forall|uid: u32, gid: u32| #[trigger]
                iter.remaining_as(uid, gid) == seq![header_line()] + index_lines(
                    *self,
                    path_option(root_path),
                    uid,
                    gid,
                ),
    {
        FsIndexToQDirStat::new(self, root_path)
    }
}

} // verus!
