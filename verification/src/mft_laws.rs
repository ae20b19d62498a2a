//! What holds of walks over the entries of a master file table.
use vstd::prelude::*;

use crate::mft::{is_entry_of, record_sizes, total, EntryView, MftRecord, MftValue, EPOCH_DIFF};
use crate::mft_tree::{
    all_deduped, deduped, folders_of, grouped, law_entries_are_visited_once, lemma_grouped,
    list_of, list_ok, merge_fits, merged, root_folder_path, steps_left, visit_record, walk_start,
    MftFrameView, MftVisitView, MftWalkView, RecoveredInfo, ROOT_RECORD,
};
use crate::text::{ends_with_separator, DEFAULT_PATH_SEPARATOR};
use crate::timestamp::Timestamp;

verus! {

/// Whether each number is that of the folder of the next one, by what the entries say
/// about their folders. The folder of the first one is the root, which is not in the
/// chain itself.
pub open spec fn is_chain(entries: Map<u64, EntryView>, chain: Seq<u64>) -> bool {
    &&& forall|i: int|
        0 <= i < chain.len() ==> entries.contains_key(#[trigger] chain[i]) && chain[i]
            != ROOT_RECORD
    &&& forall|i: int|
        0 <= i < chain.len() ==> entries[chain[i]].parent == #[trigger] chain_parent(chain, i)
}

/// The number before another one in a chain, or that of the root.
pub open spec fn chain_parent(chain: Seq<u64>, i: int) -> u64 {
    if i == 0 {
        ROOT_RECORD
    } else {
        chain[i - 1]
    }
}

/// The names of the entries of a chain with separators between them.
pub open spec fn chain_path(entries: Map<u64, EntryView>, chain: Seq<u64>) -> Seq<char>
    decreases chain.len(),
{
    if chain.len() == 0 {
        seq![]
    } else if chain.len() == 1 {
        entries[chain[0]].name
    } else {
        chain_path(entries, chain.drop_last()) + seq![DEFAULT_PATH_SEPARATOR]
            + entries[chain.last()].name
    }
}

/// A walk after some entries were visited.
pub open spec fn walk_after(walk: MftWalkView, visits: nat) -> MftWalkView
    decreases visits,
{
    if visits == 0 {
        walk
    } else {
        walk_after(walk, (visits - 1) as nat).next().1
    }
}

/// The entry that is visited after some others.
pub open spec fn visit_after(walk: MftWalkView, visits: nat) -> Option<MftVisitView> {
    walk_after(walk, visits).next().0
}

/// Whether a table lists each of its entries once.
pub open spec fn is_table(order: Seq<u64>, entries: Map<u64, EntryView>) -> bool {
    &&& order.no_duplicates()
    &&& forall|n: u64| #[trigger] entries.contains_key(n) <==> order.contains(n)
}

/// Whether merging left entries with the same names in the same folders.
spec fn same_links(entries: Map<u64, EntryView>, after: Map<u64, EntryView>) -> bool {
    forall|n: u64| #[trigger]
        after.contains_key(n) ==> {
            &&& entries.contains_key(n)
            &&& after[n].name == entries[n].name
            &&& after[n].parent == entries[n].parent
            &&& after[n].metadata.is_dir == entries[n].metadata.is_dir
        }
}

proof fn lemma_deduped_links(entries: Map<u64, EntryView>, list: Seq<u64>)
    requires
        list_ok(entries, list),
    ensures
        deduped(entries, list) matches Some((after, _)) ==> same_links(entries, after)
            && forall|n: u64| !list.contains(n) && entries.contains_key(n) ==> (
        #[trigger] after.contains_key(n)) && after[n] == entries[n],
    decreases list.len(),
{
    if list.len() > 0 {
        let rest = list.drop_last();
        assert(list_ok(entries, rest)) by {
            assert forall|i: int| 0 <= i < rest.len() implies entries.contains_key(
                #[trigger] rest[i],
            ) by {
                assert(rest[i] == list[i]);
            }
        }
        lemma_deduped_links(entries, rest);
        crate::mft_tree::lemma_deduped(entries, rest);
        assert(list[list.len() - 1] == list.last());
        assert(!rest.contains(list.last())) by {
            if rest.contains(list.last()) {
                let k = choose|k: int| 0 <= k < rest.len() && rest[k] == list.last();
                assert(list[k] == list[list.len() - 1]);
            }
        }
        assert(entries.contains_key(list.last()));
        if let Some((after, names)) = deduped(entries, list) {
            assert forall|n: u64| !list.contains(n) && entries.contains_key(n) implies (
            #[trigger] after.contains_key(n)) && after[n] == entries[n] by {
                assert(!rest.contains(n)) by {
                    if rest.contains(n) {
                        let k = choose|k: int| 0 <= k < rest.len() && rest[k] == n;
                        assert(list[k] == n);
                    }
                }
            }
        }
    }
}

/// The entries in each list belong to the folder of the list.
spec fn lists_ok(entries: Map<u64, EntryView>, lists: Map<u64, Seq<u64>>) -> bool {
    forall|f: u64, n: u64|
        #![trigger lists[f].contains(n)]
        lists.contains_key(f) && lists[f].contains(n) ==> entries.contains_key(n)
            && entries[n].parent == f
}

proof fn lemma_lists_ok(order: Seq<u64>, entries: Map<u64, EntryView>)
    requires
        is_table(order, entries),
    ensures
        lists_ok(entries, grouped(order, entries)),
        forall|f: u64| #[trigger]
            grouped(order, entries).contains_key(f) ==> list_ok(entries, grouped(order, entries)[f]),
{
    lemma_grouped(order, entries);
    let lists = grouped(order, entries);
    assert forall|f: u64, n: u64|
        #![trigger lists[f].contains(n)]
        lists.contains_key(f) && lists[f].contains(n) implies entries.contains_key(n)
        && entries[n].parent == f by {
        let i = choose|i: int| 0 <= i < lists[f].len() && lists[f][i] == n;
        assert(order.contains(lists[f][i]));
    }
    assert forall|f: u64| #[trigger] lists.contains_key(f) implies list_ok(entries, lists[f]) by {
        assert forall|i: int| 0 <= i < lists[f].len() implies entries.contains_key(
            #[trigger] lists[f][i],
        ) by {
            assert(order.contains(lists[f][i]));
        }
    }
}

/// Every entry is in the list of its folder.
proof fn lemma_in_group(order: Seq<u64>, entries: Map<u64, EntryView>, n: u64)
    requires
        order.contains(n),
    ensures
        grouped(order, entries).contains_key(entries[n].parent),
        grouped(order, entries)[entries[n].parent].contains(n),
    decreases order.len(),
{
    let rest = order.drop_last();
    let parent = entries[n].parent;
    let before = grouped(rest, entries);
    let after = grouped(order, entries);
    let added = entries[order.last()].parent;
    if n == order.last() {
        let list = list_of(before, added).push(n);
        assert(list[list.len() - 1] == n);
    } else {
        let k = choose|k: int| 0 <= k < order.len() && order[k] == n;
        assert(rest[k] == n);
        lemma_in_group(rest, entries, n);
        if parent == added {
            let i = choose|i: int| 0 <= i < before[parent].len() && before[parent][i] == n;
            assert(after[parent][i] == n);
        }
    }
}

/// The merged entries of some of the folders, for one of these and for one of the others.
proof fn lemma_all_deduped(
    order: Seq<u64>,
    entries: Map<u64, EntryView>,
    folders: Seq<u64>,
)
    requires
        is_table(order, entries),
        folders.no_duplicates(),
        forall|i: int|
            0 <= i < folders.len() ==> grouped(order, entries).contains_key(#[trigger] folders[i]),
    ensures
        all_deduped(entries, grouped(order, entries), folders) matches Some(after) ==> {
            &&& same_links(entries, after)
            &&& forall|n: u64|
                entries.contains_key(n) && !folders.contains(entries[n].parent) ==> (
                #[trigger] after.contains_key(n)) && after[n] == entries[n]
            &&& forall|n: u64| #[trigger]
                entries.contains_key(n) && folders.contains(entries[n].parent) ==> {
                    let own = deduped(entries, grouped(order, entries)[entries[n].parent]);
                    &&& own is Some
                    &&& after.contains_key(n) == (own->0).0.contains_key(n)
                    &&& after.contains_key(n) ==> after[n] == (own->0).0[n]
                }
        },
    decreases folders.len(),
{
    let lists = grouped(order, entries);
    if folders.len() > 0 {
        let rest = folders.drop_last();
        let folder = folders.last();
        assert(folders[folders.len() - 1] == folder);
        assert forall|i: int| 0 <= i < rest.len() implies lists.contains_key(#[trigger] rest[i]) by {
            assert(rest[i] == folders[i]);
        }
        assert(!rest.contains(folder)) by {
            if rest.contains(folder) {
                let k = choose|k: int| 0 <= k < rest.len() && rest[k] == folder;
                assert(folders[k] == folders[folders.len() - 1]);
            }
        }
        assert forall|f: u64| folders.contains(f) <==> rest.contains(f) || f == folder by {
            if folders.contains(f) && f != folder {
                let k = choose|k: int| 0 <= k < folders.len() && folders[k] == f;
                assert(rest[k] == f);
            }
            if rest.contains(f) {
                let k = choose|k: int| 0 <= k < rest.len() && rest[k] == f;
                assert(folders[k] == f);
            }
        }
        lemma_all_deduped(order, entries, rest);
        lemma_lists_ok(order, entries);
        let list = lists[folder];
        assert(lists.contains_key(folder));
        if let Some(before) = all_deduped(entries, lists, rest) {
            assert forall|n: u64| #[trigger] list.contains(n) implies before.contains_key(n)
                && before[n] == entries[n] by {
                assert(lists[folder].contains(n));
            }
            lemma_same_merging(entries, before, list);
            assert(list_ok(before, list)) by {
                assert forall|i: int| 0 <= i < list.len() implies before.contains_key(
                    #[trigger] list[i],
                ) by {
                    assert(list.contains(list[i]));
                }
            }
            lemma_deduped_links(before, list);
            crate::mft_tree::lemma_deduped(before, list);
            if let Some((after, names)) = deduped(before, list) {
                assert forall|n: u64| #[trigger]
                    entries.contains_key(n) && folders.contains(entries[n].parent) implies {
                    let own = deduped(entries, lists[entries[n].parent]);
                    &&& own is Some
                    &&& after.contains_key(n) == (own->0).0.contains_key(n)
                    &&& after.contains_key(n) ==> after[n] == (own->0).0[n]
                } by {
                    lemma_in_group(order, entries, n);
                    if entries[n].parent != folder {
                        assert(rest.contains(entries[n].parent));
                        assert(!list.contains(n));
                        assert(after.contains_key(n) == before.contains_key(n));
                    } else {
                        assert(list.contains(n));
                    }
                }
                assert forall|n: u64|
                    entries.contains_key(n) && !folders.contains(entries[n].parent) implies (
                #[trigger] after.contains_key(n)) && after[n] == entries[n] by {
                    assert(before.contains_key(n));
                    assert(!list.contains(n));
                }
                assert forall|n: u64| #[trigger] after.contains_key(n) implies before.contains_key(
                    n,
                ) by {}
            }
        }
    }
}

/// Merging a list only depends on the entries in it.
proof fn lemma_same_merging(
    a: Map<u64, EntryView>,
    b: Map<u64, EntryView>,
    list: Seq<u64>,
)
    requires
        list.no_duplicates(),
        forall|n: u64| #[trigger]
            list.contains(n) ==> a.contains_key(n) && b.contains_key(n) && a[n] == b[n],
    ensures
        deduped(a, list) is Some <==> deduped(b, list) is Some,
        deduped(a, list) is Some ==> {
            let (x, names) = deduped(a, list)->0;
            let (y, other_names) = deduped(b, list)->0;
            &&& names == other_names
            &&& forall|n: u64| #[trigger]
                list.contains(n) ==> {
                    &&& x.contains_key(n) == y.contains_key(n)
                    &&& x.contains_key(n) ==> x[n] == y[n]
                }
        },
    decreases list.len(),
{
    if list.len() > 0 {
        let rest = list.drop_last();
        let number = list.last();
        assert(list[list.len() - 1] == number);
        assert(list.contains(number));
        assert forall|n: u64| #[trigger] rest.contains(n) implies list.contains(n) && n
            != number by {
            let k = choose|k: int| 0 <= k < rest.len() && rest[k] == n;
            assert(list[k] == n);
        }
        assert forall|n: u64| #[trigger] list.contains(n) implies n == number || rest.contains(
            n,
        ) by {
            let k = choose|k: int| 0 <= k < list.len() && list[k] == n;
            if k < rest.len() {
                assert(rest[k] == n);
            }
        }
        lemma_same_merging(a, b, rest);
        assert(list_ok(a, rest)) by {
            assert forall|i: int| 0 <= i < rest.len() implies a.contains_key(#[trigger] rest[i]) by {
                assert(rest.contains(rest[i]));
            }
        }
        assert(list_ok(b, rest)) by {
            assert forall|i: int| 0 <= i < rest.len() implies b.contains_key(#[trigger] rest[i]) by {
                assert(rest.contains(rest[i]));
            }
        }
        crate::mft_tree::lemma_deduped(a, rest);
        crate::mft_tree::lemma_deduped(b, rest);
        if deduped(a, rest) is Some {
            let (x, names) = deduped(a, rest)->0;
            let (y, other_names) = deduped(b, rest)->0;
            assert(!rest.contains(number));
            assert(x[number] == y[number]);
            if names.contains_key(x[number].name) {
                let old = names[x[number].name];
                assert(rest.contains(old));
            }
        }
    }
}

/// Where a walk is: for each open folder the chain that leads to it.
spec fn frame_ok(
    entries: Map<u64, EntryView>,
    walk: MftWalkView,
    frame: MftFrameView,
    chain: Seq<u64>,
) -> bool {
    &&& is_chain(entries, chain)
    &&& frame.path == if chain.len() == 0 {
        seq![]
    } else {
        chain_path(entries, chain) + seq![DEFAULT_PATH_SEPARATOR]
    }
    &&& forall|i: int| 0 <= i < chain.len() ==> !walk.entries.contains_key(#[trigger] chain[i])
    &&& forall|n: u64| #[trigger]
        frame.list.contains(n) ==> entries.contains_key(n) && entries[n].parent == chain_parent(
            chain,
            chain.len() as int,
        )
}

spec fn walk_ok(
    entries: Map<u64, EntryView>,
    walk: MftWalkView,
    chains: Seq<Seq<u64>>,
) -> bool {
    &&& same_links(entries, walk.entries)
    &&& !walk.entries.contains_key(ROOT_RECORD)
    &&& lists_ok(entries, walk.lists)
    &&& chains.len() == walk.frames.len()
    &&& forall|i: int|
        0 <= i < chains.len() ==> frame_ok(entries, walk, walk.frames[i], #[trigger] chains[i])
}

/// A chain with one more entry.
proof fn lemma_longer_chain(entries: Map<u64, EntryView>, chain: Seq<u64>, number: u64)
    requires
        is_chain(entries, chain),
        entries.contains_key(number),
        number != ROOT_RECORD,
        entries[number].parent == chain_parent(chain, chain.len() as int),
    ensures
        is_chain(entries, chain.push(number)),
        chain_path(entries, chain.push(number)) == if chain.len() == 0 {
            entries[number].name
        } else {
            chain_path(entries, chain) + seq![DEFAULT_PATH_SEPARATOR] + entries[number].name
        },
{
    let longer = chain.push(number);
    assert(longer.drop_last() == chain);
    assert forall|i: int| 0 <= i < longer.len() implies entries.contains_key(#[trigger] longer[i])
        && longer[i] != ROOT_RECORD by {
        if i < chain.len() {
            assert(longer[i] == chain[i]);
        }
    }
    assert forall|i: int| 0 <= i < longer.len() implies entries[longer[i]].parent
        == #[trigger] chain_parent(longer, i) by {
        if i < chain.len() {
            assert(longer[i] == chain[i]);
            assert(chain_parent(longer, i) == chain_parent(chain, i));
        } else {
            assert(chain_parent(longer, i) == chain_parent(chain, chain.len() as int));
        }
    }
}

/// One visit keeps what is known about a walk.
proof fn lemma_next(
    entries: Map<u64, EntryView>,
    walk: MftWalkView,
    chains: Seq<Seq<u64>>,
) -> (result: (Seq<Seq<u64>>, Seq<u64>))
    requires
        walk_ok(entries, walk, chains),
    ensures
        walk_ok(entries, walk.next().1, result.0),
        walk.next().0 matches Some(visit) ==> visit_ok(entries, walk, visit, result.1),
    decreases steps_left(walk.frames),
{
    if walk.frames.len() == 0 {
        (chains, Seq::empty())
    } else {
        let top = walk.frames.last();
        let chain = chains.last();
        assert(chains[chains.len() - 1] == chain);
        assert(frame_ok(entries, walk, top, chain));
        if top.list.len() == 0 {
            let less = chains.drop_last();
            let after = walk.closed();
            assert forall|i: int| 0 <= i < less.len() implies frame_ok(
                entries,
                after,
                after.frames[i],
                #[trigger] less[i],
            ) by {
                assert(less[i] == chains[i]);
                assert(after.frames[i] == walk.frames[i]);
            }
            lemma_next(entries, after, less)
        } else {
            let number = top.list[0];
            let stepped = walk.skipped();
            assert(stepped.frames.drop_last() == walk.frames.drop_last());
            assert(stepped.frames.last() == (MftFrameView { list: top.list.skip(1), ..top }));
            assert forall|n: u64| #[trigger] top.list.skip(1).contains(n) implies top.list.contains(
                n,
            ) by {
                let rest = top.list.skip(1);
                let k = choose|k: int| 0 <= k < rest.len() && rest[k] == n;
                assert(top.list[k + 1] == n);
            }
            assert(top.list.contains(number));
            if !walk.entries.contains_key(number) {
                assert forall|i: int| 0 <= i < chains.len() implies frame_ok(
                    entries,
                    stepped,
                    stepped.frames[i],
                    #[trigger] chains[i],
                ) by {
                    assert(frame_ok(entries, walk, walk.frames[i], chains[i]));
                }
                lemma_next(entries, stepped, chains)
            } else {
                let after = walk.visited();
                let longer = chain.push(number);
                lemma_longer_chain(entries, chain, number);
                assert(walk.entries[number].name == entries[number].name);
                assert(longer.drop_last() == chain);
                assert(longer.last() == number);
                let name = entries[number].name;
                if chain.len() == 0 {
                    assert(seq![] + name == name);
                }
                assert(top.path + name == chain_path(entries, longer));
                let visit = walk.visit();
                assert(walk.next() == (Some(visit), after));
                assert forall|i: int| 0 <= i < chain.len() implies !walk.entries.contains_key(
                    #[trigger] longer[i],
                ) by {
                    assert(longer[i] == chain[i]);
                }
                assert forall|i: int| 0 <= i < chains.len() implies frame_ok(
                    entries,
                    after,
                    stepped.frames[i],
                    #[trigger] chains[i],
                ) by {
                    assert(frame_ok(entries, walk, walk.frames[i], chains[i]));
                }
                if walk.lists.contains_key(number) {
                    let opened = MftFrameView {
                        list: walk.lists[number],
                        path: top.path + walk.entries[number].name + seq![DEFAULT_PATH_SEPARATOR],
                    };
                    let more = chains.push(longer);
                    assert(after.frames == stepped.frames.push(opened));
                    assert(frame_ok(entries, after, opened, longer)) by {
                        assert forall|n: u64| #[trigger] opened.list.contains(n) implies
                            entries.contains_key(n) && entries[n].parent == chain_parent(
                            longer,
                            longer.len() as int,
                        ) by {
                            assert(walk.lists[number].contains(n));
                        }
                    }
                    assert forall|i: int| 0 <= i < more.len() implies frame_ok(
                        entries,
                        after,
                        after.frames[i],
                        #[trigger] more[i],
                    ) by {
                        if i < chains.len() {
                            assert(more[i] == chains[i]);
                            assert(after.frames[i] == stepped.frames[i]);
                        }
                    }
                    (more, longer)
                } else {
                    assert(after.frames == stepped.frames);
                    (chains, longer)
                }
            }
        }
    }
}

/// Whether a visit is the one of the last entry of a chain, after all others of it were
/// visited.
pub open spec fn visit_ok(
    entries: Map<u64, EntryView>,
    walk: MftWalkView,
    visit: MftVisitView,
    chain: Seq<u64>,
) -> bool {
    &&& chain.len() > 0
    &&& is_chain(entries, chain)
    &&& chain.last() == visit.number
    &&& visit.path == chain_path(entries, chain)
    &&& visit.entry.name == entries[visit.number].name
    &&& visit.entry.parent == entries[visit.number].parent
    &&& forall|i: int|
        0 <= i < chain.len() - 1 ==> !walk.entries.contains_key(#[trigger] chain[i])
}

/// The walk at its start.
proof fn lemma_start(order: Seq<u64>, entries: Map<u64, EntryView>) -> (chains: Seq<Seq<u64>>)
    requires
        is_table(order, entries),
        walk_start(order, entries) is Some,
    ensures
        walk_ok(entries, (walk_start(order, entries)->0).1, chains),
{
    let lists = grouped(order, entries);
    let folders = folders_of(order, entries);
    let walk = (walk_start(order, entries)->0).1;
    lemma_grouped(order, entries);
    lemma_lists_ok(order, entries);
    lemma_all_deduped(order, entries, folders);
    let chains = seq![Seq::<u64>::empty()];
    let list = list_of(lists, ROOT_RECORD);
    assert forall|n: u64| #[trigger] list.contains(n) implies entries.contains_key(n)
        && entries[n].parent == ROOT_RECORD by {
        assert(lists[ROOT_RECORD].contains(n));
    }
    chains
}

proof fn lemma_after(
    order: Seq<u64>,
    entries: Map<u64, EntryView>,
    visits: nat,
) -> (chains: Seq<Seq<u64>>)
    requires
        is_table(order, entries),
        walk_start(order, entries) is Some,
    ensures
        walk_ok(entries, walk_after((walk_start(order, entries)->0).1, visits), chains),
    decreases visits,
{
    if visits == 0 {
        lemma_start(order, entries)
    } else {
        let before = lemma_after(order, entries, (visits - 1) as nat);
        let walk = walk_after((walk_start(order, entries)->0).1, (visits - 1) as nat);
        lemma_next(entries, walk, before).0
    }
}

/// The path of an entry is made of the names along the numbers of folders in the table,
/// from an entry of the root down to the entry itself, with separators between them. All
/// folders on this way were visited before.
pub proof fn law_paths_follow_the_table(
    order: Seq<u64>,
    entries: Map<u64, EntryView>,
    visits: nat,
) -> (chain: Seq<u64>)
    requires
        is_table(order, entries),
        walk_start(order, entries) is Some,
    ensures
        ({
            let walk = (walk_start(order, entries)->0).1;
            visit_after(walk, visits) matches Some(visit) ==> visit_ok(
                entries,
                walk_after(walk, visits),
                visit,
                chain,
            )
        }),
{
    let walk = (walk_start(order, entries)->0).1;
    let chains = lemma_after(order, entries, visits);
    lemma_next(entries, walk_after(walk, visits), chains).1
}

/// A chain that leads to an entry is the only one.
proof fn lemma_same_chain(entries: Map<u64, EntryView>, a: Seq<u64>, b: Seq<u64>)
    requires
        is_chain(entries, a),
        is_chain(entries, b),
        a.len() > 0,
        b.len() > 0,
        a.last() == b.last(),
    ensures
        a == b,
    decreases a.len(),
{
    let i = a.len() - 1;
    let j = b.len() - 1;
    assert(entries[a[i]].parent == chain_parent(a, i as int));
    assert(entries[b[j]].parent == chain_parent(b, j as int));
    if a.len() > 1 {
        assert(a[i - 1] != ROOT_RECORD);
        assert(b.len() > 1);
        lemma_shorter_chain(entries, a);
        lemma_shorter_chain(entries, b);
        lemma_same_chain(entries, a.drop_last(), b.drop_last());
        assert(a == a.drop_last().push(a.last()));
        assert(b == b.drop_last().push(b.last()));
    } else if b.len() > 1 {
        assert(b[j - 1] != ROOT_RECORD);
    } else {
        assert(a == b);
    }
}

proof fn lemma_shorter_chain(entries: Map<u64, EntryView>, chain: Seq<u64>)
    requires
        is_chain(entries, chain),
        chain.len() > 0,
    ensures
        is_chain(entries, chain.drop_last()),
{
    let less = chain.drop_last();
    assert forall|i: int| 0 <= i < less.len() implies entries.contains_key(#[trigger] less[i])
        && less[i] != ROOT_RECORD by {
        assert(less[i] == chain[i]);
    }
    assert forall|i: int| 0 <= i < less.len() implies entries[less[i]].parent
        == #[trigger] chain_parent(less, i) by {
        assert(less[i] == chain[i]);
        assert(chain_parent(less, i) == chain_parent(chain, i));
    }
}

/// The path of an entry is the path of its folder, a separator and its own name. The path
/// of an entry of the root is its name.
pub proof fn law_paths_continue_those_of_folders(
    order: Seq<u64>,
    entries: Map<u64, EntryView>,
    folder_visits: nat,
    visits: nat,
)
    requires
        is_table(order, entries),
        walk_start(order, entries) is Some,
        visit_after((walk_start(order, entries)->0).1, visits) is Some,
    ensures
        ({
            let walk = (walk_start(order, entries)->0).1;
            let visit = visit_after(walk, visits)->0;
            let parent = entries[visit.number].parent;
            &&& parent == ROOT_RECORD ==> visit.path == entries[visit.number].name
            &&& visit_after(walk, folder_visits) matches Some(folder) ==> (folder.number == parent
                ==> visit.path == folder.path + seq![DEFAULT_PATH_SEPARATOR]
                + entries[visit.number].name)
        }),
{
    let walk = (walk_start(order, entries)->0).1;
    let visit = visit_after(walk, visits)->0;
    let chain = law_paths_follow_the_table(order, entries, visits);
    let last = chain.len() - 1;
    assert(entries[chain[last]].parent == chain_parent(chain, last as int));
    if entries[visit.number].parent == ROOT_RECORD {
        if chain.len() > 1 {
            assert(chain[last - 1] != ROOT_RECORD);
        }
    }
    if let Some(folder) = visit_after(walk, folder_visits) {
        if folder.number == entries[visit.number].parent {
            let other = law_paths_follow_the_table(order, entries, folder_visits);
            assert(other[other.len() - 1] != ROOT_RECORD);
            assert(chain.len() > 1);
            lemma_shorter_chain(entries, chain);
            lemma_same_chain(entries, chain.drop_last(), other);
        }
    }
}

/// The entries of a folder are those of the table that say so, in the order of the table.
pub proof fn law_folders_have_their_entries(
    order: Seq<u64>,
    entries: Map<u64, EntryView>,
    folder: u64,
)
    ensures
        list_of(grouped(order, entries), folder) == order.filter(
            |n: u64| entries[n].parent == folder,
        ),
    decreases order.len(),
{
    reveal(Seq::filter);
    if order.len() > 0 {
        law_folders_have_their_entries(order.drop_last(), entries, folder);
    }
}

/// Which entries are left after merging: for each name the last one that has it.
spec fn last_ones(
    entries: Map<u64, EntryView>,
    list: Seq<u64>,
    after: Map<u64, EntryView>,
    names: Map<Seq<char>, u64>,
) -> bool {
    &&& forall|i: int|
        0 <= i < list.len() ==> names.contains_key((#[trigger] entries[list[i]]).name)
    &&& forall|i: int, j: int|
        #![trigger list[i], list[j]]
        0 <= i < j < list.len() && names[entries[list[i]].name] == list[i] ==> entries[list[i]].name
            != entries[list[j]].name
    &&& forall|i: int|
        0 <= i < list.len() ==> (after.contains_key(#[trigger] list[i])
            <==> names[entries[list[i]].name] == list[i])
}

proof fn lemma_last_ones(entries: Map<u64, EntryView>, list: Seq<u64>)
    requires
        list_ok(entries, list),
    ensures
        deduped(entries, list) matches Some((after, names)) ==> last_ones(
            entries,
            list,
            after,
            names,
        ),
    decreases list.len(),
{
    if list.len() > 0 {
        let rest = list.drop_last();
        let number = list.last();
        let end = list.len() - 1;
        assert(list[end] == number);
        assert forall|i: int| 0 <= i < rest.len() implies #[trigger] rest[i] == list[i] by {}
        assert forall|i: int| 0 <= i < rest.len() implies #[trigger] list[i] == rest[i] && list[i]
            != number by {
            assert(list[i] != list[end]);
        }
        assert(list_ok(entries, rest));
        lemma_last_ones(entries, rest);
        crate::mft_tree::lemma_deduped(entries, rest);
        lemma_deduped_links(entries, rest);
        if let Some((before, names)) = deduped(entries, rest) {
            assert(!rest.contains(number));
            let name = entries[number].name;
            assert(before[number] == entries[number]);
            if let Some((after, all_names)) = deduped(entries, list) {
                assert(all_names == names.insert(name, number));
                assert forall|i: int| 0 <= i < list.len() implies all_names.contains_key(
                    (#[trigger] entries[list[i]]).name,
                ) by {
                    if i < end {
                        assert(names.contains_key(entries[rest[i]].name));
                    }
                }
                assert forall|i: int| 0 <= i < list.len() implies (after.contains_key(
                    #[trigger] list[i],
                ) <==> all_names[entries[list[i]].name] == list[i]) by {
                    if i < end {
                        assert(before.contains_key(rest[i]) <==> names[entries[rest[i]].name]
                            == rest[i]);
                    }
                }
                assert forall|i: int, j: int|
                    #![trigger list[i], list[j]]
                    0 <= i < j < list.len() && all_names[entries[list[i]].name]
                        == list[i] implies entries[list[i]].name != entries[list[j]].name by {
                    if j < end {
                        assert(rest[i] == list[i] && rest[j] == list[j]);
                        if entries[list[i]].name != name {
                            assert(names[entries[rest[i]].name] == rest[i]);
                        }
                    }
                }
            }
        }
    }
}

/// Entries of a folder with the same name are merged into the last one of them: an entry is
/// left exactly if no later one in the same folder has its name.
pub proof fn law_last_of_equal_names_is_left(
    order: Seq<u64>,
    entries: Map<u64, EntryView>,
    folder: u64,
    i: int,
)
    requires
        is_table(order, entries),
        walk_start(order, entries) is Some,
        0 <= i < order.filter(|n: u64| entries[n].parent == folder).len(),
    ensures
        ({
            let list = order.filter(|n: u64| entries[n].parent == folder);
            let walk = (walk_start(order, entries)->0).1;
            list[i] != ROOT_RECORD ==> (walk.entries.contains_key(list[i]) <==> forall|j: int|
                i < j < list.len() ==> entries[#[trigger] list[j]].name != entries[list[i]].name)
        }),
{
    let list = order.filter(|n: u64| entries[n].parent == folder);
    let lists = grouped(order, entries);
    law_folders_have_their_entries(order, entries, folder);
    lemma_grouped(order, entries);
    lemma_lists_ok(order, entries);
    lemma_all_deduped(order, entries, folders_of(order, entries));
    assert(list == lists[folder]);
    lemma_last_ones(entries, list);
    let n = list[i];
    assert(list.contains(n));
    assert(entries.contains_key(n) && entries[n].parent == folder);
    assert(folders_of(order, entries).contains(folder));
    let (after, names) = deduped(entries, list)->0;
    assert(last_ones(entries, list, after, names));
    assert(after.contains_key(list[i]) <==> names[entries[list[i]].name] == list[i]);
    if names[entries[n].name] != n {
        assert(names.contains_key(entries[list[i]].name));
        crate::mft_tree::lemma_deduped(entries, list);
        let other = names[entries[n].name];
        assert(list.contains(other));
        let j = choose|j: int| 0 <= j < list.len() && list[j] == other;
        lemma_deduped_links(entries, list);
        assert(entries[list[j]].name == entries[n].name);
        if j < i {
            assert(entries[list[j]].name != entries[list[i]].name);
        }
        assert(i < j);
    }
}

/// An entry whose name no other entry of the list has stays as it is.
proof fn lemma_unique_kept(entries: Map<u64, EntryView>, list: Seq<u64>, n: u64)
    requires
        list_ok(entries, list),
        entries.contains_key(n),
        forall|i: int|
            0 <= i < list.len() && list[i] != n ==> entries[#[trigger] list[i]].name
                != entries[n].name,
    ensures
        deduped(entries, list) matches Some((after, names)) ==> {
            &&& after.contains_key(n)
            &&& after[n] == entries[n]
            &&& names.contains_key(entries[n].name) <==> list.contains(n)
            &&& list.contains(n) ==> names[entries[n].name] == n
        },
    decreases list.len(),
{
    if list.len() > 0 {
        let rest = list.drop_last();
        let number = list.last();
        let end = list.len() - 1;
        assert(list[end] == number);
        assert forall|i: int| 0 <= i < rest.len() implies #[trigger] rest[i] == list[i] && rest[i]
            != number by {
            assert(list[i] != list[end]);
        }
        assert(list_ok(entries, rest));
        lemma_unique_kept(entries, rest, n);
        crate::mft_tree::lemma_deduped(entries, rest);
        lemma_deduped_links(entries, rest);
        assert(!rest.contains(number));
        assert(list.contains(n) <==> n == number || rest.contains(n)) by {
            if list.contains(n) {
                let k = choose|k: int| 0 <= k < list.len() && list[k] == n;
                if k < end {
                    assert(rest[k] == n);
                }
            }
            if rest.contains(n) {
                let k = choose|k: int| 0 <= k < rest.len() && rest[k] == n;
                assert(list[k] == n);
            }
        }
    }
}

/// Two entries with the same name, which no other entry of the list has.
proof fn lemma_pair_merged(entries: Map<u64, EntryView>, list: Seq<u64>, i: int, j: int)
    requires
        list_ok(entries, list),
        0 <= i < j < list.len(),
        entries[list[i]].name == entries[list[j]].name,
        forall|k: int|
            0 <= k < list.len() && k != i && k != j ==> entries[#[trigger] list[k]].name
                != entries[list[i]].name,
    ensures
        deduped(entries, list) matches Some((after, names)) ==> {
            &&& after.contains_key(list[j])
            &&& after[list[j]] == merged(entries[list[i]], entries[list[j]])
            &&& merge_fits(entries[list[i]], entries[list[j]])
        },
    decreases list.len(),
{
    let rest = list.drop_last();
    let number = list.last();
    let end = list.len() - 1;
    assert(list[end] == number);
    assert forall|k: int| 0 <= k < rest.len() implies #[trigger] rest[k] == list[k] && rest[k]
        != number by {
        assert(list[k] != list[end]);
    }
    assert(list_ok(entries, rest));
    crate::mft_tree::lemma_deduped(entries, rest);
    lemma_deduped_links(entries, rest);
    assert(!rest.contains(number));
    if j == end {
        assert(rest[i] == list[i]);
        lemma_unique_kept(entries, rest, list[i]);
        assert(rest.contains(list[i]));
    } else {
        assert(rest[i] == list[i] && rest[j] == list[j]);
        lemma_pair_merged(entries, rest, i, j);
        assert(entries[list[end]].name != entries[list[i]].name);
    }
}

/// An entry is visited as it is in the table if no other entry of its folder has its name.
/// If one other earlier entry has it then what is sure about the earlier one counts: its
/// size is added, and its time and attributes are used. Nothing is sure about the result.
pub proof fn law_merged_entries_keep_what_is_sure(
    order: Seq<u64>,
    entries: Map<u64, EntryView>,
    folder: u64,
    i: int,
    j: int,
)
    requires
        is_table(order, entries),
        walk_start(order, entries) is Some,
        0 <= i <= j < order.filter(|n: u64| entries[n].parent == folder).len(),
        order.filter(|n: u64| entries[n].parent == folder)[j] != ROOT_RECORD,
        ({
            let list = order.filter(|n: u64| entries[n].parent == folder);
            &&& entries[list[i]].name == entries[list[j]].name
            &&& forall|k: int|
                0 <= k < list.len() && k != i && k != j ==> entries[#[trigger] list[k]].name
                    != entries[list[i]].name
        }),
    ensures
        ({
            let list = order.filter(|n: u64| entries[n].parent == folder);
            let walk = (walk_start(order, entries)->0).1;
            let first = entries[list[i]];
            let own = entries[list[j]];
            let left = walk.entries[list[j]];
            &&& walk.entries.contains_key(list[j])
            &&& i == j ==> left == own
            &&& i < j ==> {
                &&& left.metadata.size == own.metadata.size + if first.size_success {
                    first.metadata.size as int
                } else {
                    0
                }
                &&& left.metadata.allocated == own.metadata.allocated + if first.size_success {
                    first.metadata.allocated as int
                } else {
                    0
                }
                &&& left.metadata.modified == if first.info_success {
                    first.metadata.modified
                } else {
                    own.metadata.modified
                }
                &&& left.metadata.attributes == if first.info_success {
                    first.metadata.attributes
                } else {
                    own.metadata.attributes
                }
                &&& left.metadata.is_dir == own.metadata.is_dir
                &&& !left.size_success
                &&& !left.info_success
                &&& left.name == own.name
                &&& left.parent == own.parent
            }
        }),
{
    let list = order.filter(|n: u64| entries[n].parent == folder);
    let lists = grouped(order, entries);
    law_folders_have_their_entries(order, entries, folder);
    lemma_grouped(order, entries);
    lemma_lists_ok(order, entries);
    lemma_all_deduped(order, entries, folders_of(order, entries));
    assert(list == lists[folder]);
    assert(list.contains(list[j]));
    assert(entries.contains_key(list[j]) && entries[list[j]].parent == folder);
    assert(folders_of(order, entries).contains(folder));
    if i == j {
        assert forall|k: int| 0 <= k < list.len() && list[k] != list[j] implies entries[
        #[trigger] list[k]].name != entries[list[j]].name by {}
        lemma_unique_kept(entries, list, list[j]);
    } else {
        lemma_pair_merged(entries, list, i, j);
    }
}

/// What is still to be visited of a folder that was visited is in the list of an open
/// folder.
spec fn nothing_forgotten(
    entries: Map<u64, EntryView>,
    start: Map<u64, EntryView>,
    walk: MftWalkView,
) -> bool {
    &&& same_links(entries, walk.entries)
    &&& !walk.entries.contains_key(ROOT_RECORD)
    &&& forall|n: u64| #[trigger] walk.entries.contains_key(n) ==> start.contains_key(n)
    &&& forall|n: u64| #[trigger]
        walk.entries.contains_key(n) ==> walk.lists.contains_key(entries[n].parent)
            && walk.lists[entries[n].parent].contains(n)
    &&& forall|n: u64| #[trigger]
        walk.entries.contains_key(n) && was_visited(start, walk, entries[n].parent) ==> exists|
            i: int,
        |
            0 <= i < walk.frames.len() && (#[trigger] walk.frames[i]).list.contains(n)
}

/// Whether an entry is the root or was visited.
pub open spec fn was_visited(
    start: Map<u64, EntryView>,
    walk: MftWalkView,
    number: u64,
) -> bool {
    number == ROOT_RECORD || (start.contains_key(number) && !walk.entries.contains_key(number))
}

proof fn lemma_nothing_forgotten(
    entries: Map<u64, EntryView>,
    start: Map<u64, EntryView>,
    walk: MftWalkView,
)
    requires
        nothing_forgotten(entries, start, walk),
    ensures
        nothing_forgotten(entries, start, walk.next().1),
        walk.next().0 is None ==> walk.next().1.frames.len() == 0,
    decreases steps_left(walk.frames),
{
    if walk.frames.len() > 0 {
        let top = walk.frames.last();
        let end = walk.frames.len() - 1;
        assert(walk.frames[end] == top);
        if top.list.len() == 0 {
            let after = walk.closed();
            assert forall|n: u64| #[trigger]
                after.entries.contains_key(n) && was_visited(start, after, entries[n].parent) implies
            exists|i: int| 0 <= i < after.frames.len() && (#[trigger] after.frames[i]).list.contains(
                n,
            ) by {
                assert(was_visited(start, walk, entries[n].parent));
                let i = choose|i: int|
                    0 <= i < walk.frames.len() && (#[trigger] walk.frames[i]).list.contains(n);
                assert(after.frames[i].list.contains(n));
            }
            lemma_nothing_forgotten(entries, start, after);
        } else {
            let number = top.list[0];
            let stepped = walk.skipped();
            assert(stepped.frames.drop_last() == walk.frames.drop_last());
            assert(stepped.frames[end] == (MftFrameView { list: top.list.skip(1), ..top }));
            assert forall|n: u64, i: int|
                #![trigger walk.frames[i].list.contains(n)]
                n != number && 0 <= i < walk.frames.len() && walk.frames[i].list.contains(
                    n,
                ) implies stepped.frames[i].list.contains(n) by {
                if i == end {
                    let k = choose|k: int| 0 <= k < top.list.len() && top.list[k] == n;
                    assert(top.list.skip(1)[k - 1] == n);
                } else {
                    assert(stepped.frames[i] == walk.frames[i]);
                }
            }
            if !walk.entries.contains_key(number) {
                assert forall|n: u64| #[trigger]
                    stepped.entries.contains_key(n) && was_visited(
                        start,
                        stepped,
                        entries[n].parent,
                    ) implies exists|i: int|
                    0 <= i < stepped.frames.len() && (#[trigger] stepped.frames[i]).list.contains(
                        n,
                    ) by {
                    assert(was_visited(start, walk, entries[n].parent));
                    let i = choose|i: int|
                        0 <= i < walk.frames.len() && (#[trigger] walk.frames[i]).list.contains(n);
                    assert(stepped.frames[i].list.contains(n));
                }
                lemma_nothing_forgotten(entries, start, stepped);
            } else {
                let after = walk.visited();
                assert(walk.next() == (Some(walk.visit()), after));
                assert forall|i: int| 0 <= i < stepped.frames.len() implies #[trigger]
                    after.frames[i] == stepped.frames[i] by {}
                assert forall|n: u64| #[trigger]
                    after.entries.contains_key(n) && was_visited(
                        start,
                        after,
                        entries[n].parent,
                    ) implies exists|i: int|
                    0 <= i < after.frames.len() && (#[trigger] after.frames[i]).list.contains(n) by {
                    assert(walk.entries.contains_key(n));
                    if was_visited(start, walk, entries[n].parent) {
                        let i = choose|i: int|
                            0 <= i < walk.frames.len() && (
                            #[trigger] walk.frames[i]).list.contains(n);
                        assert(stepped.frames[i].list.contains(n));
                        assert(after.frames[i].list.contains(n));
                    } else {
                        assert(entries[n].parent == number);
                        assert(after.frames[stepped.frames.len() as int].list.contains(n));
                    }
                }
            }
        }
    }
}

proof fn lemma_never_forgotten(order: Seq<u64>, entries: Map<u64, EntryView>, visits: nat)
    requires
        is_table(order, entries),
        walk_start(order, entries) is Some,
    ensures
        ({
            let walk = (walk_start(order, entries)->0).1;
            nothing_forgotten(entries, walk.entries, walk_after(walk, visits))
        }),
    decreases visits,
{
    let walk = (walk_start(order, entries)->0).1;
    if visits == 0 {
        lemma_grouped(order, entries);
        lemma_all_deduped(order, entries, folders_of(order, entries));
        assert forall|n: u64| #[trigger] walk.entries.contains_key(n) implies walk.lists.contains_key(
            entries[n].parent,
        ) && walk.lists[entries[n].parent].contains(n) by {
            assert(entries.contains_key(n));
            lemma_in_group(order, entries, n);
        }
        assert forall|n: u64| #[trigger]
            walk.entries.contains_key(n) && was_visited(
                walk.entries,
                walk,
                entries[n].parent,
            ) implies exists|i: int|
            0 <= i < walk.frames.len() && (#[trigger] walk.frames[i]).list.contains(n) by {
            assert(walk.frames[0].list.contains(n));
        }
    } else {
        lemma_never_forgotten(order, entries, (visits - 1) as nat);
        lemma_nothing_forgotten(
            entries,
            walk.entries,
            walk_after(walk, (visits - 1) as nat),
        );
    }
}

/// When nothing is visited any more, everything was visited that folders lead to from the
/// root, if merging has left the entry and these folders.
pub proof fn law_everything_below_the_root_is_visited(
    order: Seq<u64>,
    entries: Map<u64, EntryView>,
    visits: nat,
    chain: Seq<u64>,
)
    requires
        is_table(order, entries),
        walk_start(order, entries) is Some,
        visit_after((walk_start(order, entries)->0).1, visits) is None,
        is_chain(entries, chain),
        forall|i: int|
            0 <= i < chain.len() ==> (walk_start(order, entries)->0).1.entries.contains_key(
                #[trigger] chain[i],
            ),
    ensures
        forall|i: int|
            0 <= i < chain.len() ==> !walk_after(
                (walk_start(order, entries)->0).1,
                visits,
            ).entries.contains_key(#[trigger] chain[i]),
    decreases chain.len(),
{
    if chain.len() > 0 {
        let walk = (walk_start(order, entries)->0).1;
        let now = walk_after(walk, visits);
        let rest = chain.drop_last();
        lemma_shorter_chain(entries, chain);
        assert forall|i: int| 0 <= i < rest.len() implies walk.entries.contains_key(
            #[trigger] rest[i],
        ) by {
            assert(rest[i] == chain[i]);
        }
        law_everything_below_the_root_is_visited(order, entries, visits, rest);
        lemma_never_forgotten(order, entries, visits);
        lemma_nothing_forgotten(entries, walk.entries, now);
        law_entries_are_visited_once(now);
        let last = chain.len() - 1;
        let parent = chain_parent(chain, last);
        assert(entries[chain[last]].parent == parent);
        if last > 0 {
            assert(rest[last - 1] == chain[last - 1]);
            assert(walk.entries.contains_key(chain[last - 1]));
        }
        assert(was_visited(walk.entries, now, parent));
        assert forall|i: int| 0 <= i < chain.len() implies !now.entries.contains_key(
            #[trigger] chain[i],
        ) by {
            if i < last {
                assert(chain[i] == rest[i]);
            } else {
                assert(now.next().1.entries == now.entries);
                if now.entries.contains_key(chain[i]) {
                    assert(was_visited(walk.entries, now.next().1, parent));
                }
            }
        }
    }
}

/// Each visit gives the merged entry with its number, and tells whether an entry of the
/// table is in it.
pub proof fn law_visits_give_the_merged_entries(
    order: Seq<u64>,
    entries: Map<u64, EntryView>,
    visits: nat,
)
    requires
        is_table(order, entries),
        walk_start(order, entries) is Some,
    ensures
        ({
            let walk = (walk_start(order, entries)->0).1;
            visit_after(walk, visits) matches Some(visit) ==> {
                &&& walk.entries.contains_key(visit.number)
                &&& visit.entry == walk.entries[visit.number]
                &&& visit.has_entries <==> exists|n: u64| #[trigger]
                    entries.contains_key(n) && entries[n].parent == visit.number
            }
        }),
{
    let walk = (walk_start(order, entries)->0).1;
    let now = walk_after(walk, visits);
    lemma_entries_left(walk, visits);
    law_entries_are_visited_once(now);
    lemma_visit_has_entries(now);
    lemma_grouped(order, entries);
    lemma_lists_ok(order, entries);
    if let Some(visit) = visit_after(walk, visits) {
        let lists = grouped(order, entries);
        assert(now.lists == lists);
        if lists.contains_key(visit.number) {
            lemma_group_not_empty(order, entries, visit.number);
            let n = lists[visit.number][0];
            assert(lists[visit.number].contains(n));
            assert(entries.contains_key(n) && entries[n].parent == visit.number);
        }
        assert forall|n: u64| #[trigger]
            entries.contains_key(n) && entries[n].parent == visit.number implies lists.contains_key(
            visit.number,
        ) by {
            lemma_in_group(order, entries, n);
        }
    }
}

proof fn lemma_group_not_empty(order: Seq<u64>, entries: Map<u64, EntryView>, folder: u64)
    requires
        grouped(order, entries).contains_key(folder),
    ensures
        grouped(order, entries)[folder].len() > 0,
    decreases order.len(),
{
    if order.len() > 0 {
        if entries[order.last()].parent != folder {
            lemma_group_not_empty(order.drop_last(), entries, folder);
        }
    }
}

proof fn lemma_visit_has_entries(walk: MftWalkView)
    ensures
        walk.next().0 matches Some(visit) ==> visit.has_entries == walk.lists.contains_key(
            visit.number,
        ),
        walk.next().1.lists == walk.lists,
    decreases steps_left(walk.frames),
{
    if walk.frames.len() > 0 {
        if walk.frames.last().list.len() == 0 {
            lemma_visit_has_entries(walk.closed());
        } else if !walk.entries.contains_key(walk.frames.last().list[0]) {
            assert(walk.skipped().frames.drop_last() == walk.frames.drop_last());
            lemma_visit_has_entries(walk.skipped());
        }
    }
}

proof fn lemma_entries_left(walk: MftWalkView, visits: nat)
    ensures
        walk_after(walk, visits).lists == walk.lists,
        forall|n: u64| #[trigger]
            walk_after(walk, visits).entries.contains_key(n) ==> walk.entries.contains_key(n)
                && walk_after(walk, visits).entries[n] == walk.entries[n],
    decreases visits,
{
    if visits > 0 {
        lemma_entries_left(walk, (visits - 1) as nat);
        law_entries_are_visited_once(walk_after(walk, (visits - 1) as nat));
        lemma_visit_has_entries(walk_after(walk, (visits - 1) as nat));
    }
}

/// The record of a visited entry is below the root, at its path. Anything with entries in
/// it is a folder. What is sure about an entry is never replaced, and what is not sure is
/// replaced by what the file system says, if it says anything.
pub proof fn law_sure_metadata_is_recorded(
    visit: MftVisitView,
    root: Seq<char>,
    recovered: Option<RecoveredInfo>,
)
    ensures
        ({
            let record = visit_record(visit, root, recovered);
            let own = visit.entry.metadata;
            let is_dir = own.is_dir || visit.has_entries;
            &&& is_dir ==> record.file_name == (root + visit.path).push(DEFAULT_PATH_SEPARATOR)
            &&& !is_dir ==> record.file_name == root + visit.path
            &&& visit.entry.size_success || recovered is None ==> record.size == own.size
                && record.allocated == own.allocated
            &&& visit.entry.info_success || recovered is None ==> record.modified == own.modified
                && record.attributes == own.attributes
            &&& recovered matches Some(found) ==> {
                &&& !visit.entry.size_success ==> record.size == found.size && record.allocated
                    == found.size
                &&& !visit.entry.info_success ==> record.attributes == found.attributes
                &&& !visit.entry.info_success ==> (found.modified matches Some(modified)
                    ==> record.modified == modified)
                &&& found.modified is None ==> record.modified == own.modified
            }
            &&& record.files == own.files
            &&& record.folders == own.folders
        }),
{
    let path = root + visit.path;
    assert(path.push(DEFAULT_PATH_SEPARATOR) == path + seq![DEFAULT_PATH_SEPARATOR]);
}

/// The sum over two lists of numbers is the sum of the sums, and the sum of one number is
/// that number.
pub proof fn law_totals_are_sums(a: Seq<u64>, b: Seq<u64>, n: u64)
    ensures
        total(a + b) == total(a) + total(b),
        total(seq![n]) == n,
    decreases b.len(),
{
    reveal_with_fuel(total, 2);
    assert(seq![n].drop_last() == Seq::<u64>::empty());
    if b.len() == 0 {
        assert(a + b == a);
    } else {
        law_totals_are_sums(a, b.drop_last(), n);
        assert((a + b).drop_last() == a + b.drop_last());
    }
}

/// The size of a file is that of its contents, and its allocated size that of all pieces
/// of the contents that are outside of the table. Only if the contents are not known the
/// sizes that are stored with the name are used, the allocated size is not smaller than
/// the other one then. Folders have no size.
pub proof fn law_entries_have_the_sizes_of_contents(entry: EntryView, record: MftRecord)
    requires
        is_entry_of(entry, record),
        record_sizes(record).1 <= u64::MAX,
    ensures
        entry.name == record.name@,
        entry.parent == record.parent,
        entry.metadata.is_dir == record.is_dir,
        record.is_dir ==> entry.metadata.size == 0 && entry.metadata.allocated == 0
            && entry.size_success,
        !record.is_dir ==> (record.data matches Some(data) ==> {
            &&& entry.size_success
            &&& entry.metadata.size == data.size
            &&& data.value matches MftValue::DataRuns(runs) ==> entry.metadata.allocated == total(
                runs@,
            )
            &&& !(data.value is DataRuns) ==> entry.metadata.allocated == data.size
        }),
        !record.is_dir && record.data is None ==> {
            &&& !entry.size_success
            &&& entry.metadata.size == record.cached_size
            &&& entry.metadata.allocated >= entry.metadata.size
            &&& record.cached_size > 0 ==> entry.metadata.allocated >= record.cached_allocated
            &&& record.cached_size > 0 ==> entry.metadata.allocated == record.cached_size
                || entry.metadata.allocated == record.cached_allocated
            &&& record.cached_size == 0 ==> entry.metadata.allocated == 0
        },
        entry.info_success <==> record.info is Some,
        record.info matches Some(info) ==> entry.metadata.attributes == info.attributes,
        record.info is None ==> entry.metadata.attributes == if record.is_dir {
            0x10u64
        } else {
            0x20u64
        },
        entry.metadata.files == 0 && entry.metadata.folders == 0 && entry.metadata.children is None,
        !entry.metadata.spec_has_drive_info(),
{
}

/// The time of an entry is exactly the one of its record, in steps of 100 nanoseconds since
/// the start of 1601, unless that one is before 1970 or after all times that can be
/// represented. Entries of records with different times have different times.
pub proof fn law_entries_have_the_times_of_records(entry: EntryView, record: MftRecord)
    requires
        is_entry_of(entry, record),
    ensures
        record.info matches Some(info) ==> {
            let seconds = entry.metadata.modified.spec_unix_seconds();
            let nanos = entry.metadata.modified.nanos;
            ||| EPOCH_DIFF + seconds * 10_000_000 + nanos / 100 == info.modified && nanos % 100 == 0
            ||| info.modified < EPOCH_DIFF && seconds == 0 && nanos == 0
            ||| seconds == 0 && nanos == 0 && forall|t: Timestamp|
                #![trigger t.spec_unix_seconds()]
                t.valid() ==> t.spec_unix_seconds() != (info.modified - EPOCH_DIFF) / 10_000_000
        },
        record.info is None ==> entry.metadata.modified.spec_unix_seconds() == 0,
{
}

/// The path of the root folder ends with a separator, and gets one only if it does not.
pub proof fn law_root_folders_end_with_a_separator(path: Seq<char>)
    ensures
        ends_with_separator(root_folder_path(path)),
        root_folder_path(path) == path <==> ends_with_separator(path),
        root_folder_path(path).take(path.len() as int) == path,
        root_folder_path(path).len() <= path.len() + 1,
        root_folder_path(root_folder_path(path)) == root_folder_path(path),
{
    assert(path.push(DEFAULT_PATH_SEPARATOR).last() == DEFAULT_PATH_SEPARATOR);
    assert(root_folder_path(path).take(path.len() as int) == path);
    assert(path.push(DEFAULT_PATH_SEPARATOR).len() != path.len());
}

} // verus!
