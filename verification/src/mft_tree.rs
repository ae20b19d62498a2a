//! The tree of files and folders that the entries of a master file table form.
use std::collections::HashMap;

use vstd::hash_map::StringHashMap;
use vstd::prelude::*;

use crate::metadata::FsEntryMetadata;
use crate::mft::{is_entry_of, record_sizes, EntryView, MftEntry, MftRecord};
use crate::text::{ends_with_separator, text_ends_with_separator, DEFAULT_PATH_SEPARATOR};
use crate::text_format::{replace_char, replaced};
use crate::timestamp::Timestamp;
use crate::wiztree_csv::{RecordView, WizTreeCsvRecord};

verus! {

/// The number of the record of the root folder.
pub const ROOT_RECORD: u64 = 5;

pub open spec fn entry_views(entries: Map<u64, MftEntry>) -> Map<u64, EntryView> {
    entries.map_values(|e: MftEntry| e@)
}

pub open spec fn list_views(lists: Map<u64, Vec<u64>>) -> Map<u64, Seq<u64>> {
    lists.map_values(|l: Vec<u64>| l@)
}

/// The entries of the records that are in use.
pub struct MftTable {
    entries: HashMap<u64, MftEntry>,
    order: Vec<u64>,
}

impl MftTable {
    pub closed spec fn entries(self) -> Map<u64, EntryView> {
        entry_views(self.entries@)
    }

    /// The numbers of the records in the order in which they were found first.
    pub closed spec fn order(self) -> Seq<u64> {
        self.order@
    }

    /// Whether each record is listed once.
    pub open spec fn wf(self) -> bool {
        &&& self.order().no_duplicates()
        &&& forall|n: u64| #[trigger] self.entries().contains_key(n) <==> self.order().contains(n)
    }

    /// No records.
    pub fn new() -> (table: Self)
        ensures
            table.wf(),
            table.entries() == Map::<u64, EntryView>::empty(),
            table.order() == Seq::<u64>::empty(),
    {
        broadcast use vstd::std_specs::hash::group_hash_axioms;

        let table = MftTable { entries: HashMap::new(), order: Vec::new() };
        assert(table.entries() == Map::<u64, EntryView>::empty());
        table
    }

    /// Adds what a record says, in place of an earlier record with the same number.
    /// Gives the name of that earlier record.
    ///
    /// An error if the allocated size of the record is too large.
    pub fn push(&mut self, record: MftRecord) -> (result: Result<Option<String>, ()>)
        requires
            old(self).wf(),
        ensures
            final(self).wf(),
            result is Err <==> record_sizes(record).1 > u64::MAX,
            result is Err ==> final(self).entries() == old(self).entries() && final(self).order()
                == old(self).order(),
            result matches Ok(forgotten) ==> {
                let number = record.number;
                let known = old(self).entries().contains_key(number);
                &&& final(self).entries().contains_key(number)
                &&& is_entry_of(final(self).entries()[number], record)
                &&& final(self).entries() == old(self).entries().insert(
                    number,
                    final(self).entries()[number],
                )
                &&& final(self).order() == if known {
                    old(self).order()
                } else {
                    old(self).order().push(number)
                }
                &&& forgotten is Some <==> known
                &&& forgotten matches Some(name) ==> name@ == old(self).entries()[number].name
            },
    {
        broadcast use vstd::std_specs::hash::group_hash_axioms;

        let ghost before = self.entries@;
        let ghost old_order = self.order@;
        let number = record.number;
        let entry = match MftEntry::from_record(record) {
            Some(entry) => entry,
            None => {
                return Err(());
            },
        };
        let ghost added = entry;
        let old_entry = self.entries.insert(number, entry);
        proof {
            assert(self.entries() == entry_views(before).insert(number, added@));
        }
        match old_entry {
            Some(old_entry) => Ok(Some(old_entry.name)),
            None => {
                self.order.push(number);
                proof {
                    assert(!old_order.contains(number)) by {
                        assert(old_order.contains(number) ==> entry_views(before).contains_key(
                            number,
                        ));
                    }
                    assert(self.order@ == old_order.push(number));
                    assert forall|n: u64| #[trigger] self.entries().contains_key(n)
                        <==> self.order().contains(n) by {
                        assert(old_order.contains(n) <==> entry_views(before).contains_key(n));
                        if n == number {
                            assert(self.order@[old_order.len() as int] == n);
                        } else if old_order.contains(n) {
                            let k = choose|k: int| 0 <= k < old_order.len() && old_order[k] == n;
                            assert(self.order@[k] == n);
                        }
                    }
                }
                Ok(None)
            },
        }
    }
}

/// The numbers of the entries in each folder.
pub open spec fn grouped(order: Seq<u64>, entries: Map<u64, EntryView>) -> Map<u64, Seq<u64>>
    decreases order.len(),
{
    if order.len() == 0 {
        Map::empty()
    } else {
        let before = grouped(order.drop_last(), entries);
        let parent = entries[order.last()].parent;
        before.insert(parent, list_of(before, parent).push(order.last()))
    }
}

pub open spec fn list_of(lists: Map<u64, Seq<u64>>, folder: u64) -> Seq<u64> {
    if lists.contains_key(folder) {
        lists[folder]
    } else {
        seq![]
    }
}

/// The numbers of the folders that have entries, in the order of these entries.
pub open spec fn folders_of(order: Seq<u64>, entries: Map<u64, EntryView>) -> Seq<u64>
    decreases order.len(),
{
    if order.len() == 0 {
        seq![]
    } else {
        let before = folders_of(order.drop_last(), entries);
        let parent = entries[order.last()].parent;
        if grouped(order.drop_last(), entries).contains_key(parent) {
            before
        } else {
            before.push(parent)
        }
    }
}

fn group_entries(order: &Vec<u64>, entries: &HashMap<u64, MftEntry>) -> (result: (
    HashMap<u64, Vec<u64>>,
    Vec<u64>,
))
    requires
        forall|i: int| 0 <= i < order@.len() ==> entries@.contains_key(#[trigger] order@[i]),
    ensures
        list_views(result.0@) == grouped(order@, entry_views(entries@)),
        result.1@ == folders_of(order@, entry_views(entries@)),
{
    broadcast use vstd::std_specs::hash::group_hash_axioms;

    let ghost views = entry_views(entries@);
    let mut lists: HashMap<u64, Vec<u64>> = HashMap::new();
    let mut folders: Vec<u64> = Vec::new();
    let mut i: usize = 0;
    proof {
        assert(order@.take(0) == Seq::<u64>::empty());
        assert(list_views(lists@) == Map::<u64, Seq<u64>>::empty());
    }
    while i < order.len()
        invariant
            i <= order@.len(),
            views == entry_views(entries@),
            forall|k: int| 0 <= k < order@.len() ==> entries@.contains_key(#[trigger] order@[k]),
            list_views(lists@) == grouped(order@.take(i as int), views),
            folders@ == folders_of(order@.take(i as int), views),
        decreases order@.len() - i,
    {
        let ghost before = lists@;
        let number = order[i];
        proof {
            assert(order@.take(i + 1).drop_last() == order@.take(i as int));
            assert(order@.take(i + 1).last() == number);
            assert(entries@.contains_key(order@[i as int]));
        }
        if let Some(entry) = entries.get(&number) {
            let parent: u64 = entry.parent;
            assert(views[number].parent == parent);
            let mut list: Vec<u64> = match lists.remove(&parent) {
                Some(list) => list,
                None => {
                    folders.push(parent);
                    Vec::new()
                },
            };
            list.push(number);
            let ghost now = list;
            lists.insert(parent, list);
            proof {
                assert(now@ == list_of(list_views(before), parent).push(number));
                assert(list_views(lists@) == list_views(before).insert(parent, now@));
            }
        }
        i = i + 1;
    }
    assert(order@.take(i as int) == order@);
    (lists, folders)
}

/// An entry that replaces an earlier one with the same name. What the earlier one
/// is sure about is taken over, and nothing is sure afterwards.
pub open spec fn merged(old: EntryView, entry: EntryView) -> EntryView {
    let info = entry.metadata;
    let first = if old.info_success {
        FsEntryMetadata {
            attributes: old.metadata.attributes,
            modified: old.metadata.modified,
            ..info
        }
    } else {
        info
    };
    let second = if old.size_success {
        FsEntryMetadata {
            size: (info.size + old.metadata.size) as u64,
            allocated: (info.allocated + old.metadata.allocated) as u64,
            ..first
        }
    } else {
        first
    };
    EntryView { metadata: second, size_success: false, info_success: false, ..entry }
}

/// Whether the sizes of merged entries can be represented.
pub open spec fn merge_fits(old: EntryView, entry: EntryView) -> bool {
    old.size_success ==> {
        &&& entry.metadata.size + old.metadata.size <= u64::MAX
        &&& entry.metadata.allocated + old.metadata.allocated <= u64::MAX
    }
}

/// The entries after those of one folder with the same name were merged, and the
/// last entry with each name. `None` if sizes do not fit.
pub open spec fn deduped(entries: Map<u64, EntryView>, list: Seq<u64>) -> Option<
    (Map<u64, EntryView>, Map<Seq<char>, u64>),
>
    decreases list.len(),
{
    if list.len() == 0 {
        Some((entries, Map::empty()))
    } else {
        let number = list.last();
        match deduped(entries, list.drop_last()) {
            None => None,
            Some((before, names)) => {
                let entry = before[number];
                if names.contains_key(entry.name) {
                    let old = names[entry.name];
                    if merge_fits(before[old], entry) {
                        Some(
                            (
                                before.remove(old).insert(number, merged(before[old], entry)),
                                names.insert(entry.name, number),
                            ),
                        )
                    } else {
                        None
                    }
                } else {
                    Some((before, names.insert(entry.name, number)))
                }
            },
        }
    }
}

/// The entries after those of all folders were merged.
pub open spec fn all_deduped(
    entries: Map<u64, EntryView>,
    lists: Map<u64, Seq<u64>>,
    folders: Seq<u64>,
) -> Option<Map<u64, EntryView>>
    decreases folders.len(),
{
    if folders.len() == 0 {
        Some(entries)
    } else {
        match all_deduped(entries, lists, folders.drop_last()) {
            None => None,
            Some(before) => match deduped(before, lists[folders.last()]) {
                None => None,
                Some((after, _)) => Some(after),
            },
        }
    }
}

/// Whether a list names different entries that all exist.
pub open spec fn list_ok(entries: Map<u64, EntryView>, list: Seq<u64>) -> bool {
    &&& list.no_duplicates()
    &&& forall|i: int| 0 <= i < list.len() ==> entries.contains_key(#[trigger] list[i])
}

pub open spec fn dedupe_facts(
    entries: Map<u64, EntryView>,
    list: Seq<u64>,
    after: Map<u64, EntryView>,
    names: Map<Seq<char>, u64>,
) -> bool {
    &&& forall|n: u64|
        !list.contains(n) ==> (#[trigger] after.contains_key(n) <==> entries.contains_key(n))
    &&& forall|n: u64| !list.contains(n) ==> #[trigger] after[n] == entries[n]
    &&& forall|n: u64| #[trigger] after.contains_key(n) ==> entries.contains_key(n)
    &&& forall|name: Seq<char>| #[trigger]
        names.contains_key(name) ==> {
            &&& list.contains(names[name])
            &&& after.contains_key(names[name])
            &&& after[names[name]].name == name
        }
}

/// Merging touches only entries of the list, and the last entry with each name
/// stays.
pub proof fn lemma_deduped(entries: Map<u64, EntryView>, list: Seq<u64>)
    requires
        list_ok(entries, list),
    ensures
        deduped(entries, list) is Some ==> dedupe_facts(
            entries,
            list,
            (deduped(entries, list)->0).0,
            (deduped(entries, list)->0).1,
        ),
    decreases list.len(),
{
    if list.len() > 0 {
        let rest = list.drop_last();
        let number = list.last();
        assert(list_ok(entries, rest)) by {
            assert forall|i: int| 0 <= i < rest.len() implies entries.contains_key(
                #[trigger] rest[i],
            ) by {
                assert(rest[i] == list[i]);
            }
        }
        lemma_deduped(entries, rest);
        assert(list[list.len() - 1] == number);
        assert forall|n: u64| #[trigger] rest.contains(n) implies list.contains(n) by {
            let k = choose|k: int| 0 <= k < rest.len() && rest[k] == n;
            assert(list[k] == n);
        }
        assert(!rest.contains(number)) by {
            if rest.contains(number) {
                let k = choose|k: int| 0 <= k < rest.len() && rest[k] == number;
                assert(list[k] == list[list.len() - 1]);
            }
        }
        if let Some((before, names)) = deduped(entries, rest) {
            let entry = before[number];
            assert(before.contains_key(number));
            if names.contains_key(entry.name) {
                let old = names[entry.name];
                assert(rest.contains(old));
            }
            assert(dedupe_facts(entries, rest, before, names));
            assert forall|n: u64| !list.contains(n) implies !#[trigger] rest.contains(n) by {}
        }
    }
}

/// Merges the entries of one folder that have the same name.
#[verifier::spinoff_prover]
fn dedupe(entries: &mut HashMap<u64, MftEntry>, list: &Vec<u64>) -> (ok: bool)
    requires
        list_ok(entry_views(old(entries)@), list@),
    ensures
        ok == (deduped(entry_views(old(entries)@), list@) is Some),
        ok ==> entry_views(final(entries)@) == (deduped(entry_views(old(entries)@), list@)->0).0,
{
    broadcast use vstd::std_specs::hash::group_hash_axioms;

    let ghost start = entry_views(entries@);
    let mut names: StringHashMap<u64> = StringHashMap::new();
    let mut i: usize = 0;
    assert(list@.take(0) == Seq::<u64>::empty());
    while i < list.len()
        invariant
            i <= list@.len(),
            start == entry_views(old(entries)@),
            list_ok(start, list@),
            deduped(start, list@.take(i as int)) == Some((entry_views(entries@), names@)),
        decreases list@.len() - i,
    {
        let number = list[i];
        let ghost done = list@.take(i as int);
        let ghost before = entry_views(entries@);
        let ghost old_names = names@;
        proof {
            assert(list@.take(i + 1).drop_last() == done);
            assert(list@.take(i + 1).last() == number);
            assert(list_ok(start, done)) by {
                assert forall|k: int| 0 <= k < done.len() implies start.contains_key(
                    #[trigger] done[k],
                ) by {
                    assert(done[k] == list@[k]);
                }
            }
            lemma_deduped(start, done);
            assert(dedupe_facts(start, done, before, names@));
            assert(!done.contains(number)) by {
                if done.contains(number) {
                    let k = choose|k: int| 0 <= k < done.len() && done[k] == number;
                    assert(list@[k] == list@[i as int]);
                }
            }
            assert(start.contains_key(list@[i as int]));
            assert(before.contains_key(number));
        }
        let mut entry = match entries.remove(&number) {
            Some(entry) => entry,
            None => {
                assert(false);
                return false;
            },
        };
        let ghost own = entry@;
        assert(before[number] == own);
        let name = entry.name.clone();
        let known: Option<u64> = match names.get(name.as_str()) {
            Some(old) => Some(*old),
            None => None,
        };
        if let Some(old_number) = known {
            proof {
                assert(old_names.contains_key(own.name));
                assert(old_names[own.name] == old_number);
                assert(done.contains(old_number));
                assert(before.contains_key(old_number));
            }
            let old = match entries.remove(&old_number) {
                Some(old) => old,
                None => {
                    assert(false);
                    return false;
                },
            };
            assert(before[old_number] == old@);
            if old.info_success {
                entry.metadata.attributes = old.metadata.attributes;
                entry.metadata.modified = old.metadata.modified;
            }
            if old.size_success {
                let size = entry.metadata.size.checked_add(old.metadata.size);
                let allocated = entry.metadata.allocated.checked_add(old.metadata.allocated);
                match (size, allocated) {
                    (Some(size), Some(allocated)) => {
                        entry.metadata.size = size;
                        entry.metadata.allocated = allocated;
                    },
                    _ => {
                        proof {
                            lemma_dedupe_fails(start, list@, i + 1);
                        }
                        return false;
                    },
                }
            }
            entry.info_success = false;
            entry.size_success = false;
            assert(entry@ == merged(old@, own));
        }
        let ghost now = entry@;
        names.insert(name, number);
        entries.insert(number, entry);
        proof {
            assert(names@ == old_names.insert(own.name, number));
            if known is Some {
                assert(entry_views(entries@) == before.remove(known->0).insert(number, now));
            } else {
                assert(entry_views(entries@) == before);
            }
        }
        i = i + 1;
    }
    assert(list@.take(i as int) == list@);
    true
}

proof fn lemma_dedupe_fails(entries: Map<u64, EntryView>, list: Seq<u64>, n: int)
    requires
        0 <= n <= list.len(),
        deduped(entries, list.take(n)) is None,
    ensures
        deduped(entries, list) is None,
    decreases list.len(),
{
    if n == list.len() {
        assert(list.take(n) == list);
    } else {
        assert(list.drop_last().take(n) == list.take(n));
        lemma_dedupe_fails(entries, list.drop_last(), n);
    }
}

/// Each entry is in the list of its folder, once, and in no other list.
pub proof fn lemma_grouped(order: Seq<u64>, entries: Map<u64, EntryView>)
    requires
        order.no_duplicates(),
    ensures
        forall|f: u64| #[trigger]
            grouped(order, entries).contains_key(f) ==> grouped(order, entries)[f].no_duplicates(),
        forall|f: u64, i: int|
            #![trigger grouped(order, entries)[f][i]]
            grouped(order, entries).contains_key(f) && 0 <= i < grouped(order, entries)[f].len()
                ==> order.contains(grouped(order, entries)[f][i]) && entries[grouped(
                order,
                entries,
            )[f][i]].parent == f,
        forall|i: int|
            0 <= i < folders_of(order, entries).len() ==> grouped(order, entries).contains_key(
                #[trigger] folders_of(order, entries)[i],
            ),
        folders_of(order, entries).no_duplicates(),
        forall|f: u64| #[trigger]
            grouped(order, entries).contains_key(f) ==> folders_of(order, entries).contains(f),
    decreases order.len(),
{
    if order.len() > 0 {
        let rest = order.drop_last();
        let number = order.last();
        lemma_grouped(rest, entries);
        let before = grouped(rest, entries);
        let after = grouped(order, entries);
        let parent = entries[number].parent;
        assert(order[order.len() - 1] == number);
        assert forall|n: u64| #[trigger] rest.contains(n) implies order.contains(n) && n
            != number by {
            let k = choose|k: int| 0 <= k < rest.len() && rest[k] == n;
            assert(order[k] == n);
        }
        assert forall|f: u64| #[trigger] after.contains_key(f) implies after[f].no_duplicates() by {
            if f == parent {
                let old = list_of(before, f);
                assert forall|i: int, j: int|
                    0 <= i < after[f].len() && 0 <= j < after[f].len() && i
                        != j implies after[f][i] != after[f][j] by {
                    if i < old.len() {
                        assert(rest.contains(before[f][i]));
                    }
                    if j < old.len() {
                        assert(rest.contains(before[f][j]));
                    }
                }
            } else {
                assert(before.contains_key(f));
            }
        }
        assert forall|f: u64, i: int|
            #![trigger after[f][i]]
            after.contains_key(f) && 0 <= i < after[f].len() implies order.contains(after[f][i])
            && entries[after[f][i]].parent == f by {
            let old = list_of(before, f);
            if f == parent {
                if i < old.len() {
                    assert(after[f][i] == before[f][i]);
                }
            } else {
                assert(before.contains_key(f));
                assert(after[f][i] == before[f][i]);
            }
        }
        let old_folders = folders_of(rest, entries);
        let folders = folders_of(order, entries);
        assert forall|i: int| 0 <= i < folders.len() implies after.contains_key(
            #[trigger] folders[i],
        ) by {
            if i < old_folders.len() {
                assert(folders[i] == old_folders[i]);
            }
        }
        assert(folders.no_duplicates()) by {
            if !before.contains_key(parent) {
                assert forall|i: int| 0 <= i < old_folders.len() implies old_folders[i]
                    != parent by {
                    assert(before.contains_key(old_folders[i]));
                }
            }
        }
        assert forall|f: u64| #[trigger] after.contains_key(f) implies folders.contains(f) by {
            if f == parent && !before.contains_key(f) {
                assert(folders[folders.len() - 1] == f);
            } else {
                assert(before.contains_key(f));
                let k = choose|k: int| 0 <= k < old_folders.len() && old_folders[k] == f;
                assert(folders[k] == f);
            }
        }
    }
}

/// Merges the entries with the same name in all folders.
fn dedupe_all(
    entries: &mut HashMap<u64, MftEntry>,
    lists: &HashMap<u64, Vec<u64>>,
    folders: &Vec<u64>,
    order: Ghost<Seq<u64>>,
) -> (ok: bool)
    requires
        order@.no_duplicates(),
        forall|n: u64| #[trigger] order@.contains(n) ==> entry_views(old(entries)@).contains_key(n),
        list_views(lists@) == grouped(order@, entry_views(old(entries)@)),
        folders@ == folders_of(order@, entry_views(old(entries)@)),
    ensures
        ok == (all_deduped(entry_views(old(entries)@), list_views(lists@), folders@) is Some),
        ok ==> all_deduped(entry_views(old(entries)@), list_views(lists@), folders@) == Some(
            entry_views(final(entries)@),
        ),
{
    broadcast use vstd::std_specs::hash::group_hash_axioms;

    let ghost start = entry_views(entries@);
    let ghost groups = list_views(lists@);
    let mut i: usize = 0;
    proof {
        assert(folders@.take(0) == Seq::<u64>::empty());
        lemma_grouped(order@, start);
        assert forall|k: int| 0 <= k < folders@.len() implies list_ok(
            start,
            groups[#[trigger] folders@[k]],
        ) by {
            let f = folders@[k];
            assert(groups.contains_key(f));
            assert forall|j: int| 0 <= j < groups[f].len() implies start.contains_key(
                #[trigger] groups[f][j],
            ) by {
                assert(order@.contains(groups[f][j]));
            }
        }
    }
    while i < folders.len()
        invariant
            i <= folders@.len(),
            start == entry_views(old(entries)@),
            groups == list_views(lists@),
            groups == grouped(order@, start),
            folders@ == folders_of(order@, start),
            order@.no_duplicates(),
            all_deduped(start, groups, folders@.take(i as int)) == Some(entry_views(entries@)),
            forall|k: int|
                i <= k < folders@.len() ==> list_ok(
                    entry_views(entries@),
                    groups[#[trigger] folders@[k]],
                ),
        decreases folders@.len() - i,
    {
        let folder = folders[i];
        let ghost before = entry_views(entries@);
        proof {
            assert(folders@.take(i + 1).drop_last() == folders@.take(i as int));
            assert(folders@.take(i + 1).last() == folder);
            lemma_grouped(order@, start);
            assert(groups.contains_key(folders@[i as int]));
            assert(list_ok(before, groups[folders@[i as int]]));
        }
        if let Some(list) = lists.get(&folder) {
            assert(groups[folder] == list@);
            if !dedupe(entries, list) {
                proof {
                    lemma_all_dedupe_fails(start, groups, folders@, i + 1);
                }
                return false;
            }
            proof {
                let after = entry_views(entries@);
                lemma_deduped(before, list@);
                assert forall|k: int| i + 1 <= k < folders@.len() implies list_ok(
                    after,
                    groups[#[trigger] folders@[k]],
                ) by {
                    let f = folders@[k];
                    assert(list_ok(before, groups[f]));
                    assert(f != folder);
                    assert(groups.contains_key(f));
                    assert forall|j: int| 0 <= j < groups[f].len() implies after.contains_key(
                        #[trigger] groups[f][j],
                    ) by {
                        let n = groups[f][j];
                        assert(before.contains_key(n));
                        assert(!list@.contains(n)) by {
                            if list@.contains(n) {
                                let m = choose|m: int| 0 <= m < list@.len() && list@[m] == n;
                                assert(start[groups[folder][m]].parent == folder);
                                assert(start[groups[f][j]].parent == f);
                            }
                        }
                    }
                }
            }
        }
        i = i + 1;
    }
    assert(folders@.take(i as int) == folders@);
    true
}

proof fn lemma_all_dedupe_fails(
    entries: Map<u64, EntryView>,
    lists: Map<u64, Seq<u64>>,
    folders: Seq<u64>,
    n: int,
)
    requires
        0 <= n <= folders.len(),
        all_deduped(entries, lists, folders.take(n)) is None,
    ensures
        all_deduped(entries, lists, folders) is None,
    decreases folders.len(),
{
    if n == folders.len() {
        assert(folders.take(n) == folders);
    } else {
        assert(folders.drop_last().take(n) == folders.take(n));
        lemma_all_dedupe_fails(entries, lists, folders.drop_last(), n);
    }
}

/// A folder whose entries are being visited.
#[verifier::ext_equal]
pub struct MftFrameView {
    /// The entries that come next.
    pub list: Seq<u64>,
    /// The path of the folder, relative to the root and with a separator at its
    /// end.
    pub path: Seq<char>,
}

/// A walk over all entries.
#[verifier::ext_equal]
pub struct MftWalkView {
    /// The entries that have not been visited.
    pub entries: Map<u64, EntryView>,
    pub lists: Map<u64, Seq<u64>>,
    pub frames: Seq<MftFrameView>,
}

/// An entry that is visited.
#[verifier::ext_equal]
pub struct MftVisitView {
    pub number: u64,
    pub entry: EntryView,
    /// The path relative to the root.
    pub path: Seq<char>,
    /// Whether there are entries inside it.
    pub has_entries: bool,
}

/// The number of steps until a walk is over.
pub open spec fn steps_left(frames: Seq<MftFrameView>) -> nat
    decreases frames.len(),
{
    if frames.len() == 0 {
        0
    } else {
        steps_left(frames.drop_last()) + 1 + frames.last().list.len()
    }
}

impl MftWalkView {
    pub open spec fn skipped(self) -> MftWalkView {
        let top = self.frames.last();
        MftWalkView {
            frames: self.frames.drop_last().push(
                MftFrameView { list: top.list.skip(1), ..top },
            ),
            ..self
        }
    }

    pub open spec fn closed(self) -> MftWalkView {
        MftWalkView { frames: self.frames.drop_last(), ..self }
    }

    /// The walk after the next entry of the innermost folder, which exists, was
    /// visited. Its own entries come next.
    pub open spec fn visited(self) -> MftWalkView {
        let top = self.frames.last();
        let number = top.list[0];
        let path = top.path + self.entries[number].name + seq![DEFAULT_PATH_SEPARATOR];
        let frames = self.skipped().frames;
        MftWalkView {
            entries: self.entries.remove(number),
            frames: if self.lists.contains_key(number) {
                frames.push(MftFrameView { list: self.lists[number], path })
            } else {
                frames
            },
            ..self
        }
    }

    pub open spec fn visit(self) -> MftVisitView {
        let top = self.frames.last();
        let number = top.list[0];
        MftVisitView {
            number,
            entry: self.entries[number],
            path: top.path + self.entries[number].name,
            has_entries: self.lists.contains_key(number),
        }
    }

    /// The next entry and the walk after it. Entries that do not exist or were
    /// visited before are left out.
    pub open spec fn next(self) -> (Option<MftVisitView>, MftWalkView)
        decreases steps_left(self.frames),
    {
        if self.frames.len() == 0 {
            (None, self)
        } else {
            let top = self.frames.last();
            if top.list.len() == 0 {
                self.closed().next()
            } else if self.entries.contains_key(top.list[0]) {
                (Some(self.visit()), self.visited())
            } else {
                proof {
                    assert(self.skipped().frames.drop_last() == self.frames.drop_last());
                }
                self.skipped().next()
            }
        }
    }
}

struct MftFrame {
    number: u64,
    next: usize,
    path: String,
}

/// A walk over the files and folders below the root of a volume.
pub struct MftWalk {
    entries: HashMap<u64, MftEntry>,
    lists: HashMap<u64, Vec<u64>>,
    frames: Vec<MftFrame>,
}

/// An entry that is visited.
pub struct MftVisit {
    pub number: u64,
    pub entry: MftEntry,
    /// The path relative to the root.
    pub path: String,
    pub has_entries: bool,
}

impl View for MftVisit {
    type V = MftVisitView;

    open spec fn view(&self) -> MftVisitView {
        MftVisitView {
            number: self.number,
            entry: self.entry@,
            path: self.path@,
            has_entries: self.has_entries,
        }
    }
}

spec fn frame_view(frame: MftFrame, lists: Map<u64, Seq<u64>>) -> MftFrameView {
    MftFrameView {
        list: list_of(lists, frame.number).skip(frame.next as int),
        path: frame.path@,
    }
}

impl View for MftWalk {
    type V = MftWalkView;

    closed spec fn view(&self) -> MftWalkView {
        let lists = list_views(self.lists@);
        MftWalkView {
            entries: entry_views(self.entries@),
            lists,
            frames: self.frames@.map_values(|f: MftFrame| frame_view(f, lists)),
        }
    }
}

/// The start of a walk over the entries of a table, with the entry of the root.
/// `None` if there is no root or sizes of entries with the same name cannot be
/// added.
pub open spec fn walk_start(order: Seq<u64>, entries: Map<u64, EntryView>) -> Option<
    (EntryView, MftWalkView),
> {
    let lists = grouped(order, entries);
    match all_deduped(entries, lists, folders_of(order, entries)) {
        Some(merged) if merged.contains_key(ROOT_RECORD) => Some(
            (
                merged[ROOT_RECORD],
                MftWalkView {
                    entries: merged.remove(ROOT_RECORD),
                    lists,
                    frames: seq![
                        MftFrameView { list: list_of(lists, ROOT_RECORD), path: seq![] },
                    ],
                },
            ),
        ),
        _ => None,
    }
}

impl MftWalk {
    pub closed spec fn wf(self) -> bool {
        forall|i: int|
            0 <= i < self.frames@.len() ==> (#[trigger] self.frames@[i]).next <= list_of(
                list_views(self.lists@),
                self.frames@[i].number,
            ).len()
    }

    /// Starts at the root folder, whose entry is given as well. Entries of a folder
    /// with the same name are merged.
    pub fn new(table: MftTable) -> (result: Option<(MftEntry, Self)>)
        requires
            table.wf(),
        ensures
            result is Some <==> walk_start(table.order(), table.entries()) is Some,
            result matches Some((root, walk)) ==> walk.wf() && walk_start(
                table.order(),
                table.entries(),
            ) == Some((root@, walk@)),
    {
        broadcast use vstd::std_specs::hash::group_hash_axioms;

        let ghost start = table.entries();
        let ghost order = table.order();
        let mut entries = table.entries;
        proof {
            assert forall|i: int| 0 <= i < order.len() implies entries@.contains_key(
                #[trigger] order[i],
            ) by {
                assert(order.contains(order[i]));
                assert(start.contains_key(order[i]));
            }
            assert forall|n: u64| #[trigger] order.contains(n) implies start.contains_key(n) by {}
        }
        let (lists, folders) = group_entries(&table.order, &entries);
        if !dedupe_all(&mut entries, &lists, &folders, Ghost(order)) {
            return None;
        }
        let ghost merged = entry_views(entries@);
        let root = match entries.remove(&ROOT_RECORD) {
            Some(root) => root,
            None => {
                return None;
            },
        };
        let mut frames: Vec<MftFrame> = Vec::new();
        frames.push(MftFrame { number: ROOT_RECORD, next: 0, path: String::new() });
        let walk = MftWalk { entries, lists, frames };
        proof {
            let groups = list_views(lists@);
            assert(entry_views(entries@) == merged.remove(ROOT_RECORD));
            assert(list_of(groups, ROOT_RECORD).skip(0) == list_of(groups, ROOT_RECORD));
            assert(walk@.frames =~= seq![
                MftFrameView { list: list_of(groups, ROOT_RECORD), path: seq![] },
            ]);
        }
        Some((root, walk))
    }

    /// The next entry, folders come before everything inside them. Each entry is
    /// given once.
    #[verifier::spinoff_prover]
    pub fn next(&mut self) -> (visit: Option<MftVisit>)
        requires
            old(self).wf(),
        ensures
            final(self).wf(),
            final(self)@ == old(self)@.next().1,
            visit is Some <==> old(self)@.next().0 is Some,
            visit matches Some(visit) ==> old(self)@.next().0 == Some(visit@),
    {
        broadcast use vstd::std_specs::hash::group_hash_axioms;

        let ghost all = self@.next();
        loop
            invariant
                self.wf(),
                self@.next() == all,
                all == old(self)@.next(),
            decreases steps_left(self@.frames),
        {
            let ghost before = *self;
            let ghost groups = list_views(self.lists@);
            let count: usize = self.frames.len();
            if count == 0 {
                return None;
            }
            let at: usize = count - 1;
            let number: u64 = self.frames[at].number;
            let next: usize = self.frames[at].next;
            let entry_number: Option<u64> = match self.lists.get(&number) {
                Some(list) => {
                    assert(groups[number] == list@);
                    if next < list.len() {
                        Some(list[next])
                    } else {
                        None
                    }
                },
                None => None,
            };
            let ghost top = before@.frames.last();
            proof {
                assert(before@.frames[at as int] == frame_view(before.frames@[at as int], groups));
                assert(before.frames@[at as int].next <= list_of(groups, number).len());
                if entry_number is Some {
                    assert(top.list[0] == entry_number->0);
                }
            }
            let entry_number: u64 = match entry_number {
                Some(entry_number) => entry_number,
                None => {
                    self.frames.pop();
                    proof {
                        assert(self@.frames =~= before@.frames.drop_last());
                        assert(self@ == before@.closed());
                    }
                    continue;
                },
            };
            self.frames[at].next = next + 1;
            let ghost stepped = *self;
            proof {
                assert(top.list.skip(1) == list_of(groups, number).skip(next + 1));
                assert(stepped@.frames =~= before@.skipped().frames);
                assert(stepped@ == before@.skipped());
                assert(before@.skipped().frames.drop_last() =~= before@.frames.drop_last());
                assert(before@.skipped().frames.last() == (MftFrameView {
                    list: top.list.skip(1),
                    ..top
                }));
            }
            let entry = match self.entries.remove(&entry_number) {
                Some(entry) => entry,
                None => {
                    assert(self.entries@ == stepped.entries@);
                    continue;
                },
            };
            assert(entry_views(self.entries@) == before@.entries.remove(entry_number));
            let mut path: String = self.frames[at].path.clone();
            path.append(entry.name.as_str());
            let has_entries = self.lists.contains_key(&entry_number);
            if has_entries {
                let mut folder: String = path.clone();
                folder.push(DEFAULT_PATH_SEPARATOR);
                let ghost folder_path = folder@;
                self.frames.push(MftFrame { number: entry_number, next: 0, path: folder });
                proof {
                    assert(folder_path == top.path + entry@.name + seq![DEFAULT_PATH_SEPARATOR]);
                    assert(list_of(groups, entry_number).skip(0) == groups[entry_number]);
                    assert(self@.frames =~= stepped@.frames.push(
                        MftFrameView { list: groups[entry_number], path: folder_path },
                    ));
                }
            }
            proof {
                assert(self@ == before@.visited());
                assert(path@ == top.path + entry@.name);
            }
            return Some(MftVisit { number: entry_number, entry, path, has_entries });
        }
    }
}

/// What the file system says about an entry whose record is incomplete.
#[derive(Clone, Copy, PartialEq, Eq, Structural)]
pub struct RecoveredInfo {
    pub size: u64,
    pub modified: Option<Timestamp>,
    pub attributes: u32,
}

/// The metadata of an entry after asking the file system about it.
pub open spec fn recovered_metadata(
    entry: EntryView,
    recovered: Option<RecoveredInfo>,
) -> FsEntryMetadata {
    match recovered {
        Some(found) => {
            let first = if entry.size_success {
                entry.metadata
            } else {
                FsEntryMetadata { size: found.size, allocated: found.size, ..entry.metadata }
            };
            if entry.info_success {
                first
            } else {
                FsEntryMetadata {
                    modified: match found.modified {
                        Some(modified) => modified,
                        None => first.modified,
                    },
                    attributes: found.attributes as u64,
                    ..first
                }
            }
        },
        None => entry.metadata,
    }
}

/// The record of an entry. Anything with entries inside it is a folder, and the
/// paths of folders end with a separator.
pub open spec fn visit_record(
    visit: MftVisitView,
    root: Seq<char>,
    recovered: Option<RecoveredInfo>,
) -> RecordView {
    let info = recovered_metadata(visit.entry, recovered);
    let path = root + visit.path;
    if info.is_dir || visit.has_entries {
        FsEntryMetadata { is_dir: true, ..info }.record(path + seq![DEFAULT_PATH_SEPARATOR])
    } else {
        info.record(path)
    }
}

impl MftVisit {
    /// Whether the file system has to be asked about the entry.
    pub fn is_incomplete(&self) -> (result: bool)
        ensures
            result == (!self.entry.size_success || !self.entry.info_success),
    {
        !self.entry.size_success || !self.entry.info_success
    }

    /// The path relative to the root, with `/` as its separator.
    pub fn relative_path(&self) -> (path: String)
        ensures
            path@ == replaced(self.path@, DEFAULT_PATH_SEPARATOR, '/'),
    {
        replace_char(self.path.as_str(), DEFAULT_PATH_SEPARATOR, '/')
    }

    /// The record of the entry below a root with the given path.
    pub fn to_record(&self, root: &str, recovered: Option<RecoveredInfo>) -> (record:
        WizTreeCsvRecord)
        ensures
            record@ == visit_record(self@, root@, recovered),
    {
        let mut info: FsEntryMetadata = self.entry.metadata;
        if let Some(found) = recovered {
            if !self.entry.size_success {
                info.size = found.size;
                info.allocated = found.size;
            }
            if !self.entry.info_success {
                if let Some(modified) = found.modified {
                    info.modified = modified;
                }
                info.attributes = found.attributes as u64;
            }
        }
        assert(info == recovered_metadata(self.entry@, recovered));
        let mut path: String = root.to_owned();
        path.append(self.path.as_str());
        if info.is_dir || self.has_entries {
            info.is_dir = true;
            path.push(DEFAULT_PATH_SEPARATOR);
        }
        let mut record = info.to_csv_record_without_filename();
        record.file_name = path;
        record
    }
}

/// The path of the root with a separator at its end.
pub open spec fn root_folder_path(path: Seq<char>) -> Seq<char> {
    if ends_with_separator(path) {
        path
    } else {
        path.push(DEFAULT_PATH_SEPARATOR)
    }
}

/// The path of the root with a separator at its end.
pub fn root_path(path: &str) -> (full: String)
    ensures
        full@ == root_folder_path(path@),
{
    let mut full: String = path.to_owned();
    if !text_ends_with_separator(path) {
        full.push(DEFAULT_PATH_SEPARATOR);
    }
    full
}

/// The record of the root folder.
pub fn root_record(entry: &MftEntry, path: &str) -> (record: WizTreeCsvRecord)
    ensures
        record@ == entry.metadata.record(root_folder_path(path@)),
{
    let mut record = entry.metadata.to_csv_record_without_filename();
    record.file_name = root_path(path);
    record
}

/// A walk gives each entry once: what it gives had not been visited and is not
/// given again.
pub proof fn law_entries_are_visited_once(walk: MftWalkView)
    ensures
        walk.next().0 matches Some(visit) ==> {
            &&& walk.entries.contains_key(visit.number)
            &&& visit.entry == walk.entries[visit.number]
            &&& walk.next().1.entries == walk.entries.remove(visit.number)
        },
        walk.next().0 is None ==> walk.next().1.entries == walk.entries,
    decreases steps_left(walk.frames),
{
    if walk.frames.len() > 0 {
        if walk.frames.last().list.len() == 0 {
            law_entries_are_visited_once(walk.closed());
        } else if !walk.entries.contains_key(walk.frames.last().list[0]) {
            assert(walk.skipped().frames.drop_last() == walk.frames.drop_last());
            law_entries_are_visited_once(walk.skipped());
        }
    }
}

} // verus!
