//! The order in which the children of a folder are listed: alphabetically but
//! with folders before files.
use vstd::prelude::*;

use icu::collator::options::{CollatorOptions, Strength};
use icu::collator::Collator;

verus! {

/// The sort key of a text for the root locale, at a strength that ignores the
/// case of letters, as `CollatorBorrowed::write_sort_key_to` writes it.
pub uninterp spec fn collation_key(text: Seq<char>) -> Seq<u8>;

/// Bytewise order: the first different byte decides, a prefix comes first.
pub open spec fn bytes_less(a: Seq<u8>, b: Seq<u8>) -> bool
    decreases b.len(),
{
    if b.len() == 0 {
        false
    } else if a.len() == 0 {
        true
    } else if a[0] == b[0] {
        bytes_less(a.drop_first(), b.drop_first())
    } else {
        a[0] < b[0]
    }
}

proof fn lemma_bytes_less_irreflexive(a: Seq<u8>)
    ensures
        !bytes_less(a, a),
    decreases a.len(),
{
    if a.len() > 0 {
        lemma_bytes_less_irreflexive(a.drop_first());
    }
}

proof fn lemma_bytes_less_transitive(a: Seq<u8>, b: Seq<u8>, c: Seq<u8>)
    requires
        bytes_less(a, b),
        bytes_less(b, c),
    ensures
        bytes_less(a, c),
    decreases b.len(),
{
    if a.len() > 0 && b.len() > 0 && c.len() > 0 && a[0] == b[0] && b[0] == c[0] {
        lemma_bytes_less_transitive(a.drop_first(), b.drop_first(), c.drop_first());
    }
}

proof fn lemma_bytes_less_total(a: Seq<u8>, b: Seq<u8>)
    ensures
        bytes_less(a, b) || bytes_less(b, a) || a == b,
    decreases a.len(),
{
    if a.len() > 0 && b.len() > 0 && a[0] == b[0] {
        lemma_bytes_less_total(a.drop_first(), b.drop_first());
        if a.drop_first() == b.drop_first() {
            assert(a == seq![a[0]] + a.drop_first());
            assert(b == seq![b[0]] + b.drop_first());
        }
    } else if a.len() == 0 && b.len() == 0 {
        assert(a == b);
    }
}

/// Calls `CollatorBorrowed::compare` with a collator for the root locale at the
/// secondary strength. Its result is negative, zero or positive. It is the same as
/// the bytewise comparison of the sort keys of both texts.
#[verifier::external_body]
fn collate(a: &str, b: &str) -> (order: i8)
    ensures
        order < 0 <==> bytes_less(collation_key(a@), collation_key(b@)),
        order > 0 <==> bytes_less(collation_key(b@), collation_key(a@)),
        order == 0 <==> collation_key(a@) == collation_key(b@),
{
    let mut options = CollatorOptions::default();
    options.strength = Some(Strength::Secondary);
    let collator = Collator::try_new(Default::default(), options).expect("baked collation data");
    match collator.compare(a, b) {
        std::cmp::Ordering::Less => -1,
        std::cmp::Ordering::Equal => 0,
        std::cmp::Ordering::Greater => 1,
    }
}

/// Whether the entry number `i` is listed before the entry number `j`. Each entry
/// is a name and whether it is a folder. Entries that compare equal keep their
/// order.
pub open spec fn listed_before(entries: Seq<(Seq<char>, bool)>, i: int, j: int) -> bool {
    let a = entries[i];
    let b = entries[j];
    if a.1 != b.1 {
        a.1
    } else {
        ||| bytes_less(collation_key(a.0), collation_key(b.0))
        ||| collation_key(a.0) == collation_key(b.0) && i < j
    }
}

/// Whether `order` holds the numbers from `start` until `end` in the order in
/// which the entries are listed.
pub open spec fn is_order_of(
    entries: Seq<(Seq<char>, bool)>,
    order: Seq<int>,
    start: int,
    end: int,
) -> bool {
    &&& order.len() == end - start
    &&& forall|i: int| #[trigger] order.contains(i) <==> start <= i < end
    &&& forall|a: int, b: int|
        #![trigger order[a], order[b]]
        0 <= a < b < order.len() ==> listed_before(entries, order[a], order[b])
}

/// The numbers of all entries in the order in which they are listed.
pub open spec fn listing_order(entries: Seq<(Seq<char>, bool)>) -> Seq<int> {
    choose|order: Seq<int>| #[trigger] is_order_of(entries, order, 0, entries.len() as int)
}

proof fn lemma_before_transitive(entries: Seq<(Seq<char>, bool)>, i: int, j: int, k: int)
    requires
        listed_before(entries, i, j),
        listed_before(entries, j, k),
    ensures
        listed_before(entries, i, k),
{
    let a = collation_key(entries[i].0);
    let b = collation_key(entries[j].0);
    let c = collation_key(entries[k].0);
    if bytes_less(a, b) && bytes_less(b, c) {
        lemma_bytes_less_transitive(a, b, c);
    }
}

pub proof fn lemma_before_irreflexive(entries: Seq<(Seq<char>, bool)>, i: int)
    ensures
        !listed_before(entries, i, i),
{
    lemma_bytes_less_irreflexive(collation_key(entries[i].0));
}

/// An entry that is listed before another one of its kind does not have a larger key.
pub proof fn lemma_listed_keys(entries: Seq<(Seq<char>, bool)>, i: int, j: int)
    requires
        listed_before(entries, i, j),
        entries[i].1 == entries[j].1,
    ensures
        !bytes_less(collation_key(entries[j].0), collation_key(entries[i].0)),
{
    let a = collation_key(entries[i].0);
    let b = collation_key(entries[j].0);
    lemma_bytes_less_irreflexive(a);
    if bytes_less(a, b) && bytes_less(b, a) {
        lemma_bytes_less_transitive(a, b, a);
    }
}

proof fn lemma_before_total(entries: Seq<(Seq<char>, bool)>, i: int, j: int)
    ensures
        i == j || listed_before(entries, i, j) || listed_before(entries, j, i),
{
    lemma_bytes_less_total(collation_key(entries[i].0), collation_key(entries[j].0));
}

/// Two lists of the same numbers that are both in listing order are the same.
proof fn lemma_order_unique(entries: Seq<(Seq<char>, bool)>, a: Seq<int>, b: Seq<int>)
    requires
        a.len() == b.len(),
        forall|i: int| #[trigger] a.contains(i) ==> b.contains(i),
        forall|i: int| #[trigger] b.contains(i) ==> a.contains(i),
        forall|i: int, j: int|
            #![trigger a[i], a[j]]
            0 <= i < j < a.len() ==> listed_before(entries, a[i], a[j]),
        forall|i: int, j: int|
            #![trigger b[i], b[j]]
            0 <= i < j < b.len() ==> listed_before(entries, b[i], b[j]),
    ensures
        a == b,
    decreases a.len(),
{
    if a.len() > 0 {
        let n = a.len() - 1;
        assert(a.contains(a[n]) && b.contains(b[n]));
        let ia = choose|i: int| 0 <= i < a.len() && a[i] == b[n];
        let ib = choose|i: int| 0 <= i < b.len() && b[i] == a[n];
        assert(a.contains(b[n]));
        assert(b.contains(a[n]));
        if a[n] != b[n] {
            assert(listed_before(entries, a[ia], a[n]));
            assert(listed_before(entries, b[ib], b[n]));
            lemma_before_transitive(entries, a[n], b[n], a[n]);
            lemma_before_irreflexive(entries, a[n]);
        }
        lemma_before_irreflexive(entries, a[n]);
        let a2 = a.drop_last();
        let b2 = b.drop_last();
        assert forall|i: int| #[trigger] a2.contains(i) implies b2.contains(i) by {
            let p = choose|p: int| 0 <= p < a2.len() && a2[p] == i;
            assert(a[p] == i);
            assert(a.contains(i));
            let q = choose|q: int| 0 <= q < b.len() && b[q] == i;
            assert(listed_before(entries, a[p], a[n]));
            assert(q != n);
            assert(b2[q] == i);
        }
        assert forall|i: int| #[trigger] b2.contains(i) implies a2.contains(i) by {
            let p = choose|p: int| 0 <= p < b2.len() && b2[p] == i;
            assert(b[p] == i);
            assert(b.contains(i));
            let q = choose|q: int| 0 <= q < a.len() && a[q] == i;
            assert(listed_before(entries, b[p], b[n]));
            assert(q != n);
            assert(a2[q] == i);
        }
        lemma_order_unique(entries, a2, b2);
        assert(a == a2.push(a[n]));
        assert(b == b2.push(b[n]));
    }
}

/// An order is the listing order.
proof fn lemma_is_listing_order(entries: Seq<(Seq<char>, bool)>, order: Seq<int>)
    requires
        is_order_of(entries, order, 0, entries.len() as int),
    ensures
        listing_order(entries) == order,
{
    let chosen = listing_order(entries);
    assert(is_order_of(entries, chosen, 0, entries.len() as int));
    assert forall|i: int| #[trigger] chosen.contains(i) implies order.contains(i) by {
        assert(0 <= i < entries.len());
    }
    assert forall|i: int| #[trigger] order.contains(i) implies chosen.contains(i) by {
        assert(0 <= i < entries.len());
    }
    lemma_order_unique(entries, chosen, order);
}

/// Names with whether they belong to folders.
pub open spec fn name_views(names: Seq<(String, bool)>) -> Seq<(Seq<char>, bool)> {
    names.map_values(|n: (String, bool)| (n.0@, n.1))
}

pub open spec fn as_ints(numbers: Seq<usize>) -> Seq<int> {
    numbers.map_values(|n: usize| n as int)
}

fn goes_before(names: &Vec<(String, bool)>, i: usize, j: usize) -> (result: bool)
    requires
        i < names@.len(),
        j < names@.len(),
    ensures
        result == listed_before(name_views(names@), i as int, j as int),
{
    let ghost views = name_views(names@);
    assert(views[i as int] == (names@[i as int].0@, names@[i as int].1));
    assert(views[j as int] == (names@[j as int].0@, names@[j as int].1));
    if names[i].1 != names[j].1 {
        names[i].1
    } else {
        let order: i8 = collate(names[i].0.as_str(), names[j].0.as_str());
        order < 0 || order == 0 && i < j
    }
}

/// Merges two sorted lists of numbers.
fn merge(names: &Vec<(String, bool)>, left: Vec<usize>, right: Vec<usize>, bounds: Ghost<
    (int, int, int),
>) -> (merged: Vec<usize>)
    requires
        0 <= bounds@.0 <= bounds@.1 <= bounds@.2 <= names@.len(),
        is_order_of(name_views(names@), as_ints(left@), bounds@.0, bounds@.1),
        is_order_of(name_views(names@), as_ints(right@), bounds@.1, bounds@.2),
    ensures
        is_order_of(name_views(names@), as_ints(merged@), bounds@.0, bounds@.2),
{
    let ghost entries = name_views(names@);
    let ghost l = as_ints(left@);
    let ghost r = as_ints(right@);
    let mut merged: Vec<usize> = Vec::new();
    let mut i: usize = 0;
    let mut j: usize = 0;
    proof {
        lemma_members(l, bounds@.0, bounds@.1);
        lemma_members(r, bounds@.1, bounds@.2);
    }
    while i < left.len() || j < right.len()
        invariant
            i <= left@.len(),
            j <= right@.len(),
            entries == name_views(names@),
            l == as_ints(left@),
            r == as_ints(right@),
            0 <= bounds@.0 <= bounds@.1 <= bounds@.2 <= names@.len(),
            is_order_of(entries, l, bounds@.0, bounds@.1),
            is_order_of(entries, r, bounds@.1, bounds@.2),
            forall|a: int| 0 <= a < l.len() ==> bounds@.0 <= #[trigger] l[a] < bounds@.1,
            forall|a: int| 0 <= a < r.len() ==> bounds@.1 <= #[trigger] r[a] < bounds@.2,
            merged@.len() == i + j,
            forall|a: int, b: int|
                #![trigger merged@[a], merged@[b]]
                0 <= a < b < merged@.len() ==> listed_before(
                    entries,
                    merged@[a] as int,
                    merged@[b] as int,
                ),
            forall|a: int, b: int|
                #![trigger merged@[a], l[b]]
                0 <= a < merged@.len() && i <= b < l.len() ==> listed_before(
                    entries,
                    merged@[a] as int,
                    l[b],
                ),
            forall|a: int, b: int|
                #![trigger merged@[a], r[b]]
                0 <= a < merged@.len() && j <= b < r.len() ==> listed_before(
                    entries,
                    merged@[a] as int,
                    r[b],
                ),
            forall|a: int| 0 <= a < i ==> as_ints(merged@).contains(#[trigger] l[a]),
            forall|a: int| 0 <= a < j ==> as_ints(merged@).contains(#[trigger] r[a]),
            forall|a: int|
                0 <= a < merged@.len() ==> bounds@.0 <= #[trigger] merged@[a] < bounds@.2,
        decreases left@.len() - i + right@.len() - j,
    {
        let ghost before = merged@;
        let take_left: bool = if i >= left.len() {
            false
        } else if j >= right.len() {
            true
        } else {
            assert(l[i as int] == left@[i as int] && r[j as int] == right@[j as int]);
            goes_before(names, left[i], right[j])
        };
        let next: usize = if take_left {
            left[i]
        } else {
            right[j]
        };
        proof {
            if take_left {
                assert(l[i as int] == next);
                assert forall|b: int| j <= b < r.len() implies listed_before(
                    entries,
                    next as int,
                    #[trigger] r[b],
                ) by {
                    assert(listed_before(entries, next as int, r[j as int]));
                    if b > j {
                        lemma_before_transitive(entries, next as int, r[j as int], r[b]);
                    }
                }
            } else {
                assert(r[j as int] == next);
                assert forall|b: int| i <= b < l.len() implies listed_before(
                    entries,
                    next as int,
                    #[trigger] l[b],
                ) by {
                    lemma_before_total(entries, next as int, l[i as int]);
                    assert(listed_before(entries, next as int, l[i as int]));
                    if b > i {
                        lemma_before_transitive(entries, next as int, l[i as int], l[b]);
                    }
                }
            }
        }
        merged.push(next);
        proof {
            let m = as_ints(merged@);
            assert(m[before.len() as int] == next);
            assert forall|a: int| 0 <= a < i implies m.contains(#[trigger] l[a]) by {
                let p = choose|p: int| 0 <= p < before.len() && as_ints(before)[p] == l[a];
                assert(as_ints(before).contains(l[a]));
                assert(m[p] == l[a]);
            }
            assert forall|a: int| 0 <= a < j implies m.contains(#[trigger] r[a]) by {
                let p = choose|p: int| 0 <= p < before.len() && as_ints(before)[p] == r[a];
                assert(as_ints(before).contains(r[a]));
                assert(m[p] == r[a]);
            }
        }
        if take_left {
            i = i + 1;
        } else {
            j = j + 1;
        }
    }
    proof {
        let m = as_ints(merged@);
        assert forall|x: int| #[trigger] m.contains(x) <==> bounds@.0 <= x < bounds@.2 by {
            if bounds@.0 <= x < bounds@.1 {
                assert(l.contains(x));
                let p = choose|p: int| 0 <= p < l.len() && l[p] == x;
                assert(m.contains(l[p]));
            } else if bounds@.1 <= x < bounds@.2 {
                assert(r.contains(x));
                let p = choose|p: int| 0 <= p < r.len() && r[p] == x;
                assert(m.contains(r[p]));
            } else if m.contains(x) {
                let p = choose|p: int| 0 <= p < m.len() && m[p] == x;
                assert(merged@[p] == x);
            }
        }
    }
    merged
}

proof fn lemma_members(list: Seq<int>, start: int, end: int)
    requires
        forall|i: int| #[trigger] list.contains(i) <==> start <= i < end,
    ensures
        forall|a: int| 0 <= a < list.len() ==> start <= #[trigger] list[a] < end,
{
    assert forall|a: int| 0 <= a < list.len() implies start <= #[trigger] list[a] < end by {
        assert(list.contains(list[a]));
    }
}

fn sort_range(names: &Vec<(String, bool)>, start: usize, end: usize) -> (order: Vec<usize>)
    requires
        start <= end <= names@.len(),
    ensures
        is_order_of(name_views(names@), as_ints(order@), start as int, end as int),
    decreases end - start,
{
    if end - start == 0 {
        Vec::new()
    } else if end - start == 1 {
        let mut order: Vec<usize> = Vec::new();
        order.push(start);
        proof {
            let o = as_ints(order@);
            assert(o[0] == start);
        }
        order
    } else {
        let middle: usize = start + (end - start) / 2;
        let left = sort_range(names, start, middle);
        let right = sort_range(names, middle, end);
        merge(names, left, right, Ghost((start as int, middle as int, end as int)))
    }
}

/// The numbers of all entries in the order in which they are listed.
pub fn sort_entries(names: &Vec<(String, bool)>) -> (order: Vec<usize>)
    ensures
        as_ints(order@) == listing_order(name_views(names@)),
        is_order_of(name_views(names@), as_ints(order@), 0, names@.len() as int),
{
    let order = sort_range(names, 0, names.len());
    proof {
        lemma_is_listing_order(name_views(names@), as_ints(order@));
    }
    order
}

spec fn in_order(entries: Seq<(Seq<char>, bool)>, order: Seq<int>) -> bool {
    forall|a: int, b: int|
        #![trigger order[a], order[b]]
        0 <= a < b < order.len() ==> listed_before(entries, order[a], order[b])
}

/// A list in order with one more number at its place.
proof fn lemma_inserted(entries: Seq<(Seq<char>, bool)>, order: Seq<int>, x: int) -> (more: Seq<int>)
    requires
        in_order(entries, order),
        !order.contains(x),
    ensures
        in_order(entries, more),
        more.len() == order.len() + 1,
        forall|i: int| #[trigger] more.contains(i) <==> order.contains(i) || i == x,
    decreases order.len(),
{
    if order.len() == 0 {
        let more = seq![x];
        assert(more[0] == x);
        more
    } else {
        let last = order.last();
        let rest = order.drop_last();
        assert(order[order.len() - 1] == last);
        assert(forall|i: int| #[trigger] order.contains(i) <==> rest.contains(i) || i == last) by {
            assert forall|i: int| #[trigger] order.contains(i) <==> rest.contains(i) || i
                == last by {
                if order.contains(i) {
                    let k = choose|k: int| 0 <= k < order.len() && order[k] == i;
                    if k < rest.len() {
                        assert(rest[k] == i);
                    }
                }
                if rest.contains(i) {
                    let k = choose|k: int| 0 <= k < rest.len() && rest[k] == i;
                    assert(order[k] == i);
                }
            }
        }
        if listed_before(entries, last, x) {
            let more = order.push(x);
            assert(in_order(entries, more)) by {
                assert forall|a: int, b: int|
                    #![trigger more[a], more[b]]
                    0 <= a < b < more.len() implies listed_before(entries, more[a], more[b]) by {
                    if b == order.len() && a < order.len() - 1 {
                        assert(listed_before(entries, order[a], order[order.len() - 1]));
                        lemma_before_transitive(entries, order[a], last, x);
                    }
                }
            }
            assert forall|i: int| #[trigger] more.contains(i) <==> order.contains(i) || i == x by {
                assert(more[order.len() as int] == x);
                if order.contains(i) {
                    let k = choose|k: int| 0 <= k < order.len() && order[k] == i;
                    assert(more[k] == i);
                }
            }
            more
        } else {
            lemma_before_total(entries, last, x);
            assert forall|a: int, b: int|
                #![trigger rest[a], rest[b]]
                0 <= a < b < rest.len() implies listed_before(entries, rest[a], rest[b]) by {
                assert(rest[a] == order[a] && rest[b] == order[b]);
            }
            let before = lemma_inserted(entries, rest, x);
            let more = before.push(last);
            assert(in_order(entries, more)) by {
                assert forall|a: int, b: int|
                    #![trigger more[a], more[b]]
                    0 <= a < b < more.len() implies listed_before(entries, more[a], more[b]) by {
                    if b == before.len() {
                        assert(before.contains(before[a]));
                        if before[a] != x {
                            let k = choose|k: int| 0 <= k < rest.len() && rest[k] == before[a];
                            assert(listed_before(entries, order[k], order[order.len() - 1]));
                        }
                    } else {
                        assert(more[a] == before[a] && more[b] == before[b]);
                    }
                }
            }
            assert forall|i: int| #[trigger] more.contains(i) <==> order.contains(i) || i == x by {
                assert(more[before.len() as int] == last);
                if before.contains(i) {
                    let k = choose|k: int| 0 <= k < before.len() && before[k] == i;
                    assert(more[k] == i);
                }
                if more.contains(i) {
                    let k = choose|k: int| 0 <= k < more.len() && more[k] == i;
                    if k < before.len() {
                        assert(before[k] == i);
                    }
                }
            }
            more
        }
    }
}

proof fn lemma_order_exists(entries: Seq<(Seq<char>, bool)>, n: nat) -> (order: Seq<int>)
    ensures
        is_order_of(entries, order, 0, n as int),
    decreases n,
{
    if n == 0 {
        seq![]
    } else {
        let before = lemma_order_exists(entries, (n - 1) as nat);
        lemma_inserted(entries, before, n - 1)
    }
}

/// Entries can always be listed in order, and the listing has each of them once.
pub proof fn law_listing_has_all_entries(entries: Seq<(Seq<char>, bool)>)
    ensures
        is_order_of(entries, listing_order(entries), 0, entries.len() as int),
{
    let order = lemma_order_exists(entries, entries.len());
    assert(is_order_of(entries, order, 0, entries.len() as int));
}

/// The listing of entries has each of them once. Folders come before files, names do not
/// go down, and entries with names of the same rank stay in order.
pub proof fn law_listings_are_in_order(entries: Seq<(Seq<char>, bool)>, a: int, b: int)
    requires
        0 <= a < b < entries.len(),
    ensures
        ({
            let order = listing_order(entries);
            let first = entries[order[a]];
            let second = entries[order[b]];
            &&& order.len() == entries.len()
            &&& 0 <= order[a] < entries.len()
            &&& order[a] != order[b]
            &&& second.1 ==> first.1
            &&& first.1 == second.1 ==> !bytes_less(
                collation_key(second.0),
                collation_key(first.0),
            )
            &&& first.1 == second.1 && collation_key(first.0) == collation_key(second.0) ==> order[a]
                < order[b]
        }),
{
    let order = listing_order(entries);
    law_listing_has_all_entries(entries);
    assert(order.contains(order[a]));
    assert(order.contains(order[b]));
    assert(listed_before(entries, order[a], order[b]));
    lemma_before_irreflexive(entries, order[a]);
    if entries[order[a]].1 == entries[order[b]].1 {
        lemma_listed_keys(entries, order[a], order[b]);
        lemma_bytes_less_irreflexive(collation_key(entries[order[a]].0));
    }
}

} // verus!
