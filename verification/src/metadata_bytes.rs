//! Store entry metadata inside a byte buffer such as `Vec<u8>`.
use vstd::prelude::*;

use crate::dyn_int::{
    int_bytes, int_end, int_ok, int_value, lemma_int_round_trip, lemma_int_same,
    lemma_int_value_bound, lemma_le_bytes_len, read_dyn_sized_int, same_bytes, smallest_tag,
    tag_max, tag_width, update_dyn_sized_int, write_dyn_sized_int,
};
use crate::metadata::{
    code_ordinal, code_year, concat_ints, date_code, option_ints, FsEntryMetadata,
    MetadataUpdateError,
};
use crate::timestamp::{date_exists, Timestamp};

verus! {

/// Position of the integer number `k` of stored metadata. The first integer
/// follows the header byte.
pub open spec fn nth_int(bytes: Seq<u8>, k: nat) -> int
    decreases k,
{
    if k == 0 {
        1
    } else {
        int_end(bytes, nth_int(bytes, (k - 1) as nat))
    }
}

/// Value of the integer number `k` of stored metadata.
#[verifier::opaque]
pub open spec fn int_at(bytes: Seq<u8>, k: nat) -> int {
    int_value(bytes, nth_int(bytes, k))
}

/// Whether the first `count` integers are complete.
pub open spec fn ints_ok(bytes: Seq<u8>, count: nat) -> bool {
    forall|k: nat| k < count ==> int_ok(bytes, #[trigger] nth_int(bytes, k))
}

/// Total number of bytes according to the header.
pub open spec fn header_len(bytes: Seq<u8>) -> int {
    bytes[0] as int % 128
}

/// Whether the header says that there is drive info.
pub open spec fn header_is_drive(bytes: Seq<u8>) -> bool {
    bytes[0] >= 128
}

/// Number of integers before any drive info.
pub open spec fn drive_start(bytes: Seq<u8>) -> nat {
    if int_at(bytes, 0) != 0 {
        8
    } else {
        6
    }
}

/// Number of integers before the drive info number `j`.
pub open spec fn drive_index(bytes: Seq<u8>, j: nat) -> nat
    decreases j,
{
    if j == 0 {
        drive_start(bytes)
    } else {
        let prev = drive_index(bytes, (j - 1) as nat);
        prev + if int_at(bytes, prev) != 0 {
            2nat
        } else {
            1
        }
    }
}

/// The drive info number `j`.
pub open spec fn drive_value(bytes: Seq<u8>, j: nat) -> Option<u64> {
    let index = drive_index(bytes, j);
    if header_is_drive(bytes) && int_at(bytes, index) != 0 {
        Some(int_at(bytes, index + 1) as u64)
    } else {
        None
    }
}

/// Total number of integers.
pub open spec fn int_count(bytes: Seq<u8>) -> nat {
    if header_is_drive(bytes) {
        drive_index(bytes, 4)
    } else {
        drive_start(bytes)
    }
}

/// The number of direct children that an integer stands for.
pub open spec fn code_children(code: int) -> Option<u32> {
    if code >= 2 {
        Some((code - 2) as u32)
    } else {
        None
    }
}

/// Whether the bytes start with a header and all integers that belong to it.
pub open spec fn layout_ok(bytes: Seq<u8>) -> bool {
    &&& bytes.len() > 0
    &&& header_len(bytes) != 0
    &&& ints_ok(bytes, int_count(bytes))
    &&& int_at(bytes, 0) <= u32::MAX
}

/// Whether the bytes start with stored metadata.
pub open spec fn decodable(bytes: Seq<u8>) -> bool {
    &&& layout_ok(bytes)
    &&& date_exists(code_year(int_at(bytes, 3)), code_ordinal(int_at(bytes, 3)))
    &&& int_at(bytes, 4) < 86400
}

/// The metadata that is stored at the start of some bytes.
pub open spec fn decoded(bytes: Seq<u8>) -> FsEntryMetadata {
    let is_dir = int_at(bytes, 0) != 0;
    FsEntryMetadata {
        size: int_at(bytes, 1) as u64,
        allocated: int_at(bytes, 2) as u64,
        modified: Timestamp {
            year: code_year(int_at(bytes, 3)) as i32,
            ordinal: code_ordinal(int_at(bytes, 3)) as u32,
            secs: int_at(bytes, 4) as u32,
            nanos: 0,
        },
        attributes: int_at(bytes, 5) as u64,
        files: if is_dir {
            int_at(bytes, 6) as u64
        } else {
            0
        },
        folders: if is_dir {
            int_at(bytes, 7) as u64
        } else {
            0
        },
        is_dir,
        children: code_children(int_at(bytes, 0)),
        drive_capacity: drive_value(bytes, 0),
        free_space: drive_value(bytes, 1),
        used_space: drive_value(bytes, 2),
        reserved_space: drive_value(bytes, 3),
    }
}

/// Number of bytes that the stored metadata takes.
pub open spec fn decoded_len(bytes: Seq<u8>) -> int {
    nth_int(bytes, int_count(bytes))
}

/// Integers follow each other.
pub proof fn lemma_nth_int_order(bytes: Seq<u8>, a: nat, b: nat)
    requires
        a <= b,
    ensures
        1 <= nth_int(bytes, a),
        nth_int(bytes, a) + (b - a) <= nth_int(bytes, b),
    decreases b,
{
    if a < b {
        lemma_nth_int_order(bytes, a, (b - 1) as nat);
    } else if b > 0 {
        lemma_nth_int_order(bytes, (b - 1) as nat, (b - 1) as nat);
    }
}

/// The position of an integer depends only on the bytes before it.
pub proof fn lemma_nth_int_same(a: Seq<u8>, b: Seq<u8>, count: nat)
    requires
        same_bytes(a, b, 0, nth_int(a, count)),
    ensures
        forall|k: nat| k <= count ==> #[trigger] nth_int(a, k) == nth_int(b, k),
        forall|k: nat|
            k < count ==> a[#[trigger] nth_int(a, k)] == b[nth_int(a, k)] && int_at(a, k) == int_at(
                b,
                k,
            ),
    decreases count,
{
    reveal(int_at);
    lemma_nth_int_order(a, 0, count);
    if count > 0 {
        let last = (count - 1) as nat;
        lemma_nth_int_order(a, last, count);
        lemma_nth_int_order(a, 0, last);
        lemma_nth_int_same(a, b, last);
        let at = nth_int(a, last);
        assert forall|i: int| at <= i < at + tag_width(a[at]) implies a[i] == #[trigger] b[i
            + 0] by {
            assert(a[i] == b[i]);
        }
        lemma_int_same(a, b, at, 0);
        assert(nth_int(b, count) == nth_int(a, count));
    }
}

/// The number of integers depends only on the integers.
pub proof fn lemma_int_count(bytes: Seq<u8>)
    ensures
        drive_index(bytes, 0) == drive_start(bytes),
        drive_start(bytes) == 6 || drive_start(bytes) == 8,
        drive_index(bytes, 0) < drive_index(bytes, 1) < drive_index(bytes, 2) < drive_index(
            bytes,
            3,
        ) < drive_index(bytes, 4),
        drive_index(bytes, 4) <= 16,
        int_count(bytes) >= drive_start(bytes),
{
    reveal_with_fuel(drive_index, 5);
}

/// Stored metadata is determined by the bytes that it takes.
pub proof fn lemma_decoded_same(a: Seq<u8>, b: Seq<u8>)
    requires
        layout_ok(a),
        decoded_len(a) <= b.len(),
        same_bytes(a, b, 0, decoded_len(a)),
    ensures
        layout_ok(b),
        int_count(b) == int_count(a),
        header_len(b) == header_len(a),
        header_is_drive(b) == header_is_drive(a),
        decodable(a) ==> decodable(b),
        decoded(b) == decoded(a),
        decoded_len(b) == decoded_len(a),
        forall|k: nat| k <= int_count(a) ==> #[trigger] nth_int(b, k) == nth_int(a, k),
        forall|k: nat| k < int_count(a) ==> #[trigger] int_at(b, k) == int_at(a, k),
        forall|j: nat|
            header_is_drive(a) && j <= 4 ==> #[trigger] drive_index(b, j) == drive_index(a, j),
{
    let count = int_count(a);
    lemma_int_count(a);
    lemma_nth_int_order(a, 0, count);
    lemma_nth_int_same(a, b, count);
    assert(a[0] == b[0]);
    assert forall|k: nat| k < count implies #[trigger] int_at(b, k) == int_at(a, k) by {
        assert(nth_int(a, k) == nth_int(b, k));
    }
    reveal_with_fuel(drive_index, 5);
    assert(int_at(b, 0) == int_at(a, 0));
    assert(drive_start(b) == drive_start(a));
    if header_is_drive(a) {
        assert(drive_index(b, 1) == drive_index(a, 1));
        assert(drive_index(b, 2) == drive_index(a, 2));
        assert(drive_index(b, 3) == drive_index(a, 3));
        assert(drive_index(b, 4) == drive_index(a, 4));
    }
    assert forall|k: nat| k < count implies int_ok(b, #[trigger] nth_int(b, k)) by {
        assert(int_ok(a, nth_int(a, k)));
        lemma_nth_int_order(a, (k + 1) as nat, count);
        assert(nth_int(a, (k + 1) as nat) == int_end(a, nth_int(a, k)));
        assert(b[nth_int(a, k)] == a[nth_int(a, k)]);
    }
    if header_is_drive(a) {
        assert(drive_value(b, 0) == drive_value(a, 0));
        assert(drive_value(b, 1) == drive_value(a, 1));
        assert(drive_value(b, 2) == drive_value(a, 2));
        assert(drive_value(b, 3) == drive_value(a, 3));
    }
}

/// The encoding of the first numbers comes first.
proof fn lemma_concat_prefix(values: Seq<int>, k: int)
    requires
        0 <= k <= values.len(),
    ensures
        concat_ints(values.take(k)).len() <= concat_ints(values).len(),
        concat_ints(values).take(concat_ints(values.take(k)).len() as int) == concat_ints(
            values.take(k),
        ),
    decreases values.len(),
{
    if k < values.len() {
        lemma_concat_prefix(values.drop_last(), k);
        assert(values.drop_last().take(k) == values.take(k));
        let rest = concat_ints(values.drop_last());
        let len = concat_ints(values.take(k)).len() as int;
        assert(concat_ints(values).take(len) == rest.take(len));
    } else {
        assert(values.take(k) == values);
        assert(concat_ints(values).take(concat_ints(values).len() as int) == concat_ints(values));
    }
}

pub open spec fn all_u64(values: Seq<int>) -> bool {
    forall|i: int| 0 <= i < values.len() ==> 0 <= #[trigger] values[i] <= u64::MAX
}

/// Encoded numbers can be read back one after the other.
proof fn lemma_concat_read(bytes: Seq<u8>, values: Seq<int>, k: nat)
    requires
        all_u64(values),
        k <= values.len(),
        1 + concat_ints(values).len() <= bytes.len(),
        bytes.subrange(1, 1int + concat_ints(values).len()) == concat_ints(values),
    ensures
        nth_int(bytes, k) == 1 + concat_ints(values.take(k as int)).len(),
        forall|i: nat|
            i < k ==> int_ok(bytes, #[trigger] nth_int(bytes, i)) && int_at(bytes, i) == values[i
                as int],
    decreases k,
{
    reveal(int_at);
    if k > 0 {
        let prev = (k - 1) as nat;
        lemma_concat_read(bytes, values, prev);
        let at = nth_int(bytes, prev);
        let value = values[prev as int];
        lemma_concat_prefix(values, k as int);
        assert(values.take(k as int).drop_last() == values.take(prev as int));
        assert(values.take(k as int).last() == value);
        let all = concat_ints(values);
        let upto = concat_ints(values.take(k as int));
        assert(upto == concat_ints(values.take(prev as int)) + int_bytes(value));
        assert(bytes.subrange(at, at + int_bytes(value).len()) == int_bytes(value)) by {
            assert forall|i: int| 0 <= i < int_bytes(value).len() implies bytes[at + i]
                == int_bytes(value)[i] by {
                assert(bytes.subrange(1, 1int + all.len())[at - 1 + i] == bytes[at + i]);
                assert(all.take(upto.len() as int)[at - 1 + i] == upto[at - 1 + i]);
            }
        }
        lemma_int_round_trip(bytes, at, value);
    } else {
        assert(values.take(0) == Seq::<int>::empty());
    }
}

proof fn lemma_concat_add(a: Seq<int>, b: Seq<int>)
    ensures
        concat_ints(a + b) == concat_ints(a) + concat_ints(b),
    decreases b.len(),
{
    if b.len() == 0 {
        assert(a + b == a);
        assert(concat_ints(a) + concat_ints(b) == concat_ints(a));
    } else {
        lemma_concat_add(a, b.drop_last());
        assert((a + b).drop_last() == a + b.drop_last());
        assert(concat_ints(a) + concat_ints(b) == concat_ints(a) + concat_ints(b.drop_last())
            + int_bytes(b.last()));
    }
}

proof fn lemma_int_bytes_len(value: int)
    ensures
        int_bytes(value).len() == tag_width(smallest_tag(value)),
        0 <= value < 253 ==> int_bytes(value).len() == 1,
        0 <= value <= u32::MAX ==> int_bytes(value).len() <= 5,
        int_bytes(value).len() <= 9,
{
    lemma_le_bytes_len(value, (tag_width(smallest_tag(value)) - 1) as nat);
}

proof fn lemma_option_ints(info: Option<u64>)
    ensures
        all_u64(option_ints(info)),
        concat_ints(option_ints(info)).len() <= 10,
{
    let values = option_ints(info);
    reveal_with_fuel(concat_ints, 3);
    lemma_int_bytes_len(1);
    lemma_int_bytes_len(0);
    lemma_int_bytes_len(values.last());
    if info is Some {
        assert(values.drop_last() == seq![1int]);
        assert(seq![1int].drop_last() == Seq::<int>::empty());
    } else {
        assert(values.drop_last() == Seq::<int>::empty());
    }
}

proof fn lemma_concat_push(values: Seq<int>, value: int)
    ensures
        concat_ints(values.push(value)) == concat_ints(values) + int_bytes(value),
{
    assert(values.push(value).drop_last() == values);
}

proof fn lemma_main_len(info: FsEntryMetadata)
    requires
        info.storable(),
    ensures
        all_u64(info.main_ints()),
        concat_ints(info.main_ints()).len() <= 42,
{
    let v = info.main_ints();
    let s0 = Seq::<int>::empty();
    let s1 = s0.push(v[0]);
    let s2 = s1.push(v[1]);
    let s3 = s2.push(v[2]);
    let s4 = s3.push(v[3]);
    let s5 = s4.push(v[4]);
    lemma_concat_push(s0, v[0]);
    lemma_concat_push(s1, v[1]);
    lemma_concat_push(s2, v[2]);
    lemma_concat_push(s3, v[3]);
    lemma_concat_push(s4, v[4]);
    lemma_concat_push(s5, v[5]);
    assert(v == s5.push(v[5]));
    lemma_date_code(info.modified.year as int, info.modified.ordinal as int);
    lemma_int_bytes_len(v[0]);
    lemma_int_bytes_len(v[1]);
    lemma_int_bytes_len(v[2]);
    lemma_int_bytes_len(v[3]);
    lemma_int_bytes_len(v[4]);
    lemma_int_bytes_len(v[5]);
}

proof fn lemma_count_len(info: FsEntryMetadata)
    ensures
        all_u64(info.count_ints()),
        concat_ints(info.count_ints()).len() <= 18,
{
    let v = info.count_ints();
    if info.is_dir {
        let s0 = Seq::<int>::empty();
        let s1 = s0.push(v[0]);
        lemma_concat_push(s0, v[0]);
        lemma_concat_push(s1, v[1]);
        assert(v == s1.push(v[1]));
        lemma_int_bytes_len(v[0]);
        lemma_int_bytes_len(v[1]);
    }
}

proof fn lemma_drive_len(info: FsEntryMetadata)
    ensures
        all_u64(info.drive_ints()),
        concat_ints(info.drive_ints()).len() <= 40,
{
    if info.spec_has_drive_info() {
        let a = option_ints(info.drive_capacity);
        let b = option_ints(info.free_space);
        let c = option_ints(info.used_space);
        let d = option_ints(info.reserved_space);
        lemma_option_ints(info.drive_capacity);
        lemma_option_ints(info.free_space);
        lemma_option_ints(info.used_space);
        lemma_option_ints(info.reserved_space);
        lemma_concat_add(a + b + c, d);
        lemma_concat_add(a + b, c);
        lemma_concat_add(a, b);
    }
}

/// Metadata never takes more than 101 bytes.
pub proof fn lemma_encoded_len(info: FsEntryMetadata)
    requires
        info.storable(),
    ensures
        all_u64(info.ints()),
        concat_ints(info.ints()).len() <= 100,
{
    let main = info.main_ints();
    let count = info.count_ints();
    let drive = info.drive_ints();
    lemma_concat_add(main + count, drive);
    lemma_concat_add(main, count);
    lemma_main_len(info);
    lemma_count_len(info);
    lemma_drive_len(info);
}

/// One optional number among other numbers.
proof fn lemma_option_at(bytes: Seq<u8>, values: Seq<int>, info: Option<u64>, j: nat)
    requires
        header_is_drive(bytes),
        forall|k: nat| k < values.len() ==> #[trigger] int_at(bytes, k) == values[k as int],
        drive_index(bytes, j) + option_ints(info).len() <= values.len(),
        values.subrange(
            drive_index(bytes, j) as int,
            (drive_index(bytes, j) + option_ints(info).len()) as int,
        ) == option_ints(info),
    ensures
        drive_value(bytes, j) == info,
        drive_index(bytes, j + 1) == drive_index(bytes, j) + option_ints(info).len(),
{
    let p = drive_index(bytes, j);
    let part = values.subrange(p as int, (p + option_ints(info).len()) as int);
    assert(part[0] == values[p as int]);
    if info is Some {
        assert(part[1] == values[p + 1int]);
        assert(int_at(bytes, p + 1) == values[p + 1int]);
    }
}

/// The drive info of stored metadata.
proof fn lemma_drive_info(info: FsEntryMetadata, bytes: Seq<u8>)
    requires
        info.spec_has_drive_info(),
        header_is_drive(bytes),
        forall|k: nat|
            k < info.ints().len() ==> #[trigger] int_at(bytes, k) == info.ints()[k as int],
        drive_start(bytes) == info.main_ints().len() + info.count_ints().len(),
    ensures
        drive_value(bytes, 0) == info.drive_capacity,
        drive_value(bytes, 1) == info.free_space,
        drive_value(bytes, 2) == info.used_space,
        drive_value(bytes, 3) == info.reserved_space,
        int_count(bytes) == info.ints().len(),
{
    let values = info.ints();
    let d = drive_start(bytes) as int;
    let a = option_ints(info.drive_capacity);
    let b = option_ints(info.free_space);
    let c = option_ints(info.used_space);
    let e = option_ints(info.reserved_space);
    assert(values == info.main_ints() + info.count_ints() + (a + b + c + e));
    assert(values.subrange(d, d + a.len()) == a);
    lemma_option_at(bytes, values, info.drive_capacity, 0);
    assert(values.subrange(d + a.len(), d + a.len() + b.len()) == b);
    lemma_option_at(bytes, values, info.free_space, 1);
    assert(values.subrange(d + a.len() + b.len(), d + a.len() + b.len() + c.len()) == c);
    lemma_option_at(bytes, values, info.used_space, 2);
    assert(values.subrange(
        d + a.len() + b.len() + c.len(),
        d + a.len() + b.len() + c.len() + e.len(),
    ) == e);
    lemma_option_at(bytes, values, info.reserved_space, 3);
}

/// The integers determine the metadata.
proof fn lemma_ints_decoded(info: FsEntryMetadata, bytes: Seq<u8>)
    requires
        info.storable(),
        header_is_drive(bytes) == info.spec_has_drive_info(),
        forall|k: nat|
            k < info.ints().len() ==> #[trigger] int_at(bytes, k) == info.ints()[k as int],
    ensures
        decoded(bytes) == info.stored(),
        int_count(bytes) == info.ints().len(),
        int_at(bytes, 0) <= u32::MAX,
        date_exists(code_year(int_at(bytes, 3)), code_ordinal(int_at(bytes, 3))),
        int_at(bytes, 4) < 86400,
{
    let values = info.ints();
    let main = info.main_ints();
    let count = info.count_ints();
    assert(int_at(bytes, 0) == values[0]);
    assert(int_at(bytes, 1) == values[1]);
    assert(int_at(bytes, 2) == values[2]);
    assert(int_at(bytes, 3) == values[3]);
    assert(int_at(bytes, 4) == values[4]);
    assert(int_at(bytes, 5) == values[5]);
    if info.is_dir {
        assert(int_at(bytes, 6) == values[6]);
        assert(int_at(bytes, 7) == values[7]);
    }
    assert(drive_start(bytes) == main.len() + count.len());
    if info.spec_has_drive_info() {
        lemma_drive_info(info, bytes);
    }
    lemma_date_code(info.modified.year as int, info.modified.ordinal as int);
}

/// Reading stored metadata gives back what was stored.
pub proof fn law_encoded_metadata_can_be_decoded(info: FsEntryMetadata, bytes: Seq<u8>)
    requires
        info.storable(),
        info.encoded().len() <= bytes.len(),
        bytes.take(info.encoded().len() as int) == info.encoded(),
    ensures
        decodable(bytes),
        decoded(bytes) == info.stored(),
        decoded_len(bytes) == info.encoded().len(),
        header_len(bytes) == info.encoded().len(),
        header_is_drive(bytes) == info.spec_has_drive_info(),
        int_count(bytes) == info.ints().len(),
        forall|k: nat| k < info.ints().len() ==> #[trigger] int_at(bytes, k) == info.ints()[k as int],
{
    let values = info.ints();
    let len = info.encoded().len() as int;
    lemma_encoded_len(info);
    assert(bytes.subrange(1, len) == concat_ints(values)) by {
        assert forall|i: int| 0 <= i < len - 1 implies bytes[i + 1] == concat_ints(values)[i] by {
            assert(bytes.take(len)[i + 1] == info.encoded()[i + 1]);
        }
    }
    assert(bytes[0] == bytes.take(len)[0]);
    lemma_concat_read(bytes, values, values.len());
    assert(values.take(values.len() as int) == values);
    assert forall|k: nat| k < values.len() implies #[trigger] int_at(bytes, k) == values[k
        as int] by {
        assert(int_ok(bytes, nth_int(bytes, k)));
    }
    lemma_ints_decoded(info, bytes);
}

pub proof fn lemma_date_code(year: int, ordinal: int)
    requires
        date_exists(year, ordinal),
    ensures
        code_year(date_code(year, ordinal)) == year,
        code_ordinal(date_code(year, ordinal)) == ordinal,
        0 < date_code(year, ordinal) <= u32::MAX,
{
}

impl FsEntryMetadata {
    /// We use variable length numbers to minimize size in the common case so this
    /// is a measure for the worst case scenario where all integers are maximally
    /// sized.
    pub const MAX_BINARY_SIZE: usize = 101;

    /// Similar to [`Self::from_ne_bytes`] but only parses the [`Self::children`]
    /// field. The returned size is the size for all the metadata, not just the
    /// `children` field.
    pub fn read_children_from_ne_bytes(bytes: &[u8]) -> (result: (Option<u32>, usize))
        requires
            bytes@.len() > 0,
            int_ok(bytes@, 1),
            int_at(bytes@, 0) <= u32::MAX,
        ensures
            result.0 == code_children(int_at(bytes@, 0)),
            result.1 == header_len(bytes@),
    {
        let total_size: u8 = bytes[0] % 128;
        proof {
            reveal(int_at);
        }
        let (code, _width) = read_dyn_sized_int(bytes, 1);
        let children: Option<u32> = if code >= 2 {
            Some((code - 2) as u32)
        } else {
            None
        };
        (children, total_size as usize)
    }

    /// Reads the metadata at the start of the bytes and returns it with the number
    /// of bytes it takes.
    pub fn from_ne_bytes(bytes: &[u8]) -> (result: (Self, usize))
        requires
            decodable(bytes@),
        ensures
            result.0 == decoded(bytes@),
            result.1 == decoded_len(bytes@),
    {
        let ghost s = bytes@;
        proof {
            lemma_int_count(s);
        }
        let is_drive: bool = bytes[0] >= 128;
        let mut at: usize = 1;
        let children_code: u64 = read_nth(bytes, &mut at, Ghost(0));
        let is_dir: bool = children_code != 0;
        let children: Option<u32> = if children_code >= 2 {
            Some((children_code - 2) as u32)
        } else {
            None
        };
        let size: u64 = read_nth(bytes, &mut at, Ghost(1));
        let allocated: u64 = read_nth(bytes, &mut at, Ghost(2));
        let date: u64 = read_nth(bytes, &mut at, Ghost(3));
        let low: u64 = date % 0x1_0000_0000;
        let high_years: i32 = if low >= 0x8000_0000 {
            0x8_0000
        } else {
            0
        };
        let year: i32 = (low / 8192) as i32 - high_years;
        let ordinal: u32 = (date % 8192) as u32;
        let secs: u64 = read_nth(bytes, &mut at, Ghost(4));
        let attributes: u64 = read_nth(bytes, &mut at, Ghost(5));
        let mut files: u64 = 0;
        let mut folders: u64 = 0;
        if is_dir {
            files = read_nth(bytes, &mut at, Ghost(6));
            folders = read_nth(bytes, &mut at, Ghost(7));
        }
        assert(at == nth_int(s, drive_start(s)));
        let mut drive_capacity: Option<u64> = None;
        let mut free_space: Option<u64> = None;
        let mut used_space: Option<u64> = None;
        let mut reserved_space: Option<u64> = None;
        if is_drive {
            drive_capacity = read_option(bytes, &mut at, Ghost(0));
            free_space = read_option(bytes, &mut at, Ghost(1));
            used_space = read_option(bytes, &mut at, Ghost(2));
            reserved_space = read_option(bytes, &mut at, Ghost(3));
        }
        (
            FsEntryMetadata {
                size,
                allocated,
                modified: Timestamp { year, ordinal, secs: secs as u32, nanos: 0 },
                attributes,
                files,
                folders,
                is_dir,
                children,
                drive_capacity,
                free_space,
                used_space,
                reserved_space,
            },
            at,
        )
    }

    /// The metadata as bytes, followed by zeroes, and the number of bytes it takes.
    pub fn to_ne_bytes(&self) -> (result: ([u8; 101], usize))
        requires
            self.storable(),
        ensures
            result.1 == self.encoded().len(),
            result.1 <= Self::MAX_BINARY_SIZE,
            result.0@.take(result.1 as int) == self.encoded(),
            forall|i: int| result.1 <= i < 101 ==> result.0@[i] == 0,
    {
        let values = self.int_values();
        let ghost ints = self.ints();
        proof {
            lemma_encoded_len(*self);
        }
        let mut bytes: [u8; 101] = [0; 101];
        let mut len: usize = 1;
        let mut i: usize = 0;
        assert(ints.take(0) == Seq::<int>::empty());
        assert(bytes@.subrange(1, 1) == Seq::<u8>::empty());
        while i < values.len()
            invariant
                i <= values@.len(),
                values@.map_values(|v: u64| v as int) == ints,
                all_u64(ints),
                concat_ints(ints).len() <= 100,
                1 <= len <= 101,
                bytes@.len() == 101,
                bytes@.subrange(1, len as int) == concat_ints(ints.take(i as int)),
                forall|j: int| len <= j < 101 ==> bytes@[j] == 0,
            decreases values@.len() - i,
        {
            let value: u64 = values[i];
            proof {
                assert(value == ints[i as int]);
                assert(ints.take(i + 1).drop_last() == ints.take(i as int));
                assert(ints.take(i + 1).last() == value);
                lemma_concat_prefix(ints, i + 1);
                lemma_int_bytes_len(value as int);
            }
            let ghost before = bytes@;
            let used: usize = write_dyn_sized_int(&mut bytes, len, value);
            proof {
                assert(bytes@.subrange(1, len + used) == bytes@.subrange(1, len as int)
                    + bytes@.subrange(len as int, len + used));
                assert(bytes@.subrange(1, len as int) == before.subrange(1, len as int));
            }
            len = len + used;
            i = i + 1;
        }
        assert(ints.take(i as int) == ints);
        bytes[0] = if self.has_drive_info() {
            len as u8 + 128
        } else {
            len as u8
        };
        proof {
            assert(bytes@.take(len as int) == seq![bytes@[0]] + bytes@.subrange(1, len as int));
            assert(bytes@.take(len as int) == self.encoded());
        }
        (bytes, len)
    }
}

/// Whether the integer number `k` only says if a drive info follows.
pub open spec fn is_flag(bytes: Seq<u8>, k: nat) -> bool {
    header_is_drive(bytes) && (k == drive_index(bytes, 0) || k == drive_index(bytes, 1) || k
        == drive_index(bytes, 2) || k == drive_index(bytes, 3))
}

impl FsEntryMetadata {
    /// The drive info number `j`.
    pub open spec fn drive_info(self, j: nat) -> Option<u64> {
        if j == 0 {
            self.drive_capacity
        } else if j == 1 {
            self.free_space
        } else if j == 2 {
            self.used_space
        } else {
            self.reserved_space
        }
    }

    /// Number of integers before the drive info number `j`.
    pub open spec fn drive_info_index(self, j: nat) -> nat
        decreases j,
    {
        if j == 0 {
            if self.is_dir {
                8
            } else {
                6
            }
        } else {
            self.drive_info_index((j - 1) as nat) + option_ints(
                self.drive_info((j - 1) as nat),
            ).len()
        }
    }

    /// Whether the integer number `k` of stored metadata can take the value that
    /// belongs there: the value fits in the bytes of the integer, a drive info is
    /// present if it was before.
    pub open spec fn fits(self, bytes: Seq<u8>, k: nat) -> bool {
        if is_flag(bytes, k) {
            (int_at(bytes, k) != 0) == (self.ints()[k as int] != 0)
        } else {
            self.ints()[k as int] <= tag_max(bytes[nth_int(bytes, k)])
        }
    }

    /// Number of the first integer from `k` on that can't take its new value, or
    /// the total number of integers.
    pub open spec fn update_stop(self, bytes: Seq<u8>, k: nat) -> nat
        decreases int_count(bytes) - k,
    {
        if k < int_count(bytes) && self.fits(bytes, k) {
            self.update_stop(bytes, k + 1)
        } else {
            k
        }
    }

    /// The error for an integer that can't take its new value.
    pub open spec fn stop_error(bytes: Seq<u8>, k: nat) -> MetadataUpdateError {
        if k == 1 {
            MetadataUpdateError::TooLargeSize
        } else if k == 2 {
            MetadataUpdateError::TooLargeAllocated
        } else if k == 3 || k == 4 {
            MetadataUpdateError::TooLargeModified
        } else if k == 5 {
            MetadataUpdateError::TooLargeAttributes
        } else if k == 6 && drive_start(bytes) == 8 {
            MetadataUpdateError::TooLargeFileCount
        } else if k == 7 && drive_start(bytes) == 8 {
            MetadataUpdateError::TooLargeFolderCount
        } else if is_flag(bytes, k) {
            MetadataUpdateError::ChangedDriveInfo
        } else {
            MetadataUpdateError::TooLargeDriveInfo
        }
    }

    /// Differences that would change the number of integers or of children.
    pub open spec fn update_conflict(self, bytes: Seq<u8>) -> Option<MetadataUpdateError> {
        if self.spec_has_drive_info() != header_is_drive(bytes) {
            Some(MetadataUpdateError::ChangedIsDrive)
        } else if self.is_dir != (int_at(bytes, 0) != 0) {
            Some(MetadataUpdateError::ChangedIsFolder)
        } else if self.children != code_children(int_at(bytes, 0)) {
            Some(MetadataUpdateError::ChangedChildren)
        } else {
            None
        }
    }

    /// Why stored metadata can't be replaced by this metadata.
    pub open spec fn update_error(self, bytes: Seq<u8>) -> Option<MetadataUpdateError> {
        match self.update_conflict(bytes) {
            Some(error) => Some(error),
            None => {
                let stop = self.update_stop(bytes, 1);
                if stop < int_count(bytes) {
                    Some(FsEntryMetadata::stop_error(bytes, stop))
                } else {
                    None
                }
            },
        }
    }

    /// The integers before the number `stop` have the values of this metadata,
    /// all others and everything else is as before. No integer has moved.
    pub open spec fn updated(self, before: Seq<u8>, after: Seq<u8>, stop: nat) -> bool {
        &&& after.len() == before.len()
        &&& after[0] == before[0]
        &&& forall|k: nat|
            k <= int_count(before) ==> #[trigger] nth_int(after, k) == nth_int(before, k)
        &&& forall|k: nat|
            k < int_count(before) ==> tag_max(after[#[trigger] nth_int(before, k)]) == tag_max(
                before[nth_int(before, k)],
            )
        &&& forall|k: nat|
            k < int_count(before) ==> #[trigger] int_at(after, k) == if 1 <= k < stop && !is_flag(
                before,
                k,
            ) {
                self.ints()[k as int]
            } else {
                int_at(before, k)
            }
        &&& same_bytes(before, after, decoded_len(before), before.len() as int)
    }

    proof fn lemma_update_stop(self, bytes: Seq<u8>, from: nat, stop: nat)
        requires
            from <= stop <= int_count(bytes),
            forall|i: nat| from <= i < stop ==> #[trigger] self.fits(bytes, i),
            stop < int_count(bytes) ==> !self.fits(bytes, stop),
        ensures
            self.update_stop(bytes, from) == stop,
        decreases stop - from,
    {
        if from < stop {
            self.lemma_update_stop(bytes, from + 1, stop);
        }
    }

    /// Where drive info is among the integers.
    proof fn lemma_drive_info_at(self, j: nat)
        requires
            self.spec_has_drive_info(),
            j < 4,
        ensures
            self.drive_info_index(j) < self.ints().len(),
            self.ints()[self.drive_info_index(j) as int] == if self.drive_info(j) is Some {
                1int
            } else {
                0
            },
            self.drive_info(j) matches Some(v) ==> self.drive_info_index(j) + 1 < self.ints().len()
                && self.ints()[self.drive_info_index(j) + 1int] == v,
            self.drive_info_index(4) == self.ints().len(),
    {
        let a = option_ints(self.drive_capacity);
        let b = option_ints(self.free_space);
        let c = option_ints(self.used_space);
        let e = option_ints(self.reserved_space);
        let head = self.main_ints() + self.count_ints();
        lemma_four_parts(head, a, b, c, e);
        let h = self.drive_info_index(0);
        assert(self.drive_info_index(1) == h + a.len());
        assert(self.drive_info_index(2) == h + a.len() + b.len());
        assert(self.drive_info_index(3) == h + a.len() + b.len() + c.len());
        assert(self.drive_info_index(4) == h + a.len() + b.len() + c.len() + e.len());
        if j == 0 {
            lemma_option_parts(self.ints(), h as int, self.drive_capacity);
        } else if j == 1 {
            lemma_option_parts(self.ints(), (h + a.len()) as int, self.free_space);
        } else if j == 2 {
            lemma_option_parts(self.ints(), (h + a.len() + b.len()) as int, self.used_space);
        } else {
            lemma_option_parts(
                self.ints(),
                (h + a.len() + b.len() + c.len()) as int,
                self.reserved_space,
            );
        }
    }
}

/// The numbers of one optional number inside of other numbers.
proof fn lemma_option_parts(all: Seq<int>, at: int, info: Option<u64>)
    requires
        0 <= at,
        at + option_ints(info).len() <= all.len(),
        all.subrange(at, (at + option_ints(info).len()) as int) == option_ints(info),
    ensures
        at < all.len(),
        all[at] == if info is Some {
            1int
        } else {
            0
        },
        info matches Some(v) ==> at + 1 < all.len() && all[at + 1] == v,
{
    let part = all.subrange(at, (at + option_ints(info).len()) as int);
    assert(part[0] == all[at]);
    if info is Some {
        assert(part[1] == all[at + 1]);
    }
}

/// Where the parts of a concatenation are.
proof fn lemma_four_parts(
    head: Seq<int>,
    a: Seq<int>,
    b: Seq<int>,
    c: Seq<int>,
    e: Seq<int>,
)
    ensures
        ({
            let all = head + (a + b + c + e);
            let p1 = (head.len() + a.len()) as int;
            let p2 = (p1 + b.len()) as int;
            let p3 = (p2 + c.len()) as int;
            &&& all.len() == p3 + e.len()
            &&& all.subrange(head.len() as int, p1) == a
            &&& all.subrange(p1, p2) == b
            &&& all.subrange(p2, p3) == c
            &&& all.subrange(p3, all.len() as int) == e
        }),
{
    let all = head + (a + b + c + e);
    let p1 = (head.len() + a.len()) as int;
    let p2 = (p1 + b.len()) as int;
    let p3 = (p2 + c.len()) as int;
    assert(all.subrange(head.len() as int, p1) =~= a);
    assert(all.subrange(p1, p2) =~= b);
    assert(all.subrange(p2, p3) =~= c);
    assert(all.subrange(p3, all.len() as int) =~= e);
}

/// Replaces the integer at `at`, which has the number `k`, with the value that
/// belongs there and moves behind it. Returns `false` if it does not fit.
fn update_nth(
    bytes: &mut [u8],
    at: &mut usize,
    value: u64,
    before: Ghost<Seq<u8>>,
    info: Ghost<FsEntryMetadata>,
    k: Ghost<nat>,
) -> (ok: bool)
    requires
        layout_ok(before@),
        1 <= k@ < int_count(before@),
        !is_flag(before@, k@),
        value == info@.ints()[k@ as int],
        info@.updated(before@, old(bytes)@, k@),
        *old(at) == nth_int(before@, k@),
    ensures
        ok == info@.fits(before@, k@),
        ok ==> info@.updated(before@, final(bytes)@, k@ + 1) && *final(at) == nth_int(
            before@,
            k@ + 1,
        ),
        !ok ==> final(bytes)@ == old(bytes)@,
{
    let ghost s = bytes@;
    let ghost b = before@;
    let ghost n = int_count(b);
    let ghost p = nth_int(b, k@);
    proof {
        reveal(int_at);
        assert(int_ok(b, p));
        lemma_nth_int_order(b, k@ + 1, n);
        assert(nth_int(s, k@) == p);
        assert(nth_int(s, k@ + 1) == nth_int(b, k@ + 1));
        assert(int_ok(s, p)) by {
            lemma_nth_int_order(b, k@ + 1, n);
            lemma_layout_len(b);
        }
    }
    let len: usize = bytes.len();
    match update_dyn_sized_int(bytes, *at, value) {
        Some(width) => {
            assert(*at + width <= len);
            *at = *at + width;
            proof {
                lemma_layout_len(b);
                lemma_nth_int_replaced(s, bytes@, k@, n);
                lemma_nth_int_order(b, 0, k@);
                assert(bytes@[0] == s[0]);
                assert(same_bytes(b, bytes@, decoded_len(b), b.len() as int));
                assert forall|i: nat| i <= n implies #[trigger] nth_int(bytes@, i) == nth_int(
                    b,
                    i,
                ) by {
                    assert(nth_int(s, i) == nth_int(b, i));
                }
                assert forall|i: nat| i < n implies tag_max(bytes@[#[trigger] nth_int(b, i)])
                    == tag_max(b[nth_int(b, i)]) by {
                    assert(nth_int(s, i) == nth_int(b, i));
                }
                assert forall|i: nat| i < n implies #[trigger] int_at(bytes@, i) == if 1 <= i < k@
                    + 1 && !is_flag(b, i) {
                    info@.ints()[i as int]
                } else {
                    int_at(b, i)
                } by {
                    assert(nth_int(s, i) == nth_int(b, i));
                    assert(int_at(s, i) == int_at(s, i));
                }
            }
            true
        },
        None => false,
    }
}

/// All integers from the first one after the children until the number `k` can
/// take their new values.
pub open spec fn fits_until(info: FsEntryMetadata, bytes: Seq<u8>, k: nat) -> bool {
    forall|i: nat| 1 <= i < k ==> #[trigger] info.fits(bytes, i)
}

/// Replaces the drive info number `j` at `at` and moves behind it.
fn update_option(
    bytes: &mut [u8],
    at: &mut usize,
    value: Option<u64>,
    before: Ghost<Seq<u8>>,
    info: Ghost<FsEntryMetadata>,
    j: Ghost<nat>,
) -> (result: Result<(), MetadataUpdateError>)
    requires
        layout_ok(before@),
        header_is_drive(before@),
        info@.spec_has_drive_info(),
        j@ < 4,
        value == info@.drive_info(j@),
        drive_index(before@, j@) == info@.drive_info_index(j@),
        info@.updated(before@, old(bytes)@, drive_index(before@, j@)),
        fits_until(info@, before@, drive_index(before@, j@)),
        *old(at) == nth_int(before@, drive_index(before@, j@)),
    ensures
        result is Ok ==> {
            &&& drive_index(before@, j@ + 1) == info@.drive_info_index(j@ + 1)
            &&& info@.updated(before@, final(bytes)@, drive_index(before@, j@ + 1))
            &&& fits_until(info@, before@, drive_index(before@, j@ + 1))
            &&& *final(at) == nth_int(before@, drive_index(before@, j@ + 1))
        },
        result matches Err(error) ==> {
            let stop = info@.update_stop(before@, 1);
            &&& stop < int_count(before@)
            &&& error == FsEntryMetadata::stop_error(before@, stop)
            &&& info@.updated(before@, final(bytes)@, stop)
        },
{
    let ghost b = before@;
    let ghost p = drive_index(b, j@);
    proof {
        lemma_int_count(b);
        lemma_layout_len(b);
        info@.lemma_drive_info_at(j@);
        assert(int_at(bytes@, p) == int_at(b, p));
        assert(is_flag(b, p));
        assert(nth_int(bytes@, p) == nth_int(b, p));
        lemma_nth_int_order(b, p, int_count(b));
        assert(p < int_count(b));
        assert(nth_int(b, p + 1) <= b.len());
        assert(nth_int(bytes@, p + 1) == nth_int(b, p + 1));
    }
    let flag: u64 = read_nth(bytes, at, Ghost(p));
    if (flag != 0) != value.is_some() {
        proof {
            assert(!info@.fits(b, p));
            info@.lemma_update_stop(b, 1, p);
        }
        return Err(MetadataUpdateError::ChangedDriveInfo);
    }
    assert(info@.fits(b, p));
    proof {
        assert forall|k: nat| k < int_count(b) implies #[trigger] int_at(bytes@, k) == if 1 <= k
            < p + 1 && !is_flag(b, k) {
            info@.ints()[k as int]
        } else {
            int_at(b, k)
        } by {}
        assert(info@.updated(b, bytes@, p + 1));
    }
    match value {
        Some(value) => {
            assert(!is_flag(b, p + 1));
            if update_nth(bytes, at, value, before, info, Ghost(p + 1)) {
                Ok(())
            } else {
                proof {
                    info@.lemma_update_stop(b, 1, p + 1);
                }
                Err(MetadataUpdateError::TooLargeDriveInfo)
            }
        },
        None => Ok(()),
    }
}

impl FsEntryMetadata {
    /// Replaces the metadata stored at the start of the bytes without changing
    /// the number of bytes it takes, which is returned.
    ///
    /// # Errors
    ///
    /// If the new metadata would not take the same number of integers or a
    /// number does not fit in the bytes of the previous one. Numbers before the
    /// first one that does not fit have been replaced nonetheless.
    pub fn update_ne_bytes(&self, bytes: &mut [u8]) -> (result: Result<
        usize,
        MetadataUpdateError,
    >)
        requires
            self.storable(),
            layout_ok(old(bytes)@),
            header_len(old(bytes)@) == decoded_len(old(bytes)@),
        ensures
            result is Ok <==> self.update_error(old(bytes)@) is None,
            result matches Ok(len) ==> len == header_len(old(bytes)@) && self.updated(
                old(bytes)@,
                final(bytes)@,
                int_count(old(bytes)@),
            ),
            result matches Err(error) ==> {
                &&& self.update_error(old(bytes)@) == Some(error)
                &&& if self.update_conflict(old(bytes)@) is Some {
                    final(bytes)@ == old(bytes)@
                } else {
                    self.updated(old(bytes)@, final(bytes)@, self.update_stop(old(bytes)@, 1))
                }
            },
    {
        let ghost b = bytes@;
        let ghost n = int_count(b);
        proof {
            lemma_int_count(b);
            lemma_layout_len(b);
            assert(nth_int(b, 0) == 1);
            assert(int_ok(b, nth_int(b, 0)));
        }
        if self.has_drive_info() != (bytes[0] >= 128) {
            return Err(MetadataUpdateError::ChangedIsDrive);
        }
        let mut at: usize = 1;
        let code: u64 = read_nth(bytes, &mut at, Ghost(0));
        let children: Option<u32> = if code >= 2 {
            Some((code - 2) as u32)
        } else {
            None
        };
        if self.is_dir != (code != 0) {
            return Err(MetadataUpdateError::ChangedIsFolder);
        }
        if self.children != children {
            return Err(MetadataUpdateError::ChangedChildren);
        }
        let date: i64 = self.modified.year as i64 * 8192 + self.modified.ordinal as i64;
        let date: u64 = if date < 0 {
            (date + 0x1_0000_0000) as u64
        } else {
            date as u64
        };
        let ghost values = self.ints();
        proof {
            assert(self.updated(b, bytes@, 1));
            assert(self.update_conflict(b) is None);
            assert(values[1] == self.size);
            assert(values[2] == self.allocated);
            assert(values[3] == date);
            assert(values[4] == self.modified.secs);
            assert(values[5] == self.attributes);
            assert(self.is_dir ==> values[6] == self.files && values[7] == self.folders);
        }
        if !update_nth(bytes, &mut at, self.size, Ghost(b), Ghost(*self), Ghost(1)) {
            proof {
                self.lemma_update_stop(b, 1, 1);
            }
            return Err(MetadataUpdateError::TooLargeSize);
        }
        if !update_nth(bytes, &mut at, self.allocated, Ghost(b), Ghost(*self), Ghost(2)) {
            proof {
                self.lemma_update_stop(b, 1, 2);
            }
            return Err(MetadataUpdateError::TooLargeAllocated);
        }
        if !update_nth(bytes, &mut at, date, Ghost(b), Ghost(*self), Ghost(3)) {
            proof {
                self.lemma_update_stop(b, 1, 3);
            }
            return Err(MetadataUpdateError::TooLargeModified);
        }
        if !update_nth(
            bytes,
            &mut at,
            self.modified.secs as u64,
            Ghost(b),
            Ghost(*self),
            Ghost(4),
        ) {
            proof {
                self.lemma_update_stop(b, 1, 4);
            }
            return Err(MetadataUpdateError::TooLargeModified);
        }
        if !update_nth(bytes, &mut at, self.attributes, Ghost(b), Ghost(*self), Ghost(5)) {
            proof {
                self.lemma_update_stop(b, 1, 5);
            }
            return Err(MetadataUpdateError::TooLargeAttributes);
        }
        if self.is_dir {
            if !update_nth(bytes, &mut at, self.files, Ghost(b), Ghost(*self), Ghost(6)) {
                proof {
                    self.lemma_update_stop(b, 1, 6);
                }
                return Err(MetadataUpdateError::TooLargeFileCount);
            }
            if !update_nth(bytes, &mut at, self.folders, Ghost(b), Ghost(*self), Ghost(7)) {
                proof {
                    self.lemma_update_stop(b, 1, 7);
                }
                return Err(MetadataUpdateError::TooLargeFolderCount);
            }
        }
        assert(fits_until(*self, b, drive_start(b)));
        assert(self.updated(b, bytes@, drive_start(b)));
        if self.has_drive_info() {
            match update_option(
                bytes,
                &mut at,
                self.drive_capacity,
                Ghost(b),
                Ghost(*self),
                Ghost(0),
            ) {
                Ok(_) => {},
                Err(error) => {
                    return Err(error);
                },
            }
            match update_option(
                bytes,
                &mut at,
                self.free_space,
                Ghost(b),
                Ghost(*self),
                Ghost(1),
            ) {
                Ok(_) => {},
                Err(error) => {
                    return Err(error);
                },
            }
            match update_option(
                bytes,
                &mut at,
                self.used_space,
                Ghost(b),
                Ghost(*self),
                Ghost(2),
            ) {
                Ok(_) => {},
                Err(error) => {
                    return Err(error);
                },
            }
            match update_option(
                bytes,
                &mut at,
                self.reserved_space,
                Ghost(b),
                Ghost(*self),
                Ghost(3),
            ) {
                Ok(_) => {},
                Err(error) => {
                    return Err(error);
                },
            }
        }
        proof {
            self.lemma_update_stop(b, 1, n);
        }
        Ok(at)
    }
}

/// Metadata that replaced other metadata is read back, and it takes the same
/// number of bytes.
pub proof fn law_updated_metadata_can_be_decoded(
    info: FsEntryMetadata,
    before: Seq<u8>,
    after: Seq<u8>,
)
    requires
        info.storable(),
        layout_ok(before),
        info.update_error(before) is None,
        info.updated(before, after, int_count(before)),
    ensures
        decodable(after),
        decoded(after) == info.stored(),
        decoded_len(after) == decoded_len(before),
        header_len(after) == header_len(before),
        int_count(after) == int_count(before),
{
    let n = int_count(before);
    let values = info.ints();
    lemma_int_count(before);
    lemma_int_count(after);
    lemma_layout_len(before);
    lemma_update_all_fit(info, before, 1);
    assert(int_at(after, 0) == int_at(before, 0));
    assert(int_at(after, 1) == values[1]);
    assert(int_at(after, 2) == values[2]);
    assert(int_at(after, 3) == values[3]);
    assert(int_at(after, 4) == values[4]);
    assert(int_at(after, 5) == values[5]);
    if info.is_dir {
        assert(int_at(after, 6) == values[6]);
        assert(int_at(after, 7) == values[7]);
    }
    assert(drive_start(after) == drive_start(before));
    if header_is_drive(before) {
        assert(drive_index(before, 0) == info.drive_info_index(0));
        lemma_updated_option(info, before, after, 0);
        lemma_updated_option(info, before, after, 1);
        lemma_updated_option(info, before, after, 2);
        lemma_updated_option(info, before, after, 3);
    }
    assert(int_count(after) == n);
    lemma_date_code(info.modified.year as int, info.modified.ordinal as int);
    assert forall|k: nat| k < n implies int_ok(after, #[trigger] nth_int(after, k)) by {
        lemma_nth_int_order(before, 0, k);
        assert(int_ok(before, nth_int(before, k)));
        assert(nth_int(after, k) == nth_int(before, k));
        assert(nth_int(after, k + 1) == nth_int(before, k + 1));
    }
}

/// If no integer stops an update then all integers can take their new values.
proof fn lemma_update_all_fit(info: FsEntryMetadata, bytes: Seq<u8>, k: nat)
    requires
        info.update_stop(bytes, k) >= int_count(bytes),
    ensures
        forall|i: nat| k <= i < int_count(bytes) ==> #[trigger] info.fits(bytes, i),
    decreases int_count(bytes) - k,
{
    if k < int_count(bytes) {
        lemma_update_all_fit(info, bytes, k + 1);
        assert forall|i: nat| k <= i < int_count(bytes) implies #[trigger] info.fits(
            bytes,
            i,
        ) by {
            if i > k {
                assert(k + 1 <= i);
            }
        }
    }
}

/// One optional number after an update.
proof fn lemma_updated_option(
    info: FsEntryMetadata,
    before: Seq<u8>,
    after: Seq<u8>,
    j: nat,
)
    requires
        j < 4,
        header_is_drive(before),
        info.spec_has_drive_info(),
        info.updated(before, after, int_count(before)),
        forall|i: nat| 1 <= i < int_count(before) ==> #[trigger] info.fits(before, i),
        drive_index(before, j) == info.drive_info_index(j),
        drive_index(after, j) == info.drive_info_index(j),
    ensures
        drive_value(after, j) == info.drive_info(j),
        drive_index(before, j + 1) == info.drive_info_index(j + 1),
        drive_index(after, j + 1) == info.drive_info_index(j + 1),
{
    lemma_int_count(before);
    let p = drive_index(before, j);
    info.lemma_drive_info_at(j);
    assert(is_flag(before, p));
    assert(p < int_count(before));
    assert(info.fits(before, p));
    assert(int_at(after, p) == int_at(before, p));
    if info.drive_info(j) is Some {
        assert(!is_flag(before, p + 1));
        assert(p + 1 < int_count(before));
        assert(int_at(after, p + 1) == info.ints()[p + 1int]);
    }
}

/// Stored metadata is part of the bytes.
pub proof fn lemma_layout_len(bytes: Seq<u8>)
    requires
        layout_ok(bytes),
    ensures
        decoded_len(bytes) <= bytes.len(),
        int_count(bytes) >= 6,
        forall|k: nat|
            k < int_count(bytes) ==> nth_int(bytes, k) < #[trigger] nth_int(bytes, k + 1)
                <= decoded_len(bytes),
{
    lemma_int_count(bytes);
    let n = int_count(bytes);
    assert(int_ok(bytes, nth_int(bytes, (n - 1) as nat)));
    assert forall|k: nat| k < n implies nth_int(bytes, k) < #[trigger] nth_int(bytes, k + 1)
        <= decoded_len(bytes) by {
        lemma_nth_int_order(bytes, k, k + 1);
        lemma_nth_int_order(bytes, k + 1, n);
    }
}

/// Replacing the value of an integer moves no integer and changes no other.
proof fn lemma_nth_int_replaced(a: Seq<u8>, b: Seq<u8>, k: nat, count: nat)
    requires
        k < count,
        nth_int(a, count) <= a.len(),
        a.len() == b.len(),
        int_end(a, nth_int(a, k)) == int_end(b, nth_int(a, k)),
        tag_max(a[nth_int(a, k)]) == tag_max(b[nth_int(a, k)]),
        same_bytes(a, b, 0, nth_int(a, k)),
        same_bytes(a, b, nth_int(a, (k + 1) as nat), a.len() as int),
    ensures
        forall|i: nat| i <= count ==> #[trigger] nth_int(b, i) == nth_int(a, i),
        forall|i: nat| i < count && i != k ==> #[trigger] int_at(b, i) == int_at(a, i),
        forall|i: nat|
            i < count ==> tag_max(b[#[trigger] nth_int(a, i)]) == tag_max(a[nth_int(a, i)]),
    decreases count,
{
    reveal(int_at);
    let last = (count - 1) as nat;
    lemma_nth_int_order(a, 0, k);
    lemma_nth_int_order(a, last, count);
    lemma_nth_int_same(a, b, k);
    if k < last {
        lemma_nth_int_replaced(a, b, k, last);
        lemma_nth_int_order(a, (k + 1) as nat, last);
        let at = nth_int(a, last);
        assert forall|i: int| at <= i < at + tag_width(a[at]) implies a[i] == #[trigger] b[i
            + 0] by {
            assert(a[i] == b[i]);
        }
        lemma_int_same(a, b, at, 0);
        assert(nth_int(b, last) == at);
        assert(nth_int(b, count) == nth_int(a, count));
        assert forall|i: nat| i <= count implies #[trigger] nth_int(b, i) == nth_int(a, i) by {
            if i <= last {
                assert(nth_int(b, i) == nth_int(a, i));
            }
        }
    } else {
        assert(nth_int(b, k) == nth_int(a, k));
        assert(nth_int(b, count) == nth_int(a, count));
        assert forall|i: nat| i <= count implies #[trigger] nth_int(b, i) == nth_int(a, i) by {
            if i <= k {
                assert(nth_int(b, i) == nth_int(a, i));
            }
        }
    }
}

/// Reads the integer at `at`, which has the number `k`, and moves behind it.
fn read_nth(bytes: &[u8], at: &mut usize, k: Ghost<nat>) -> (value: u64)
    requires
        *old(at) == nth_int(bytes@, k@),
        int_ok(bytes@, *old(at) as int),
    ensures
        value == int_at(bytes@, k@),
        *final(at) == nth_int(bytes@, k@ + 1),
{
    proof {
        reveal(int_at);
    }
    let len: usize = bytes.len();
    let (value, width) = read_dyn_sized_int(bytes, *at);
    assert(*at + width <= len);
    *at = *at + width;
    value
}

/// Reads the drive info number `j` and moves behind it.
fn read_option(bytes: &[u8], at: &mut usize, j: Ghost<nat>) -> (info: Option<u64>)
    requires
        header_is_drive(bytes@),
        j@ < 4,
        *old(at) == nth_int(bytes@, drive_index(bytes@, j@)),
        ints_ok(bytes@, int_count(bytes@)),
    ensures
        info == drive_value(bytes@, j@),
        *final(at) == nth_int(bytes@, drive_index(bytes@, j@ + 1)),
{
    let ghost p = drive_index(bytes@, j@);
    proof {
        lemma_int_count(bytes@);
        reveal_with_fuel(drive_index, 5);
    }
    let flag: u64 = read_nth(bytes, at, Ghost(p));
    if flag != 0 {
        let value: u64 = read_nth(bytes, at, Ghost(p + 1));
        Some(value)
    } else {
        None
    }
}

/// Stored metadata has a time that exists, without parts of a second.
pub proof fn lemma_decoded_time(bytes: Seq<u8>)
    requires
        decodable(bytes),
    ensures
        decoded(bytes).modified.valid(),
        decoded(bytes).modified.nanos == 0,
{
    reveal(int_at);
    lemma_int_value_bound(bytes, nth_int(bytes, 4));
}

/// Whether some metadata differs from other metadata only in smaller numbers.
pub open spec fn only_smaller(new: FsEntryMetadata, current: FsEntryMetadata) -> bool {
    &&& new.size <= current.size
    &&& new.allocated <= current.allocated
    &&& new.files <= current.files
    &&& new.folders <= current.folders
    &&& new == (FsEntryMetadata {
        size: new.size,
        allocated: new.allocated,
        files: new.files,
        folders: new.folders,
        ..current
    })
}

/// Stored metadata can always be replaced by metadata with smaller numbers.
pub proof fn law_smaller_numbers_can_be_stored(new: FsEntryMetadata, bytes: Seq<u8>)
    requires
        decodable(bytes),
        header_is_drive(bytes) == decoded(bytes).spec_has_drive_info(),
        decoded(bytes).is_dir == (decoded(bytes).children is Some),
        only_smaller(new, decoded(bytes)),
    ensures
        new.storable(),
        new.update_error(bytes) is None,
{
    let current = decoded(bytes);
    let n = int_count(bytes);
    let values = new.ints();
    lemma_decoded_time(bytes);
    lemma_int_count(bytes);
    lemma_layout_len(bytes);
    reveal(int_at);
    assert forall|k: nat| k < n implies 0 <= #[trigger] int_at(bytes, k) <= tag_max(
        bytes[nth_int(bytes, k)],
    ) && int_at(bytes, k) <= u64::MAX by {
        lemma_int_value_bound(bytes, nth_int(bytes, k));
    }
    assert(int_at(bytes, 0) <= u32::MAX);
    assert(new.update_conflict(bytes) is None);
    assert forall|k: nat| 1 <= k < n implies #[trigger] new.fits(bytes, k) by {
        if k < drive_start(bytes) {
            assert(!is_flag(bytes, k)) by {
                reveal_with_fuel(drive_index, 5);
            }
            lemma_plain_int(new, bytes, k);
        } else {
            lemma_drive_fits(new, bytes, k);
        }
    }
    new.lemma_update_stop(bytes, 1, n);
}

/// One of the integers before the drive info.
proof fn lemma_plain_int(new: FsEntryMetadata, bytes: Seq<u8>, k: nat)
    requires
        decodable(bytes),
        only_smaller(new, decoded(bytes)),
        1 <= k < drive_start(bytes),
        forall|i: nat| i < int_count(bytes) ==> 0 <= #[trigger] int_at(bytes, i) <= u64::MAX,
    ensures
        new.ints()[k as int] <= int_at(bytes, k),
{
    lemma_int_count(bytes);
    let values = new.ints();
    let c = int_at(bytes, 3);
    lemma_decoded_time(bytes);
    assert(values[1] == new.size);
    assert(values[2] == new.allocated);
    assert(values[3] == date_code(new.modified.year as int, new.modified.ordinal as int));
    assert(values[4] == new.modified.secs);
    assert(values[5] == new.attributes);
    assert(int_at(bytes, 1) >= 0 && int_at(bytes, 2) >= 0 && int_at(bytes, 3) >= 0 && int_at(
        bytes,
        4,
    ) >= 0 && int_at(bytes, 5) >= 0);
    if new.is_dir {
        assert(values[6] == new.files);
        assert(values[7] == new.folders);
        assert(int_at(bytes, 6) >= 0 && int_at(bytes, 7) >= 0);
    }
    assert(date_code(code_year(c), code_ordinal(c)) == c % 0x1_0000_0000) by {
        let low = c % 0x1_0000_0000;
        assert(low / 8192 * 8192 + low % 8192 == low);
        assert(c % 8192 == low % 8192);
    }
    assert(c % 0x1_0000_0000 <= c);
}

/// One of the integers of the drive info.
proof fn lemma_drive_fits(new: FsEntryMetadata, bytes: Seq<u8>, k: nat)
    requires
        decodable(bytes),
        header_is_drive(bytes) == decoded(bytes).spec_has_drive_info(),
        only_smaller(new, decoded(bytes)),
        drive_start(bytes) <= k < int_count(bytes),
        forall|i: nat|
            i < int_count(bytes) ==> 0 <= #[trigger] int_at(bytes, i) <= tag_max(
                bytes[nth_int(bytes, i)],
            ) && int_at(bytes, i) <= u64::MAX,
    ensures
        new.fits(bytes, k),
{
    lemma_int_count(bytes);
    assert(drive_index(bytes, 0) == new.drive_info_index(0));
    lemma_drive_aligned(new, bytes, 0);
    lemma_drive_aligned(new, bytes, 1);
    lemma_drive_aligned(new, bytes, 2);
    lemma_drive_aligned(new, bytes, 3);
    assert(exists|j: nat|
        j < 4 && (k == #[trigger] drive_index(bytes, j) || k == drive_index(bytes, j) + 1
            && int_at(bytes, drive_index(bytes, j)) != 0)) by {
        if k < drive_index(bytes, 1) {
            assert(k == drive_index(bytes, 0) || k == drive_index(bytes, 0) + 1);
        } else if k < drive_index(bytes, 2) {
            assert(k == drive_index(bytes, 1) || k == drive_index(bytes, 1) + 1);
        } else if k < drive_index(bytes, 3) {
            assert(k == drive_index(bytes, 2) || k == drive_index(bytes, 2) + 1);
        } else {
            assert(k == drive_index(bytes, 3) || k == drive_index(bytes, 3) + 1);
        }
    }
    let j = choose|j: nat|
        j < 4 && (k == #[trigger] drive_index(bytes, j) || k == drive_index(bytes, j) + 1
            && int_at(bytes, drive_index(bytes, j)) != 0);
    new.lemma_drive_info_at(j);
    lemma_drive_aligned_at(new, bytes, j);
    assert(new.drive_info(j) == drive_value(bytes, j));
    let p = drive_index(bytes, j);
    assert(is_flag(bytes, p));
    if k != p {
        assert(!is_flag(bytes, k));
        assert(0 <= int_at(bytes, k) <= u64::MAX);
    }
}

proof fn lemma_drive_aligned(new: FsEntryMetadata, bytes: Seq<u8>, j: nat)
    requires
        header_is_drive(bytes),
        only_smaller(new, decoded(bytes)),
        j < 4,
        drive_index(bytes, j) == new.drive_info_index(j),
    ensures
        drive_index(bytes, j + 1) == new.drive_info_index(j + 1),
{
    assert(new.drive_info(j) == drive_value(bytes, j));
}

proof fn lemma_drive_aligned_at(new: FsEntryMetadata, bytes: Seq<u8>, j: nat)
    requires
        header_is_drive(bytes),
        only_smaller(new, decoded(bytes)),
        j < 4,
    ensures
        drive_index(bytes, j) == new.drive_info_index(j),
    decreases j,
{
    if j == 0 {
        assert(drive_index(bytes, 0) == drive_start(bytes));
    } else {
        lemma_drive_aligned_at(new, bytes, (j - 1) as nat);
        lemma_drive_aligned(new, bytes, (j - 1) as nat);
    }
}

/// Stored metadata is never replaced by metadata of something else: it stays the one of a
/// file or of a folder with the same number of entries, and of a drive or of no drive. The
/// error tells what is different.
pub proof fn law_kinds_of_entries_stay(new: FsEntryMetadata, bytes: Seq<u8>)
    requires
        layout_ok(bytes),
    ensures
        new.update_error(bytes) is None ==> new.is_dir == decoded(bytes).is_dir && new.children
            == decoded(bytes).children && new.spec_has_drive_info() == header_is_drive(bytes),
        new.spec_has_drive_info() == header_is_drive(bytes) && new.is_dir != decoded(bytes).is_dir
            ==> new.update_error(bytes) == Some(MetadataUpdateError::ChangedIsFolder),
        new.spec_has_drive_info() == header_is_drive(bytes) && new.is_dir == decoded(bytes).is_dir
            && new.children != decoded(bytes).children ==> new.update_error(bytes) == Some(
            MetadataUpdateError::ChangedChildren,
        ),
        new.spec_has_drive_info() != header_is_drive(bytes) ==> new.update_error(bytes) == Some(
            MetadataUpdateError::ChangedIsDrive,
        ),
{
}

} // verus!
