//! Variable length integers: numbers below 253 take a single byte, larger ones
//! a tag byte followed by two, four or eight little endian bytes.
use vstd::prelude::*;

verus! {

/// Number of bytes taken by an integer that starts with the byte `tag`.
pub open spec fn tag_width(tag: u8) -> int {
    if tag < 253 {
        1
    } else if tag == 253 {
        3
    } else if tag == 254 {
        5
    } else {
        9
    }
}

/// Largest number that fits in an integer that starts with the byte `tag`.
pub open spec fn tag_max(tag: u8) -> int {
    if tag < 253 {
        252
    } else if tag == 253 {
        0xffff
    } else if tag == 254 {
        0xffff_ffff
    } else {
        0xffff_ffff_ffff_ffff
    }
}

/// Number stored in `count` little endian bytes starting at `at`.
pub open spec fn le_value(bytes: Seq<u8>, at: int, count: nat) -> int
    decreases count,
{
    if count == 0 {
        0
    } else {
        bytes[at] + 256 * le_value(bytes, at + 1, (count - 1) as nat)
    }
}

/// The `count` least significant bytes of a number in little endian order.
pub open spec fn le_bytes(value: int, count: nat) -> Seq<u8>
    decreases count,
{
    if count == 0 {
        seq![]
    } else {
        seq![(value % 256) as u8] + le_bytes(value / 256, (count - 1) as nat)
    }
}

/// Whether a complete integer starts at `at`.
pub open spec fn int_ok(bytes: Seq<u8>, at: int) -> bool {
    0 <= at < bytes.len() && at + tag_width(bytes[at]) <= bytes.len()
}

/// Position right after the integer that starts at `at`.
pub open spec fn int_end(bytes: Seq<u8>, at: int) -> int {
    at + tag_width(bytes[at])
}

/// Number stored by the integer that starts at `at`.
pub open spec fn int_value(bytes: Seq<u8>, at: int) -> int {
    if bytes[at] < 253 {
        bytes[at] as int
    } else {
        le_value(bytes, at + 1, (tag_width(bytes[at]) - 1) as nat)
    }
}

/// The tag of the smallest integer that can hold a value.
pub open spec fn smallest_tag(value: int) -> u8 {
    if value < 253 {
        value as u8
    } else if value <= 0xffff {
        253
    } else if value <= 0xffff_ffff {
        254
    } else {
        255
    }
}

/// The bytes of the smallest integer that can hold a value.
pub open spec fn int_bytes(value: int) -> Seq<u8> {
    seq![smallest_tag(value)] + le_bytes(value, (tag_width(smallest_tag(value)) - 1) as nat)
}

/// Two byte sequences that hold the same bytes from `start` until `end`.
pub open spec fn same_bytes(a: Seq<u8>, b: Seq<u8>, start: int, end: int) -> bool {
    forall|i: int|
        #![trigger a[i]]
        #![trigger b[i]]
        start <= i < end ==> a[i] == b[i]
}

pub open spec fn pow256(count: nat) -> int
    decreases count,
{
    if count == 0 {
        1
    } else {
        256 * pow256((count - 1) as nat)
    }
}

pub proof fn lemma_pow256()
    ensures
        pow256(0) == 1,
        pow256(1) == 0x100,
        pow256(2) == 0x1_0000,
        pow256(3) == 0x100_0000,
        pow256(4) == 0x1_0000_0000,
        pow256(5) == 0x100_0000_0000,
        pow256(6) == 0x1_0000_0000_0000,
        pow256(7) == 0x100_0000_0000_0000,
        pow256(8) == 0x1_0000_0000_0000_0000,
{
    reveal_with_fuel(pow256, 9);
}

/// A little endian number is smaller than the number of values its bytes can
/// take.
pub proof fn lemma_le_value_bound(bytes: Seq<u8>, at: int, count: nat)
    ensures
        0 <= le_value(bytes, at, count) < pow256(count),
    decreases count,
{
    if count > 0 {
        lemma_le_value_bound(bytes, at + 1, (count - 1) as nat);
    }
}

/// A stored integer never exceeds what its tag allows.
pub proof fn lemma_int_value_bound(bytes: Seq<u8>, at: int)
    ensures
        0 <= int_value(bytes, at) <= tag_max(bytes[at]),
{
    lemma_pow256();
    lemma_le_value_bound(bytes, at + 1, (tag_width(bytes[at]) - 1) as nat);
}

/// A little endian number is determined by its bytes alone.
pub proof fn lemma_le_value_same(a: Seq<u8>, b: Seq<u8>, at: int, shift: int, count: nat)
    requires
        forall|i: int| at <= i < at + count ==> a[i] == #[trigger] b[i + shift],
    ensures
        le_value(a, at, count) == le_value(b, at + shift, count),
    decreases count,
{
    if count > 0 {
        assert(a[at] == b[at + shift]);
        lemma_le_value_same(a, b, at + 1, shift, (count - 1) as nat);
    }
}

/// An integer is determined by its bytes alone.
pub proof fn lemma_int_same(a: Seq<u8>, b: Seq<u8>, at: int, shift: int)
    requires
        forall|i: int| at <= i < at + tag_width(a[at]) ==> a[i] == #[trigger] b[i + shift],
    ensures
        int_end(a, at) + shift == int_end(b, at + shift),
        int_value(a, at) == int_value(b, at + shift),
        a[at] == b[at + shift],
{
    assert(a[at] == b[at + shift]);
    if a[at] >= 253 {
        lemma_le_value_same(a, b, at + 1, shift, (tag_width(a[at]) - 1) as nat);
    }
}

/// Reading the bytes of a number gives back the number.
pub proof fn lemma_le_round_trip(bytes: Seq<u8>, at: int, value: int, count: nat)
    requires
        0 <= value < pow256(count),
        forall|i: int| 0 <= i < count ==> bytes[at + i] == #[trigger] le_bytes(value, count)[i],
    ensures
        le_value(bytes, at, count) == value,
        le_bytes(value, count).len() == count,
    decreases count,
{
    lemma_le_bytes_len(value, count);
    if count > 0 {
        let rest = (count - 1) as nat;
        lemma_le_bytes_len(value / 256, rest);
        assert(bytes[at + 0] == le_bytes(value, count)[0]);
        assert forall|i: int| 0 <= i < rest implies bytes[at + 1 + i] == #[trigger] le_bytes(
            value / 256,
            rest,
        )[i] by {
            assert(bytes[at + (i + 1)] == le_bytes(value, count)[i + 1]);
        }
        lemma_le_round_trip(bytes, at + 1, value / 256, rest);
    }
}

pub proof fn lemma_le_bytes_len(value: int, count: nat)
    ensures
        le_bytes(value, count).len() == count,
    decreases count,
{
    if count > 0 {
        lemma_le_bytes_len(value / 256, (count - 1) as nat);
    }
}

/// Reading an encoded integer gives back the encoded number.
pub proof fn lemma_int_round_trip(bytes: Seq<u8>, at: int, value: int)
    requires
        0 <= value <= u64::MAX,
        0 <= at,
        at + int_bytes(value).len() <= bytes.len(),
        bytes.subrange(at, at + int_bytes(value).len()) == int_bytes(value),
    ensures
        int_ok(bytes, at),
        int_value(bytes, at) == value,
        int_end(bytes, at) == at + int_bytes(value).len(),
        int_bytes(value).len() == tag_width(smallest_tag(value)),
        bytes[at] == smallest_tag(value),
{
    lemma_pow256();
    let count = (tag_width(smallest_tag(value)) - 1) as nat;
    lemma_le_bytes_len(value, count);
    assert(bytes[at] == bytes.subrange(at, at + int_bytes(value).len())[0]);
    assert forall|i: int| 0 <= i < count implies bytes[at + 1 + i] == #[trigger] le_bytes(
        value,
        count,
    )[i] by {
        assert(bytes.subrange(at, at + int_bytes(value).len())[i + 1] == int_bytes(value)[i + 1]);
    }
    if value >= 253 {
        lemma_le_round_trip(bytes, at + 1, value, count);
    }
}

/// Reads the little endian number made of `count` bytes starting at `at`.
pub fn read_le(bytes: &[u8], at: usize, count: usize) -> (value: u64)
    requires
        at + count <= bytes@.len(),
        count <= 8,
    ensures
        value == le_value(bytes@, at as int, count as nat),
    decreases count,
{
    let len: usize = bytes.len();
    assert(at + count <= len);
    if count == 0 {
        0
    } else {
        let rest: u64 = read_le(bytes, at + 1, count - 1);
        proof {
            lemma_pow256();
            lemma_le_value_bound(bytes@, at + 1, (count - 1) as nat);
        }
        bytes[at] as u64 + 256 * rest
    }
}

/// Overwrites `count` bytes starting at `at` with the least significant bytes
/// of `value`.
pub fn write_le(bytes: &mut [u8], at: usize, count: usize, value: u64)
    requires
        at + count <= old(bytes)@.len(),
        value < pow256(count as nat),
    ensures
        final(bytes)@.len() == old(bytes)@.len(),
        final(bytes)@.subrange(at as int, at + count) == le_bytes(value as int, count as nat),
        le_value(final(bytes)@, at as int, count as nat) == value,
        same_bytes(old(bytes)@, final(bytes)@, 0, at as int),
        same_bytes(old(bytes)@, final(bytes)@, at + count, old(bytes)@.len() as int),
{
    let len: usize = bytes.len();
    let mut done: usize = 0;
    let mut rest: u64 = value;
    proof {
        lemma_le_bytes_len(value as int, count as nat);
    }
    while done < count
        invariant
            done <= count,
            at + count <= len,
            bytes@.len() == len,
            bytes@.len() == old(bytes)@.len(),
            le_bytes(value as int, count as nat).len() == count,
            le_bytes(value as int, count as nat) == bytes@.subrange(at as int, at + done)
                + le_bytes(rest as int, (count - done) as nat),
            same_bytes(old(bytes)@, bytes@, 0, at as int),
            same_bytes(old(bytes)@, bytes@, at + count, old(bytes)@.len() as int),
        decreases count - done,
    {
        let ghost before = bytes@;
        bytes[at + done] = (rest % 256) as u8;
        proof {
            assert(bytes@.subrange(at as int, at + done + 1) == before.subrange(
                at as int,
                at + done,
            ).push((rest % 256) as u8));
            lemma_le_bytes_len(rest as int / 256, (count - done - 1) as nat);
            assert(le_bytes(value as int, count as nat) == bytes@.subrange(
                at as int,
                at + done + 1,
            ) + le_bytes(rest as int / 256, (count - done - 1) as nat));
        }
        rest = rest / 256;
        done = done + 1;
    }
    proof {
        assert(bytes@.subrange(at as int, at + count) == le_bytes(value as int, count as nat));
        assert forall|i: int| 0 <= i < count implies bytes@[at + i] == #[trigger] le_bytes(
            value as int,
            count as nat,
        )[i] by {
            assert(bytes@.subrange(at as int, at + count)[i] == bytes@[at + i]);
        }
        lemma_le_round_trip(bytes@, at as int, value as int, count as nat);
    }
}

/// Reads the integer that starts at `at` and returns it with the number of
/// bytes it takes.
pub fn read_dyn_sized_int(bytes: &[u8], at: usize) -> (result: (u64, usize))
    requires
        int_ok(bytes@, at as int),
    ensures
        result.0 == int_value(bytes@, at as int),
        at + result.1 == int_end(bytes@, at as int),
{
    let len: usize = bytes.len();
    let tag: u8 = bytes[at];
    assert(at + tag_width(tag) <= len);
    if tag < 253 {
        (tag as u64, 1)
    } else if tag == 253 {
        (read_le(bytes, at + 1, 2), 3)
    } else if tag == 254 {
        (read_le(bytes, at + 1, 4), 5)
    } else {
        (read_le(bytes, at + 1, 8), 9)
    }
}

/// Writes the provided value into the buffer at `at` and returns the number of
/// used bytes. The smallest integer that can hold the value is used.
pub fn write_dyn_sized_int(buffer: &mut [u8], at: usize, value: u64) -> (used: usize)
    requires
        at + tag_width(smallest_tag(value as int)) <= old(buffer)@.len(),
    ensures
        final(buffer)@.len() == old(buffer)@.len(),
        used == int_bytes(value as int).len(),
        used == tag_width(smallest_tag(value as int)),
        final(buffer)@.subrange(at as int, at + used) == int_bytes(value as int),
        same_bytes(old(buffer)@, final(buffer)@, 0, at as int),
        same_bytes(old(buffer)@, final(buffer)@, at + used, old(buffer)@.len() as int),
{
    let (tag, width): (u8, usize) = if value < 253 {
        (value as u8, 1)
    } else if value <= 0xffff {
        (253, 3)
    } else if value <= 0xffff_ffff {
        (254, 5)
    } else {
        (255, 9)
    };
    let len: usize = buffer.len();
    assert(at + width <= len);
    buffer[at] = tag;
    proof {
        lemma_pow256();
        lemma_le_bytes_len(value as int, (width - 1) as nat);
    }
    if width > 1 {
        write_le(buffer, at + 1, width - 1, value);
    }
    proof {
        assert(buffer@.subrange(at as int, at + width) == seq![tag] + buffer@.subrange(
            at + 1,
            at + width,
        ));
        assert(buffer@.subrange(at + 1, at + width) == le_bytes(value as int, (width - 1) as nat));
    }
    width
}

/// Replaces the integer that starts at `at` with a new value if the value fits
/// in the bytes that the integer already takes.
///
/// Returns `None`, and changes nothing, if the existing integer is too small to
/// hold the new value.
pub fn update_dyn_sized_int(buffer: &mut [u8], at: usize, value: u64) -> (result: Option<usize>)
    requires
        int_ok(old(buffer)@, at as int),
    ensures
        result is Some <==> value <= tag_max(old(buffer)@[at as int]),
        result is None ==> final(buffer)@ == old(buffer)@,
        result matches Some(width) ==> {
            &&& final(buffer)@.len() == old(buffer)@.len()
            &&& at + width == int_end(old(buffer)@, at as int)
            &&& at + width == int_end(final(buffer)@, at as int)
            &&& int_value(final(buffer)@, at as int) == value
            &&& tag_max(final(buffer)@[at as int]) == tag_max(old(buffer)@[at as int])
            &&& same_bytes(old(buffer)@, final(buffer)@, 0, at as int)
            &&& same_bytes(old(buffer)@, final(buffer)@, at + width, old(buffer)@.len() as int)
        },
{
    proof {
        lemma_pow256();
    }
    let len: usize = buffer.len();
    let tag: u8 = buffer[at];
    assert(at + tag_width(tag) <= len);
    if tag < 253 {
        if value < 253 {
            buffer[at] = value as u8;
            Some(1)
        } else {
            None
        }
    } else if tag == 253 {
        if value <= 0xffff {
            write_le(buffer, at + 1, 2, value);
            assert(buffer@[at as int] == tag);
            Some(3)
        } else {
            None
        }
    } else if tag == 254 {
        if value <= 0xffff_ffff {
            write_le(buffer, at + 1, 4, value);
            assert(buffer@[at as int] == tag);
            Some(5)
        } else {
            None
        }
    } else {
        write_le(buffer, at + 1, 8, value);
        assert(buffer@[at as int] == tag);
        Some(9)
    }
}

} // verus!
