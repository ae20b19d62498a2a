//! Output that is split at places that depend only on the data just before them, so
//! that compressed files of similar data are similar.
use vstd::prelude::*;

verus! {

/// The bits of the hash that are kept.
pub const RSYNC_MASK: u32 = 0xfff;

/// The hash at which output is split.
pub const RSYNC_HIT: u32 = 0x7ff;

/// The hash after one more byte.
pub open spec fn next_hash(hash: u32, byte: u8) -> u32 {
    ((hash << 1u32) ^ (byte as u32)) & RSYNC_MASK
}

/// The hash after some more bytes.
pub open spec fn hash_after(hash: u32, bytes: Seq<u8>) -> u32
    decreases bytes.len(),
{
    if bytes.len() == 0 {
        hash
    } else {
        next_hash(hash_after(hash, bytes.drop_last()), bytes.last())
    }
}

/// Whether output is split after the given number of bytes.
pub open spec fn splits_after(hash: u32, bytes: Seq<u8>, len: int) -> bool {
    0 < len <= bytes.len() && hash_after(hash, bytes.take(len)) == RSYNC_HIT
}

/// All places where output is split, the first of them first.
pub open spec fn split_places(hash: u32, bytes: Seq<u8>) -> Seq<int>
    decreases bytes.len(),
{
    if bytes.len() == 0 {
        seq![]
    } else {
        let before = split_places(hash, bytes.drop_last());
        if hash_after(hash, bytes) == RSYNC_HIT {
            before.push(bytes.len() as int)
        } else {
            before
        }
    }
}

/// Places that are counted from an earlier start.
pub open spec fn moved_places(places: Seq<int>, by: nat) -> Seq<int> {
    places.map_values(|place: int| place + by)
}

/// Data that was cut.
pub open spec fn joined(cuts: Seq<Seq<u8>>) -> Seq<u8>
    decreases cuts.len(),
{
    if cuts.len() == 0 {
        seq![]
    } else {
        joined(cuts.drop_last()) + cuts.last()
    }
}

/// The hash after data that is written cut by cut.
pub open spec fn hash_after_cuts(hash: u32, cuts: Seq<Seq<u8>>) -> u32
    decreases cuts.len(),
{
    if cuts.len() == 0 {
        hash
    } else {
        hash_after(hash_after_cuts(hash, cuts.drop_last()), cuts.last())
    }
}

/// All places where the output of data that is written cut by cut is split.
pub open spec fn split_places_of_cuts(hash: u32, cuts: Seq<Seq<u8>>) -> Seq<int>
    decreases cuts.len(),
{
    if cuts.len() == 0 {
        seq![]
    } else {
        let earlier = cuts.drop_last();
        split_places_of_cuts(hash, earlier) + moved_places(
            split_places(hash_after_cuts(hash, earlier), cuts.last()),
            joined(earlier).len(),
        )
    }
}

/// What to write next.
#[derive(Debug, Clone, Copy, PartialEq, Eq, Structural)]
pub struct RsyncablePiece {
    /// The number of bytes to write.
    pub len: usize,
    /// Whether to flush the output after them.
    pub flush: bool,
    /// The hash after them.
    pub hash: u32,
}

/// Flushes the wrapped output when certain patterns are found in the data.
pub struct Rsyncable<T> {
    pub inner: T,
    pub hash: u32,
}

impl<T> Rsyncable<T> {
    pub fn new(inner: T) -> (result: Self)
        ensures
            result.inner == inner,
            result.hash == RSYNC_HIT,
    {
        Rsyncable { inner, hash: RSYNC_HIT }
    }

    /// What to write next of some data: everything up to the first place where the
    /// output is split, after which it is flushed, or all of it.
    pub fn next_piece(&self, data: &[u8]) -> (piece: RsyncablePiece)
        ensures
            piece.len <= data@.len(),
            piece.hash == hash_after(self.hash, data@.take(piece.len as int)),
            piece.flush ==> splits_after(self.hash, data@, piece.len as int),
            !piece.flush ==> piece.len == data@.len(),
            forall|n: int|
                #![trigger splits_after(self.hash, data@, n)]
                (n < piece.len || !piece.flush) ==> !splits_after(self.hash, data@, n),
            split_places(self.hash, data@) == (if piece.flush {
                seq![piece.len as int]
            } else {
                seq![]
            }) + moved_places(
                split_places(piece.hash, data@.skip(piece.len as int)),
                piece.len as nat,
            ),
    {
        let len: usize = data.len();
        let mut hash: u32 = self.hash;
        let mut i: usize = 0;
        assert(data@.take(0) == Seq::<u8>::empty());
        while i < len
            invariant
                i <= len,
                len == data@.len(),
                hash == hash_after(self.hash, data@.take(i as int)),
                split_places(self.hash, data@.take(i as int)) == Seq::<int>::empty(),
                forall|n: int|
                    #![trigger splits_after(self.hash, data@, n)]
                    n <= i ==> !splits_after(self.hash, data@, n),
            decreases len - i,
        {
            proof {
                assert(data@.take(i + 1).drop_last() == data@.take(i as int));
                assert(data@.take(i + 1).last() == data@[i as int]);
            }
            hash = ((hash << 1u32) ^ (data[i] as u32)) & RSYNC_MASK;
            if hash == RSYNC_HIT {
                proof {
                    let done = data@.take(i + 1);
                    assert(split_places(self.hash, done) == seq![i + 1]);
                    law_split_places_of_joined_data(self.hash, done, data@.skip(i + 1));
                    assert(done + data@.skip(i + 1) == data@);
                }
                return RsyncablePiece { len: i + 1, flush: true, hash };
            }
            i = i + 1;
        }
        proof {
            assert(data@.take(i as int) == data@);
            assert(data@.skip(i as int) == Seq::<u8>::empty());
        }
        RsyncablePiece { len, flush: false, hash }
    }

    /// Goes on after a piece was written.
    pub fn advance(&mut self, piece: RsyncablePiece)
        ensures
            final(self).hash == piece.hash,
            final(self).inner == old(self).inner,
    {
        self.hash = piece.hash;
    }
}

/// Where output is split depends only on the twelve bytes before that place: after
/// the same twelve bytes all hashes are the same.
pub proof fn law_splits_depend_on_recent_bytes(a: u32, b: u32, bytes: Seq<u8>)
    requires
        bytes.len() >= 12,
    ensures
        hash_after(a, bytes) == hash_after(b, bytes),
{
    lemma_hash_difference(a, b, bytes);
    let x = hash_after(a, bytes);
    let y = hash_after(b, bytes);
    assert(((1u32 << 12u32) - 1u32) as u32 == 0xfffu32) by (bit_vector);
    assert((x ^ y) & 0xfffu32 == 0 && x & 0xfffu32 == x && y & 0xfffu32 == y ==> x == y)
        by (bit_vector);
}

/// The listed places are the places where output is split.
pub proof fn law_split_places_are_listed(hash: u32, bytes: Seq<u8>, place: int)
    ensures
        split_places(hash, bytes).contains(place) <==> splits_after(hash, bytes, place),
    decreases bytes.len(),
{
    if bytes.len() > 0 {
        let rest = bytes.drop_last();
        let len = bytes.len() as int;
        let before = split_places(hash, rest);
        law_split_places_are_listed(hash, rest, place);
        assert(bytes.take(len) == bytes);
        if 0 <= place < len {
            assert(bytes.take(place) == rest.take(place));
        }
        if hash_after(hash, bytes) == RSYNC_HIT {
            let all = before.push(len);
            assert(all[before.len() as int] == len);
            if before.contains(place) {
                let i = before.index_of(place);
                assert(all[i] == place);
            }
            if all.contains(place) && place != len {
                let i = all.index_of(place);
                assert(before[i] == place);
            }
        }
    }
}

/// Output of data that goes on is split at the places before that and at those of
/// what follows, after the hash so far.
pub proof fn law_split_places_of_joined_data(hash: u32, first: Seq<u8>, second: Seq<u8>)
    ensures
        hash_after(hash, first + second) == hash_after(hash_after(hash, first), second),
        split_places(hash, first + second) == split_places(hash, first) + moved_places(
            split_places(hash_after(hash, first), second),
            first.len(),
        ),
    decreases second.len(),
{
    if second.len() == 0 {
        assert(first + second == first);
    } else {
        let rest = second.drop_last();
        law_split_places_of_joined_data(hash, first, rest);
        assert((first + second).drop_last() == first + rest);
        assert((first + second).last() == second.last());
    }
}

/// Where output is flushed does not depend on how the data was cut into pieces.
pub proof fn law_cuts_do_not_move_splits(hash: u32, cuts: Seq<Seq<u8>>)
    ensures
        hash_after_cuts(hash, cuts) == hash_after(hash, joined(cuts)),
        split_places_of_cuts(hash, cuts) == split_places(hash, joined(cuts)),
    decreases cuts.len(),
{
    if cuts.len() > 0 {
        let earlier = cuts.drop_last();
        law_cuts_do_not_move_splits(hash, earlier);
        law_split_places_of_joined_data(hash, joined(earlier), cuts.last());
    }
}

/// After some bytes, hashes differ only in bits above that number.
proof fn lemma_hash_difference(a: u32, b: u32, bytes: Seq<u8>)
    ensures
        ({
            let n = if bytes.len() < 12 {
                bytes.len() as u32
            } else {
                12u32
            };
            &&& (hash_after(a, bytes) ^ hash_after(b, bytes)) & sub_one(n) == 0
            &&& bytes.len() > 0 ==> hash_after(a, bytes) & 0xfffu32 == hash_after(a, bytes)
            &&& bytes.len() > 0 ==> hash_after(b, bytes) & 0xfffu32 == hash_after(b, bytes)
        }),
    decreases bytes.len(),
{
    if bytes.len() == 0 {
        assert((a ^ b) & sub_one(0) == 0) by {
            assert((a ^ b) & ((1u32 << 0u32) - 1u32) as u32 == 0) by (bit_vector);
        }
    } else {
        let rest = bytes.drop_last();
        lemma_hash_difference(a, b, rest);
        let x = hash_after(a, rest);
        let y = hash_after(b, rest);
        let byte = bytes.last() as u32;
        let n = if rest.len() < 12 {
            rest.len() as u32
        } else {
            12u32
        };
        let m = if bytes.len() < 12 {
            bytes.len() as u32
        } else {
            12u32
        };
        let p = ((x << 1u32) ^ byte) & 0xfffu32;
        let q = ((y << 1u32) ^ byte) & 0xfffu32;
        assert(p & 0xfffu32 == p && q & 0xfffu32 == q) by (bit_vector)
            requires
                p == ((x << 1u32) ^ byte) & 0xfffu32,
                q == ((y << 1u32) ^ byte) & 0xfffu32,
        ;
        assert((p ^ q) & (((1u32 << m) - 1u32) as u32) == 0) by (bit_vector)
            requires
                p == ((x << 1u32) ^ byte) & 0xfffu32,
                q == ((y << 1u32) ^ byte) & 0xfffu32,
                n <= 12,
                m <= 12,
                m <= n + 1,
                (x ^ y) & (((1u32 << n) - 1u32) as u32) == 0,
        ;
    }
}

/// A number with the given number of low bits set.
spec fn sub_one(n: u32) -> u32 {
    ((1u32 << n) - 1u32) as u32
}

} // verus!
