//! Finding and reading the volume that has a master file table.
use vstd::prelude::*;

use crate::text::{chars_of, same_text, text_of, views};
use crate::text_format::trim_end;
use crate::text_lines::{
    is_word, law_white_space_separates_words, lines, split_lines, split_words, words,
};

verus! {

/// Why the master file table of a path was not found.
#[derive(Debug)]
pub enum GetMftError {
    InvalidPath(String),
    NotNtfsVolume(String),
    VolumeResolutionFailed(String),
}

impl GetMftError {
    /// The message of the error.
    pub fn to_text(&self) -> (text: String)
        ensures
            text@ == match self {
                GetMftError::InvalidPath(e) => "invalid path: "@ + e@,
                GetMftError::NotNtfsVolume(e) => "path was not on a NTFS volume: "@ + e@,
                GetMftError::VolumeResolutionFailed(e) =>
                    "failed to resolve mount point for scan path: "@ + e@,
            },
    {
        match self {
            GetMftError::InvalidPath(e) => joined("invalid path: ", e.as_str()),
            GetMftError::NotNtfsVolume(e) => joined("path was not on a NTFS volume: ", e.as_str()),
            GetMftError::VolumeResolutionFailed(e) => joined(
                "failed to resolve mount point for scan path: ",
                e.as_str(),
            ),
        }
    }
}

fn joined(first: &str, second: &str) -> (text: String)
    ensures
        text@ == first@ + second@,
{
    let mut text: String = first.to_owned();
    text.append(second);
    text
}

/// A line of a table of mounted file systems.
pub struct MountLine {
    pub device: String,
    pub mount_point: String,
    pub file_system: String,
}

#[verifier::ext_equal]
pub struct MountLineView {
    pub device: Seq<char>,
    pub mount_point: Seq<char>,
    pub file_system: Seq<char>,
}

impl View for MountLine {
    type V = MountLineView;

    open spec fn view(&self) -> MountLineView {
        MountLineView {
            device: self.device@,
            mount_point: self.mount_point@,
            file_system: self.file_system@,
        }
    }
}

pub open spec fn mount_views(mounts: Seq<MountLine>) -> Seq<MountLineView> {
    mounts.map_values(|m: MountLine| m@)
}

/// The lines with at least three words: device, mount point and file system.
pub open spec fn mount_lines(texts: Seq<Seq<char>>) -> Seq<MountLineView>
    decreases texts.len(),
{
    if texts.len() == 0 {
        seq![]
    } else {
        let before = mount_lines(texts.drop_last());
        let parts = words(texts.last());
        if parts.len() < 3 {
            before
        } else {
            before.push(
                MountLineView {
                    device: parts[0],
                    mount_point: parts[1],
                    file_system: parts[2],
                },
            )
        }
    }
}

/// Reads a table of mounted file systems.
pub fn parse_mounts(text: &str) -> (mounts: Vec<MountLine>)
    ensures
        mount_views(mounts@) == mount_lines(lines(text@)),
{
    let texts = split_lines(text);
    let ghost all = lines(text@);
    let mut mounts: Vec<MountLine> = Vec::new();
    let mut i: usize = 0;
    proof {
        assert(all.take(0) == Seq::<Seq<char>>::empty());
        assert(mount_views(mounts@) == Seq::<MountLineView>::empty());
    }
    while i < texts.len()
        invariant
            i <= texts@.len(),
            all == views(texts@),
            mount_views(mounts@) == mount_lines(all.take(i as int)),
        decreases texts@.len() - i,
    {
        proof {
            assert(all.take(i + 1).drop_last() == all.take(i as int));
            assert(all.take(i + 1).last() == texts@[i as int]@);
        }
        let parts = split_words(texts[i].as_str());
        let ghost before = mounts@;
        if parts.len() >= 3 {
            let line = MountLine {
                device: parts[0].clone(),
                mount_point: parts[1].clone(),
                file_system: parts[2].clone(),
            };
            let ghost added = line@;
            mounts.push(line);
            proof {
                assert(views(parts@)[0] == parts@[0]@);
                assert(views(parts@)[1] == parts@[1]@);
                assert(views(parts@)[2] == parts@[2]@);
                assert(mount_views(mounts@) == mount_views(before).push(added));
            }
        }
        i = i + 1;
    }
    assert(all.take(i as int) == all);
    mounts
}

/// The separator of paths on Unix.
pub const SLASH: u8 = 0x2f;

/// Whether a path is a folder or something inside it. Both paths are absolute and
/// have no redundant parts.
pub open spec fn is_inside(path: Seq<u8>, folder: Seq<u8>) -> bool {
    &&& folder.len() <= path.len()
    &&& path.take(folder.len() as int) == folder
    &&& folder.len() == path.len() || folder.len() == 0 || folder.last() == SLASH || path[folder.len() as int]
        == SLASH
}

fn path_is_inside(path: &Vec<u8>, folder: &Vec<u8>) -> (result: bool)
    ensures
        result == is_inside(path@, folder@),
{
    if folder.len() > path.len() {
        return false;
    }
    let mut i: usize = 0;
    while i < folder.len()
        invariant
            i <= folder@.len() <= path@.len(),
            forall|k: int| 0 <= k < i ==> path@[k] == folder@[k],
        decreases folder@.len() - i,
    {
        if path[i] != folder[i] {
            assert(path@.take(folder@.len() as int)[i as int] == path@[i as int]);
            return false;
        }
        i = i + 1;
    }
    assert(path@.take(folder@.len() as int) == folder@);
    let len: usize = folder.len();
    len == path.len() || len == 0 || folder[len - 1] == SLASH || path[len] == SLASH
}

/// The place of the mount point that a path belongs to: the longest one that the
/// path is inside, the first of these if there are several.
pub open spec fn best_mount(path: Seq<u8>, points: Seq<Option<Seq<u8>>>) -> Option<int>
    decreases points.len(),
{
    if points.len() == 0 {
        None
    } else {
        let last = points.len() - 1;
        let before = best_mount(path, points.drop_last());
        match points[last] {
            Some(point) => if is_inside(path, point) && (before matches Some(best)
                ==> point.len() > points[best]->0.len()) {
                Some(last)
            } else {
                before
            },
            None => before,
        }
    }
}

pub open spec fn point_views(points: Seq<Option<Vec<u8>>>) -> Seq<Option<Seq<u8>>> {
    points.map_values(
        |p: Option<Vec<u8>>|
            match p {
                Some(p) => Some(p@),
                None => None,
            },
    )
}

/// The place of the mount point that a path belongs to. Mount points that could not
/// be resolved are `None`.
pub fn find_mount(path: &Vec<u8>, points: &Vec<Option<Vec<u8>>>) -> (best: Option<usize>)
    ensures
        best is Some <==> best_mount(path@, point_views(points@)) is Some,
        best matches Some(best) ==> best < points@.len() && best_mount(path@, point_views(points@))
            == Some(best as int),
{
    let ghost all = point_views(points@);
    let mut best: Option<usize> = None;
    let mut i: usize = 0;
    assert(all.take(0) == Seq::<Option<Seq<u8>>>::empty());
    while i < points.len()
        invariant
            i <= points@.len(),
            all == point_views(points@),
            best is Some <==> best_mount(path@, all.take(i as int)) is Some,
            best matches Some(best) ==> best_mount(path@, all.take(i as int)) == Some(best as int),
            best matches Some(best) ==> best < i && points@[best as int] is Some,
        decreases points@.len() - i,
    {
        proof {
            assert(all.take(i + 1).drop_last() == all.take(i as int));
            assert(all.take(i + 1)[i as int] == all[i as int]);
        }
        if let Some(point) = &points[i] {
            assert(all[i as int] == Some(point@));
            if path_is_inside(path, point) {
                let longer: bool = match best {
                    Some(best) => match &points[best] {
                        Some(other) => {
                            assert(all.take(i + 1)[best as int] == Some(other@));
                            point.len() > other.len()
                        },
                        None => true,
                    },
                    None => true,
                };
                if longer {
                    best = Some(i);
                }
            }
        }
        i = i + 1;
    }
    assert(all.take(i as int) == all);
    best
}

/// File systems that have a master file table.
pub open spec fn is_ntfs(file_system: Seq<char>) -> bool {
    ||| file_system == "ntfs"@
    ||| file_system == "ntfs3"@
    ||| file_system == "fuseblk"@
    ||| file_system == "fuse.ntfs"@
    ||| file_system == "fuse.ntfs-3g"@
}

/// The file system in the first line of a mount table that starts with the name of
/// a device. `None` if there is no such line, or it has less than three words.
pub open spec fn device_file_system(texts: Seq<Seq<char>>, device: Seq<char>) -> Option<Seq<char>>
    decreases texts.len(),
{
    if texts.len() == 0 {
        None
    } else {
        let parts = words(texts[0]);
        if parts.len() > 0 && parts[0] == device {
            if parts.len() > 2 {
                Some(parts[2])
            } else {
                None
            }
        } else {
            device_file_system(texts.skip(1), device)
        }
    }
}

/// An error if the file system on a device is not NTFS.
pub fn ensure_ntfs(mounts: &str, device: &str) -> (result: Result<(), GetMftError>)
    ensures
        match device_file_system(lines(mounts@), device@) {
            None => result matches Err(GetMftError::NotNtfsVolume(text)) && text@
                == "Failed to find mount entry"@,
            Some(found) => if is_ntfs(found) {
                result is Ok
            } else {
                result matches Err(GetMftError::NotNtfsVolume(text)) && text@
                    == "Filesystem is not NTFS: "@ + found
            },
        },
{
    let texts = split_lines(mounts);
    let ghost all = lines(mounts@);
    let mut i: usize = 0;
    assert(all.skip(0) == all);
    while i < texts.len()
        invariant
            i <= texts@.len(),
            all == views(texts@),
            device_file_system(all, device@) == device_file_system(all.skip(i as int), device@),
            all == lines(mounts@),
        decreases texts@.len() - i,
    {
        proof {
            assert(all.skip(i as int)[0] == texts@[i as int]@);
            assert(all.skip(i as int).skip(1) == all.skip(i + 1));
        }
        let parts = split_words(texts[i].as_str());
        assert(forall|k: int| 0 <= k < parts@.len() ==> views(parts@)[k] == (#[trigger] parts@[k])@);
        if parts.len() > 0 && same_text(parts[0].as_str(), device) {
            if parts.len() <= 2 {
                return Err(GetMftError::NotNtfsVolume("Failed to find mount entry".to_owned()));
            }
            let found = parts[2].as_str();
            if same_text(found, "ntfs") || same_text(found, "ntfs3") || same_text(found, "fuseblk")
                || same_text(found, "fuse.ntfs") || same_text(found, "fuse.ntfs-3g") {
                return Ok(());
            }
            return Err(GetMftError::NotNtfsVolume(joined("Filesystem is not NTFS: ", found)));
        }
        i = i + 1;
    }
    assert(all.skip(i as int) == Seq::<Seq<char>>::empty());
    Err(GetMftError::NotNtfsVolume("Failed to find mount entry".to_owned()))
}

/// What a text is without the first place where another one is found in it.
pub open spec fn without_first(text: Seq<char>, piece: Seq<char>, from: int) -> Seq<char>
    decreases text.len() + 1 - from,
{
    if from + piece.len() > text.len() || from < 0 {
        text
    } else if text.subrange(from, from + piece.len()) == piece {
        text.take(from) + text.skip(from + piece.len())
    } else {
        without_first(text, piece, from + 1)
    }
}

/// The path of the device of a volume, for a volume with the given unique name,
/// such as `\\?\Volume{..}\`.
pub open spec fn volume_device(name: Seq<char>) -> Seq<char> {
    "\\\\.\\"@ + without_first(trim_end(name, '\\'), "\\\\?\\"@, 0)
}

/// The path of the device of a volume with the given unique name.
pub fn windows_mft_path(name: &str) -> (path: String)
    ensures
        path@ == volume_device(name@),
{
    let chars = chars_of(name);
    let mut end: usize = chars.len();
    proof {
        assert(chars@.take(end as int) == name@);
    }
    while end > 0 && chars[end - 1] == '\\'
        invariant
            end <= chars@.len(),
            chars@ == name@,
            trim_end(name@, '\\') == trim_end(chars@.take(end as int), '\\'),
        decreases end,
    {
        assert(chars@.take(end as int).drop_last() == chars@.take(end - 1));
        end = end - 1;
    }
    let ghost trimmed = chars@.take(end as int);
    proof {
        assert(trim_end(trimmed, '\\') == trimmed);
        assert(chars@.subrange(0, end as int) == trimmed);
    }
    let prefix = chars_of("\\\\?\\");
    let mut path: String = "\\\\.\\".to_owned();
    let short = text_of(chars.as_slice(), 0, end);
    let rest = cut_first(&short, &prefix);
    path.append(rest.as_str());
    path
}

fn cut_first(text: &String, piece: &Vec<char>) -> (rest: String)
    ensures
        rest@ == without_first(text@, piece@, 0),
{
    let chars = chars_of(text.as_str());
    let len: usize = chars.len();
    let wanted: usize = piece.len();
    let mut from: usize = 0;
    while from <= len && wanted <= len - from
        invariant
            chars@ == text@,
            len == chars@.len(),
            wanted == piece@.len(),
            from <= len + 1,
            without_first(text@, piece@, 0) == without_first(text@, piece@, from as int),
        decreases len + 1 - from,
    {
        let mut i: usize = 0;
        while i < wanted && chars[from + i] == piece[i]
            invariant
                i <= wanted,
                from + wanted <= len,
                len == chars@.len(),
                wanted == piece@.len(),
                forall|k: int| 0 <= k < i ==> chars@[from + k] == piece@[k],
            decreases wanted - i,
        {
            i = i + 1;
        }
        let ghost part = text@.subrange(from as int, from + wanted);
        if i == wanted {
            assert(part == piece@);
            let mut rest = text_of(chars.as_slice(), 0, from);
            let tail = text_of(chars.as_slice(), from + wanted, len);
            rest.append(tail.as_str());
            proof {
                assert(chars@.subrange(0, from as int) == text@.take(from as int));
                assert(chars@.subrange(from + wanted, len as int) == text@.skip(from + wanted));
            }
            return rest;
        }
        assert(part[i as int] != piece@[i as int]);
        from = from + 1;
    }
    text.clone()
}

/// What to do after an attempt to read the table failed.
#[derive(Debug, Clone, Copy, PartialEq, Eq, Structural)]
pub enum RetryDecision {
    /// Report the error.
    Fail,
    /// Try again.
    Retry,
}

/// Whether to read the table again after an attempt, counted from zero, failed.
pub fn after_failed_attempt(attempt: u32, retries: u32) -> (decision: RetryDecision)
    requires
        attempt < retries,
    ensures
        decision == if attempt + 1 == retries {
            RetryDecision::Fail
        } else {
            RetryDecision::Retry
        },
{
    if attempt + 1 == retries {
        RetryDecision::Fail
    } else {
        RetryDecision::Retry
    }
}

/// The number of records that a bitmap with one bit for each of them describes.
pub fn records_in_bitmap(bytes: u64) -> (count: Option<u64>)
    ensures
        count is Some <==> bytes * 8 <= u64::MAX,
        count matches Some(count) ==> count == bytes * 8,
{
    bytes.checked_mul(8)
}

/// A piece of a volume that was read before.
pub struct CachedRange {
    pub start: u64,
    pub data: Vec<u8>,
}

#[verifier::ext_equal]
pub struct RangeView {
    pub start: int,
    pub data: Seq<u8>,
}

impl View for CachedRange {
    type V = RangeView;

    open spec fn view(&self) -> RangeView {
        RangeView { start: self.start as int, data: self.data@ }
    }
}

/// Pieces of a volume that were read before.
pub struct MftCache {
    ranges: Vec<CachedRange>,
}

impl View for MftCache {
    type V = Seq<RangeView>;

    closed spec fn view(&self) -> Seq<RangeView> {
        self.ranges@.map_values(|r: CachedRange| r@)
    }
}

/// The bytes at a position, at most the given number, from the first piece that has
/// that position. `None` if no piece has it.
pub open spec fn cached_bytes(ranges: Seq<RangeView>, position: int, len: nat) -> Option<Seq<u8>>
    decreases ranges.len(),
{
    if ranges.len() == 0 {
        None
    } else {
        let first = ranges[0];
        let offset = position - first.start;
        if 0 <= offset < first.data.len() {
            let rest = first.data.skip(offset);
            Some(
                if rest.len() <= len {
                    rest
                } else {
                    rest.take(len as int)
                },
            )
        } else {
            cached_bytes(ranges.skip(1), position, len)
        }
    }
}

impl MftCache {
    /// Nothing was read.
    pub fn new() -> (cache: Self)
        ensures
            cache@ == Seq::<RangeView>::empty(),
    {
        let cache = MftCache { ranges: Vec::new() };
        assert(cache@ == Seq::<RangeView>::empty());
        cache
    }

    /// Remembers bytes that were read at a position.
    pub fn store(&mut self, position: u64, data: Vec<u8>)
        ensures
            final(self)@ == old(self)@.push(RangeView { start: position as int, data: data@ }),
    {
        let ghost before = self@;
        self.ranges.push(CachedRange { start: position, data });
        assert(self@ == before.push(RangeView { start: position as int, data: data@ }));
    }

    /// The remembered bytes at a position, at most the given number.
    pub fn read(&self, position: u64, len: usize) -> (bytes: Option<Vec<u8>>)
        ensures
            match cached_bytes(self@, position as int, len as nat) {
                Some(found) => bytes matches Some(bytes) && bytes@ == found,
                None => bytes is None,
            },
    {
        let ghost all = self@;
        let mut i: usize = 0;
        assert(all.skip(0) == all);
        while i < self.ranges.len()
            invariant
                i <= self.ranges@.len(),
                all == self@,
                cached_bytes(all, position as int, len as nat) == cached_bytes(
                    all.skip(i as int),
                    position as int,
                    len as nat,
                ),
            decreases self.ranges@.len() - i,
        {
            let range = &self.ranges[i];
            proof {
                assert(all.skip(i as int)[0] == range@);
                assert(all.skip(i as int).skip(1) == all.skip(i + 1));
            }
            if position >= range.start {
                let offset: u64 = position - range.start;
                let size: usize = range.data.len();
                if offset < size as u64 {
                    let start: usize = offset as usize;
                    let left: usize = size - start;
                    let count: usize = if left <= len {
                        left
                    } else {
                        len
                    };
                    let mut bytes: Vec<u8> = Vec::new();
                    let mut k: usize = 0;
                    while k < count
                        invariant
                            k <= count,
                            start + count <= size,
                            size == range.data@.len(),
                            bytes@ == range.data@.subrange(start as int, start + k),
                        decreases count - k,
                    {
                        bytes.push(range.data[start + k]);
                        assert(bytes@ == range.data@.subrange(start as int, start + k + 1));
                        k = k + 1;
                    }
                    proof {
                        let rest = range.data@.skip(start as int);
                        if left <= len {
                            assert(bytes@ == rest);
                        } else {
                            assert(bytes@ == rest.take(len as int));
                        }
                    }
                    return Some(bytes);
                }
            }
            i = i + 1;
        }
        assert(all.skip(i as int) == Seq::<RangeView>::empty());
        None
    }
}

/// Bytes that are remembered at a position are read again from there, unless
/// earlier bytes were remembered for that position.
pub proof fn law_stored_bytes_are_read(
    ranges: Seq<RangeView>,
    position: int,
    data: Seq<u8>,
    len: nat,
)
    requires
        data.len() > 0,
        cached_bytes(ranges, position, len) is None,
    ensures
        cached_bytes(ranges.push(RangeView { start: position, data }), position, len) == Some(
            if data.len() <= len {
                data
            } else {
                data.take(len as int)
            },
        ),
    decreases ranges.len(),
{
    let all = ranges.push(RangeView { start: position, data });
    if ranges.len() == 0 {
        assert(all[0].data.skip(0) == data);
    } else {
        assert(all.skip(1) == ranges.skip(1).push(RangeView { start: position, data }));
        law_stored_bytes_are_read(ranges.skip(1), position, data, len);
    }
}

/// A line of a mount table is read as its first three words. Lines with less words are left
/// out, and each line is read without looking at the others.
pub proof fn law_mount_lines_are_read(
    device: Seq<char>,
    mount_point: Seq<char>,
    file_system: Seq<char>,
    rest: Seq<char>,
    before: Seq<Seq<char>>,
    after: Seq<Seq<char>>,
)
    requires
        is_word(device),
        is_word(mount_point),
        is_word(file_system),
    ensures
        mount_lines(
            seq![device.push(' ') + (mount_point.push(' ') + (file_system.push(' ') + rest))],
        ) == seq![MountLineView { device, mount_point, file_system }],
        mount_lines(seq![device]) == Seq::<MountLineView>::empty(),
        mount_lines(seq![device.push(' ') + mount_point]) == Seq::<MountLineView>::empty(),
        mount_lines(before + after) == mount_lines(before) + mount_lines(after),
    decreases after.len(),
{
    reveal_with_fuel(mount_lines, 2);
    let none = Seq::<Seq<char>>::empty();
    let last = file_system.push(' ') + rest;
    let end = mount_point.push(' ') + last;
    let line = device.push(' ') + end;
    law_white_space_separates_words(device, ' ', end);
    law_white_space_separates_words(mount_point, ' ', last);
    law_white_space_separates_words(file_system, ' ', rest);
    law_white_space_separates_words(device, ' ', mount_point);
    assert(words(line) == seq![device] + (seq![mount_point] + (seq![file_system] + words(rest))));
    assert(seq![line].drop_last() == none);
    assert(seq![device].drop_last() == none);
    assert(seq![device.push(' ') + mount_point].drop_last() == none);
    assert(words(device.push(' ') + mount_point) == seq![device] + seq![mount_point]);
    if after.len() == 0 {
        assert(before + after == before);
        assert(mount_lines(before) + Seq::<MountLineView>::empty() == mount_lines(before));
    } else {
        law_mount_lines_are_read(
            device,
            mount_point,
            file_system,
            rest,
            before,
            after.drop_last(),
        );
        assert((before + after).drop_last() == before + after.drop_last());
    }
}

/// A path is inside a folder exactly if it is the folder or goes on with a separator behind
/// it. One that only starts with the same characters is not.
pub proof fn law_paths_inside_go_on_with_a_separator(folder: Seq<u8>, rest: Seq<u8>, other: u8)
    ensures
        is_inside(folder, folder),
        is_inside(folder.push(SLASH) + rest, folder),
        is_inside(seq![SLASH] + rest, seq![SLASH]),
        folder.len() > 0 && folder.last() != SLASH && other != SLASH ==> !is_inside(
            folder.push(other) + rest,
            folder,
        ),
        folder.len() > 0 ==> !is_inside(folder.drop_last(), folder),
        is_inside(rest, folder) ==> rest.len() >= folder.len() && rest.take(folder.len() as int)
            == folder,
{
    assert(folder.take(folder.len() as int) == folder);
    assert((folder.push(SLASH) + rest).take(folder.len() as int) == folder);
    assert((seq![SLASH] + rest).take(1) == seq![SLASH]);
    assert((folder.push(other) + rest)[folder.len() as int] == other);
}

/// The mount point of a path is one that the path is inside. No other one that the path is
/// inside is longer, and none before it is as long. There is none only if the path is
/// inside no mount point.
pub proof fn law_longest_mount_point_wins(path: Seq<u8>, points: Seq<Option<Seq<u8>>>)
    ensures
        best_mount(path, points) matches Some(best) ==> {
            &&& 0 <= best < points.len()
            &&& points[best] matches Some(point) && is_inside(path, point)
            &&& forall|i: int|
                0 <= i < points.len() ==> ((#[trigger] points[i]) matches Some(other) ==> (
                is_inside(path, other) ==> {
                    &&& other.len() <= points[best]->0.len()
                    &&& i < best ==> other.len() < points[best]->0.len()
                }))
        },
        best_mount(path, points) is None ==> forall|i: int|
            0 <= i < points.len() ==> ((#[trigger] points[i]) matches Some(other) ==> !is_inside(
                path,
                other,
            )),
    decreases points.len(),
{
    if points.len() > 0 {
        let rest = points.drop_last();
        law_longest_mount_point_wins(path, rest);
        assert forall|i: int| 0 <= i < rest.len() implies #[trigger] rest[i] == points[i] by {}
        assert forall|i: int| 0 <= i < rest.len() implies #[trigger] points[i] == rest[i] by {}
    }
}

/// The file system of a device is told by the first line of the table that starts with its
/// name.
pub proof fn law_first_line_of_the_device_counts(
    texts: Seq<Seq<char>>,
    device: Seq<char>,
    line: Seq<char>,
    more: Seq<Seq<char>>,
)
    requires
        forall|i: int|
            0 <= i < texts.len() ==> words(#[trigger] texts[i]).len() == 0 || words(texts[i])[0]
                != device,
    ensures
        device_file_system(texts, device) is None,
        words(line).len() > 2 && words(line)[0] == device ==> device_file_system(
            texts + seq![line] + more,
            device,
        ) == Some(words(line)[2]),
    decreases texts.len(),
{
    let all = texts + seq![line] + more;
    if texts.len() == 0 {
        assert(all[0] == line);
    } else {
        assert(all[0] == texts[0]);
        assert(all.skip(1) == texts.skip(1) + seq![line] + more);
        assert forall|i: int| 0 <= i < texts.skip(1).len() implies words(
            #[trigger] texts.skip(1)[i],
        ).len() == 0 || words(texts.skip(1)[i])[0] != device by {
            assert(texts.skip(1)[i] == texts[i + 1]);
        }
        law_first_line_of_the_device_counts(texts.skip(1), device, line, more);
    }
}

/// What is left of a text is what is in front of the first place of a piece and what is
/// behind it. A text without the piece stays as it is.
pub proof fn law_first_piece_is_removed(text: Seq<char>, piece: Seq<char>, from: int) -> (at: int)
    requires
        0 <= from,
    ensures
        (forall|i: int|
            from <= i <= text.len() - piece.len() ==> #[trigger] text.subrange(i, i + piece.len())
                != piece) ==> without_first(text, piece, from) == text,
        from <= at <= text.len() - piece.len() && text.subrange(at, at + piece.len()) == piece ==> {
            &&& without_first(text, piece, from) == text.take(at) + text.skip(at + piece.len())
            &&& forall|i: int|
                from <= i < at ==> #[trigger] text.subrange(i, i + piece.len()) != piece
        },
        without_first(text, piece, from) != text ==> from <= at <= text.len() - piece.len()
            && text.subrange(at, at + piece.len()) == piece,
    decreases text.len() + 1 - from,
{
    if from + piece.len() > text.len() {
        from
    } else if text.subrange(from, from + piece.len()) == piece {
        from
    } else {
        law_first_piece_is_removed(text, piece, from + 1)
    }
}

/// If all pieces hold what a volume has at their places then what is read is what the
/// volume has at the position, at most as many bytes as were asked for. Something is read
/// exactly if a piece has the position.
pub proof fn law_cached_bytes_are_those_of_the_volume(
    ranges: Seq<RangeView>,
    volume: spec_fn(int) -> u8,
    position: int,
    len: nat,
)
    requires
        forall|i: int, k: int|
            #![trigger ranges[i].data[k]]
            0 <= i < ranges.len() && 0 <= k < ranges[i].data.len() ==> ranges[i].data[k] == volume(
                ranges[i].start + k,
            ),
    ensures
        cached_bytes(ranges, position, len) matches Some(bytes) ==> {
            &&& bytes.len() <= len
            &&& len > 0 ==> bytes.len() > 0
            &&& forall|k: int| 0 <= k < bytes.len() ==> #[trigger] bytes[k] == volume(position + k)
        },
        cached_bytes(ranges, position, len) is Some <==> exists|i: int|
            0 <= i < ranges.len() && (#[trigger] ranges[i]).start <= position < ranges[i].start
                + ranges[i].data.len(),
    decreases ranges.len(),
{
    if ranges.len() > 0 {
        let first = ranges[0];
        let offset = position - first.start;
        if 0 <= offset < first.data.len() {
            let bytes = cached_bytes(ranges, position, len)->0;
            assert forall|k: int| 0 <= k < bytes.len() implies #[trigger] bytes[k] == volume(
                position + k,
            ) by {
                assert(bytes[k] == ranges[0].data[offset + k]);
            }
        } else {
            let rest = ranges.skip(1);
            assert forall|i: int, k: int|
                #![trigger rest[i].data[k]]
                0 <= i < rest.len() && 0 <= k < rest[i].data.len() implies rest[i].data[k] == volume(
                rest[i].start + k,
            ) by {
                assert(rest[i] == ranges[i + 1]);
                assert(ranges[i + 1].data[k] == volume(ranges[i + 1].start + k));
            }
            law_cached_bytes_are_those_of_the_volume(rest, volume, position, len);
            if cached_bytes(rest, position, len) is Some {
                let i = choose|i: int|
                    0 <= i < rest.len() && (#[trigger] rest[i]).start <= position < rest[i].start
                        + rest[i].data.len();
                assert(ranges[i + 1] == rest[i]);
            }
            if exists|i: int|
                0 <= i < ranges.len() && (#[trigger] ranges[i]).start <= position
                    < ranges[i].start + ranges[i].data.len() {
                let i = choose|i: int|
                    0 <= i < ranges.len() && (#[trigger] ranges[i]).start <= position
                        < ranges[i].start + ranges[i].data.len();
                assert(i > 0);
                assert(rest[i - 1] == ranges[i]);
            }
        }
    }
}

} // verus!
