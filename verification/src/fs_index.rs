//! Index of all paths of a file system with metadata about each path.
use vstd::prelude::*;
use vstd::utf8::encode_utf8;

use crate::dyn_int::{
    int_ok, le_bytes, le_value, lemma_le_bytes_len, lemma_le_round_trip, lemma_pow256, read_le,
    same_bytes, write_le,
};
use crate::metadata::{FsEntryMetadata, MetadataUpdateError};
use crate::metadata_bytes::{
    decodable, decoded, decoded_len, drive_index, header_is_drive, header_len, int_at, int_count,
    is_flag, law_encoded_metadata_can_be_decoded, law_updated_metadata_can_be_decoded,
    lemma_date_code, lemma_decoded_same, lemma_int_count, lemma_layout_len, lemma_nth_int_order,
    nth_int,
};
use crate::text::{lemma_encode_injective, text_of_bytes};

verus! {

/// What is stored at some place of the buffer of a [`FsIndex`].
#[verifier::ext_equal]
pub enum Item {
    /// A path segment and the place of its metadata, 0 if it has none.
    Path { meta: u32, name: Seq<char> },
    /// The bytes of stored metadata.
    Meta { bytes: Seq<u8> },
}

impl Item {
    pub open spec fn bytes(self) -> Seq<u8> {
        match self {
            Item::Path { meta, name } => le_bytes(meta as int, 4) + le_bytes(
                encode_utf8(name).len() as int,
                2,
            ) + encode_utf8(name),
            Item::Meta { bytes } => bytes,
        }
    }

    pub open spec fn len(self) -> int {
        match self {
            Item::Path { meta, name } => 6int + encode_utf8(name).len(),
            Item::Meta { bytes } => bytes.len() as int,
        }
    }

    /// The metadata of a folder holds its number of children, that of a file none.
    pub open spec fn ok(self) -> bool {
        match self {
            Item::Path { meta, name } => encode_utf8(name).len() <= u16::MAX,
            Item::Meta { bytes } => {
                &&& decodable(bytes)
                &&& decoded_len(bytes) == bytes.len()
                &&& header_len(bytes) == bytes.len()
                &&& decoded(bytes).is_dir == (decoded(bytes).children is Some)
                &&& header_is_drive(bytes) == decoded(bytes).spec_has_drive_info()
            },
        }
    }

    pub open spec fn info(self) -> FsEntryMetadata {
        decoded(self->bytes)
    }
}

pub open spec fn is_path(items: Map<int, Item>, at: int) -> bool {
    items.contains_key(at) && items[at] is Path
}

pub open spec fn is_meta(items: Map<int, Item>, at: int) -> bool {
    items.contains_key(at) && items[at] is Meta
}

/// Place of the path number `i` of paths that follow each other.
pub open spec fn nth_path(items: Map<int, Item>, start: int, i: nat) -> int
    decreases i,
{
    if i == 0 {
        start
    } else {
        let prev = nth_path(items, start, (i - 1) as nat);
        prev + items[prev].len()
    }
}

/// Whether `count` paths follow each other.
pub open spec fn paths_ok(items: Map<int, Item>, start: int, count: nat) -> bool {
    forall|i: nat| i < count ==> is_path(items, #[trigger] nth_path(items, start, i))
}

/// Place of the first child of the folder whose metadata is at `at`.
pub open spec fn first_child(items: Map<int, Item>, at: int) -> int {
    at + items[at].len()
}

/// Whether a path has no metadata or existing metadata.
pub open spec fn target_ok(items: Map<int, Item>, meta: u32) -> bool {
    meta == 0 || is_meta(items, meta as int)
}

/// Whether all children of the folder whose metadata is at `at` are there.
pub open spec fn folder_ok(items: Map<int, Item>, at: int) -> bool {
    items[at].info().children matches Some(n) ==> paths_ok(items, first_child(items, at), n as nat)
}

/// Whether each item is where it should be and no two items overlap.
pub open spec fn layout(buffer: Seq<u8>, items: Map<int, Item>) -> bool {
    &&& forall|o: int| #[trigger]
        items.contains_key(o) ==> {
            &&& 0 <= o
            &&& o + items[o].len() <= buffer.len()
            &&& items[o].ok()
            &&& buffer.subrange(o, o + items[o].len()) == items[o].bytes()
        }
    &&& forall|o: int, p: int|
        #![trigger items.contains_key(o), items.contains_key(p)]
        items.contains_key(o) && items.contains_key(p) && o < p ==> o + items[o].len() <= p
}

/// Whether all references between items are valid. The folder at `pending` can
/// lack children.
pub open spec fn links_ok(items: Map<int, Item>, pending: Option<int>) -> bool {
    &&& forall|o: int| #[trigger]
        is_path(items, o) ==> target_ok(items, items[o]->meta)
    &&& forall|o: int| #[trigger]
        is_meta(items, o) ==> o > 0 && (pending != Some(o) ==> folder_ok(items, o))
}

proof fn lemma_item_len(item: Item)
    ensures
        item.bytes().len() == item.len(),
        item.ok() ==> item.len() >= 1,
{
    match item {
        Item::Path { meta, name } => {
            lemma_le_bytes_len(meta as int, 4);
            lemma_le_bytes_len(encode_utf8(name).len() as int, 2);
        },
        Item::Meta { bytes } => {},
    }
}

/// The parts of a stored path.
proof fn lemma_path_parts(buffer: Seq<u8>, at: int, meta: u32, name: Seq<char>)
    requires
        0 <= at,
        at + 6 + encode_utf8(name).len() <= buffer.len(),
        encode_utf8(name).len() <= u16::MAX,
        buffer.subrange(at, at + 6 + encode_utf8(name).len()) == (Item::Path {
            meta,
            name,
        }).bytes(),
    ensures
        le_value(buffer, at, 4) == meta,
        le_value(buffer, at + 4, 2) == encode_utf8(name).len(),
        buffer.subrange(at + 6, at + 6 + encode_utf8(name).len()) == encode_utf8(name),
{
    let len = encode_utf8(name).len() as int;
    let part = buffer.subrange(at, at + 6 + len);
    let bytes = (Item::Path { meta, name }).bytes();
    lemma_pow256();
    lemma_le_bytes_len(meta as int, 4);
    lemma_le_bytes_len(len, 2);
    assert forall|i: int| 0 <= i < 4 implies buffer[at + i] == #[trigger] le_bytes(
        meta as int,
        4,
    )[i] by {
        assert(part[i] == bytes[i]);
    }
    lemma_le_round_trip(buffer, at, meta as int, 4);
    assert forall|i: int| 0 <= i < 2 implies buffer[at + 4 + i] == #[trigger] le_bytes(len, 2)[i] by {
        assert(part[i + 4] == bytes[i + 4]);
    }
    lemma_le_round_trip(buffer, at + 4, len, 2);
    assert forall|i: int| 0 <= i < len implies buffer[at + 6 + i] == encode_utf8(name)[i] by {
        assert(part[i + 6] == bytes[i + 6]);
    }
}

/// Adding an item at the end of the buffer keeps everything else.
proof fn lemma_layout_push(
    buffer: Seq<u8>,
    items: Map<int, Item>,
    longer: Seq<u8>,
    item: Item,
)
    requires
        layout(buffer, items),
        item.ok(),
        longer == buffer + item.bytes(),
    ensures
        layout(longer, items.insert(buffer.len() as int, item)),
        !items.contains_key(buffer.len() as int),
{
    let at = buffer.len() as int;
    let more = items.insert(at, item);
    lemma_item_len(item);
    if items.contains_key(at) {
        lemma_item_len(items[at]);
    }
    assert forall|o: int| #[trigger] more.contains_key(o) implies {
        &&& 0 <= o
        &&& o + more[o].len() <= longer.len()
        &&& more[o].ok()
        &&& longer.subrange(o, o + more[o].len()) == more[o].bytes()
    } by {
        if o != at {
            assert(items.contains_key(o));
            assert(longer.subrange(o, o + more[o].len()) == buffer.subrange(
                o,
                o + items[o].len(),
            ));
        } else {
            assert(longer.subrange(o, o + more[o].len()) == item.bytes());
        }
    }
    assert forall|o: int, p: int|
        #![trigger more.contains_key(o), more.contains_key(p)]
        more.contains_key(o) && more.contains_key(p) && o < p implies o + more[o].len() <= p by {
        if o != at {
            assert(items.contains_key(o));
        } else {
            assert(items.contains_key(p));
            lemma_item_len(items[p]);
        }
        if p != at {
            assert(items.contains_key(p));
        }
    }
}

/// Overwriting one item keeps everything else.
proof fn lemma_layout_replace(
    buffer: Seq<u8>,
    items: Map<int, Item>,
    other: Seq<u8>,
    at: int,
    item: Item,
)
    requires
        layout(buffer, items),
        items.contains_key(at),
        item.ok(),
        item.len() == items[at].len(),
        other.len() == buffer.len(),
        same_bytes(buffer, other, 0, at),
        other.subrange(at, at + item.len()) == item.bytes(),
        same_bytes(buffer, other, at + item.len(), buffer.len() as int),
    ensures
        layout(other, items.insert(at, item)),
{
    let changed = items.insert(at, item);
    assert forall|o: int| #[trigger] changed.contains_key(o) implies {
        &&& 0 <= o
        &&& o + changed[o].len() <= other.len()
        &&& changed[o].ok()
        &&& other.subrange(o, o + changed[o].len()) == changed[o].bytes()
    } by {
        if o != at {
            assert(items.contains_key(o));
            assert(other.subrange(o, o + changed[o].len()) == buffer.subrange(
                o,
                o + items[o].len(),
            ));
        }
    }
    assert forall|o: int, p: int|
        #![trigger changed.contains_key(o), changed.contains_key(p)]
        changed.contains_key(o) && changed.contains_key(p) && o < p implies o + changed[o].len()
        <= p by {
        assert(items.contains_key(o) && items.contains_key(p));
    }
}

/// Places of paths only depend on the paths.
pub proof fn lemma_nth_path_same(
    a: Map<int, Item>,
    b: Map<int, Item>,
    start: int,
    count: nat,
)
    requires
        paths_ok(a, start, count),
        forall|o: int| #[trigger] is_path(a, o) ==> is_path(b, o) && b[o].len() == a[o].len(),
    ensures
        paths_ok(b, start, count),
        forall|i: nat| i <= count ==> #[trigger] nth_path(b, start, i) == nth_path(a, start, i),
    decreases count,
{
    if count > 0 {
        let last = (count - 1) as nat;
        assert(paths_ok(a, start, last));
        lemma_nth_path_same(a, b, start, last);
        assert(is_path(a, nth_path(a, start, last)));
        assert(nth_path(b, start, last) == nth_path(a, start, last));
        assert(nth_path(b, start, count) == nth_path(a, start, count));
        assert forall|i: nat| i < count implies is_path(b, #[trigger] nth_path(b, start, i)) by {
            assert(is_path(a, nth_path(a, start, i)));
        }
    }
}

/// Identifies the path segment and metadata related to a filesystem entry.
#[derive(Debug, Clone, Copy, PartialEq, Eq, Structural)]
pub struct FsEntryId(u32);

/// Identifies the metadata and children of a filesystem entry but not its path
/// or parents.
// Note: the buffer starts with the prefixed path for root entry so there can
// never be metadata at index 0.
#[derive(Debug, Clone, Copy, PartialEq, Eq, Structural)]
pub struct FsMetadataId(u32);

/// Filesystem index that knows about all paths from a snapshot of a disk and
/// metadata about each path, such as its file size or for folders the total
/// file size of all its descendants.
pub struct FsIndex {
    /// Data is stored as prefixed paths:
    ///
    /// - `u32` representing the buffer index for the encoded
    ///   [`FsEntryMetadata`] with info about the path.
    /// - `u16` representing the path's byte length.
    /// - Multiple `u8` representing the UTF8 string for the path segment.
    ///
    /// [`FsEntryMetadata`] specifies how many "direct" children each folder
    /// has, lets call this count for `n`. The paths for those children are
    /// placed right after the metadata inside the buffer, i.e. expect to read
    /// `n` prefixed paths after the metadata.
    buffer: Vec<u8>,
    /// The current root path of the file index.
    current_root: Option<FsEntryId>,
    /// Total number of [`FsEntryMetadata`] written.
    metadata_count: u64,
    /// Total number of paths added.
    path_count: u64,
    /// Total length of all paths.
    total_path_len: u64,
    /// What is stored in the buffer and where.
    items: Ghost<Map<int, Item>>,
}

impl FsEntryId {
    /// Where the path is stored.
    pub closed spec fn at(self) -> int {
        self.0 as int
    }

    /// Whether both ids are for the same path.
    pub(crate) fn same(self, other: FsEntryId) -> (same: bool)
        ensures
            same == (self.at() == other.at()),
            same == (self == other),
    {
        self.0 == other.0
    }
}

impl FsMetadataId {
    /// Where the metadata is stored.
    pub closed spec fn at(self) -> int {
        self.0 as int
    }
}

/// What a path refers to if its metadata has the given id.
pub open spec fn target(id: Option<FsMetadataId>) -> int {
    match id {
        Some(id) => id.at(),
        None => 0,
    }
}

impl FsIndex {
    /// What is stored, by place.
    pub closed spec fn items(self) -> Map<int, Item> {
        self.items@
    }

    /// Number of bytes stored.
    pub closed spec fn size(self) -> nat {
        self.buffer@.len()
    }

    pub closed spec fn spec_root(self) -> Option<FsEntryId> {
        self.current_root
    }

    pub closed spec fn spec_metadata_count(self) -> nat {
        self.metadata_count as nat
    }

    pub closed spec fn spec_path_count(self) -> nat {
        self.path_count as nat
    }

    pub closed spec fn spec_path_len(self) -> nat {
        self.total_path_len as nat
    }

    /// Whether the buffer holds the items.
    pub closed spec fn buffer_ok(self) -> bool {
        &&& layout(self.buffer@, self.items@)
        &&& self.buffer@.len() <= u32::MAX
        &&& self.metadata_count + self.path_count + self.total_path_len <= self.buffer@.len()
    }

    pub open spec fn root_ok(self) -> bool {
        self.spec_root() matches Some(root) ==> is_path(self.items(), root.at())
    }

    /// Whether the index is valid apart from a folder that can lack children.
    pub open spec fn wf_with(self, pending: Option<int>) -> bool {
        &&& self.buffer_ok()
        &&& self.root_ok()
        &&& links_ok(self.items(), pending)
    }

    /// Whether the index is valid: all items are stored without overlap, paths
    /// refer to existing metadata and folders have all their children.
    pub open spec fn wf(self) -> bool {
        self.wf_with(None)
    }

    /// All items are part of the stored bytes.
    pub proof fn lemma_places(self)
        requires
            self.buffer_ok(),
        ensures
            self.size() <= u32::MAX,
            forall|o: int| #[trigger]
                self.items().contains_key(o) ==> {
                    &&& 0 <= o < self.size()
                    &&& self.items()[o].len() >= 1
                    &&& self.items()[o].ok()
                },
    {
        assert forall|o: int| #[trigger] self.items().contains_key(o) implies 0 <= o < self.size()
            && self.items()[o].len() >= 1 && self.items()[o].ok() by {
            lemma_item_len(self.items()[o]);
        }
    }

    /// Construct a new index.
    pub fn new() -> (index: Self)
        ensures
            index.wf(),
            index.items() == Map::<int, Item>::empty(),
            index.size() == 0,
            index.spec_root() is None,
            index.spec_metadata_count() == 0,
            index.spec_path_count() == 0,
            index.spec_path_len() == 0,
    {
        FsIndex {
            buffer: Vec::new(),
            current_root: None,
            metadata_count: 0,
            path_count: 0,
            total_path_len: 0,
            items: Ghost(Map::empty()),
        }
    }

    /// The total number of [`FsEntryMetadata`] stored in the index.
    pub fn metadata_count(&self) -> (count: u64)
        ensures
            count == self.spec_metadata_count(),
    {
        self.metadata_count
    }

    /// The total number of path segments stored in the index.
    pub fn path_count(&self) -> (count: u64)
        ensures
            count == self.spec_path_count(),
    {
        self.path_count
    }

    /// The sum of the length for all path segments.
    pub fn length_of_all_paths(&self) -> (len: u64)
        ensures
            len == self.spec_path_len(),
    {
        self.total_path_len
    }

    /// Get the current "root" path of the file index. This is usually set when
    /// constructing a file index.
    pub fn root(&self) -> (root: Option<FsEntryId>)
        ensures
            root == self.spec_root(),
    {
        self.current_root
    }

    fn append_prefixed_path(
        &mut self,
        info_index: Option<FsMetadataId>,
        path_segment: &str,
        pending: Ghost<Option<int>>,
    ) -> (id: FsEntryId)
        requires
            old(self).wf_with(pending@),
            encode_utf8(path_segment@).len() <= u16::MAX,
            old(self).size() + 6 + encode_utf8(path_segment@).len() <= u32::MAX,
            info_index matches Some(id) ==> is_meta(old(self).items(), id.at()),
        ensures
            final(self).wf_with(pending@),
            id.at() == old(self).size(),
            !old(self).items().contains_key(id.at()),
            final(self).items() == old(self).items().insert(
                id.at(),
                Item::Path { meta: target(info_index) as u32, name: path_segment@ },
            ),
            final(self).size() == old(self).size() + 6 + encode_utf8(path_segment@).len(),
            final(self).spec_root() == old(self).spec_root(),
            final(self).spec_metadata_count() == old(self).spec_metadata_count(),
            final(self).spec_path_count() == old(self).spec_path_count() + 1,
            final(self).spec_path_len() == old(self).spec_path_len() + encode_utf8(
                path_segment@,
            ).len(),
    {
        let ghost before = self.buffer@;
        let ghost items = self.items@;
        let at: u32 = self.buffer.len() as u32;
        let meta: u32 = match info_index {
            Some(id) => id.0,
            None => 0,
        };
        let bytes = path_segment.as_bytes();
        let len: u16 = bytes.len() as u16;
        let mut head: [u8; 6] = [0; 6];
        proof {
            lemma_pow256();
        }
        write_le(&mut head, 0, 4, meta as u64);
        let ghost first = head@;
        write_le(&mut head, 4, 2, len as u64);
        self.buffer.extend_from_slice(&head);
        self.buffer.extend_from_slice(bytes);
        let ghost item = Item::Path { meta, name: path_segment@ };
        proof {
            assert(first.subrange(0, 4) == head@.subrange(0, 4));
            assert(head@ == head@.subrange(0, 4) + head@.subrange(4, 6));
            assert(self.buffer@ == before + item.bytes());
            lemma_layout_push(before, items, self.buffer@, item);
            lemma_item_len(item);
            lemma_links_push(items, pending@, before.len() as int, item);
        }
        self.items = Ghost(self.items@.insert(at as int, item));
        self.total_path_len = self.total_path_len + len as u64;
        self.path_count = self.path_count + 1;
        FsEntryId(at)
    }

    /// Store an orphaned path segment in the file index. This "root" path can
    /// point to a folder's metadata and can in that case be interpreted as a
    /// root of the file system.
    pub fn add_root(&mut self, path_segment: &str, metadata_id: Option<FsMetadataId>) -> (id:
        FsEntryId)
        requires
            old(self).wf(),
            encode_utf8(path_segment@).len() <= u16::MAX,
            old(self).size() + 6 + encode_utf8(path_segment@).len() <= u32::MAX,
            metadata_id matches Some(id) ==> is_meta(old(self).items(), id.at()),
        ensures
            final(self).wf(),
            final(self).spec_root() == Some(id),
            id.at() == old(self).size(),
            !old(self).items().contains_key(id.at()),
            final(self).items() == old(self).items().insert(
                id.at(),
                Item::Path { meta: target(metadata_id) as u32, name: path_segment@ },
            ),
            final(self).size() == old(self).size() + 6 + encode_utf8(path_segment@).len(),
            final(self).spec_metadata_count() == old(self).spec_metadata_count(),
            final(self).spec_path_count() == old(self).spec_path_count() + 1,
            final(self).spec_path_len() == old(self).spec_path_len() + encode_utf8(
                path_segment@,
            ).len(),
    {
        let id = self.append_prefixed_path(metadata_id, path_segment, Ghost(None));
        self.current_root = Some(id);
        id
    }

    fn append_metadata(&mut self, metadata: FsEntryMetadata) -> (id: FsMetadataId)
        requires
            old(self).wf(),
            metadata.storable(),
            metadata.is_dir == (metadata.children is Some),
            0 < old(self).size(),
            old(self).size() + metadata.encoded().len() <= u32::MAX,
        ensures
            final(self).wf_with(Some(id.at())),
            metadata.children is None ==> final(self).wf(),
            id.at() == old(self).size(),
            !old(self).items().contains_key(id.at()),
            final(self).items() == old(self).items().insert(
                id.at(),
                Item::Meta { bytes: metadata.encoded() },
            ),
            final(self).size() == old(self).size() + metadata.encoded().len(),
            final(self).spec_root() == old(self).spec_root(),
            final(self).spec_metadata_count() == old(self).spec_metadata_count() + 1,
            final(self).spec_path_count() == old(self).spec_path_count(),
            final(self).spec_path_len() == old(self).spec_path_len(),
    {
        let ghost before = self.buffer@;
        let ghost items = self.items@;
        let at: u32 = self.buffer.len() as u32;
        let (bytes, len) = metadata.to_ne_bytes();
        self.buffer.extend_from_slice(vstd::slice::slice_subrange(&bytes, 0, len));
        let ghost item = Item::Meta { bytes: metadata.encoded() };
        proof {
            assert(bytes@.subrange(0, len as int) == bytes@.take(len as int));
            assert(self.buffer@ == before + item.bytes());
            let encoded = metadata.encoded();
            assert(encoded.take(encoded.len() as int) == encoded);
            law_encoded_metadata_can_be_decoded(metadata, encoded);
            assert(item.ok());
            lemma_layout_push(before, items, self.buffer@, item);
            lemma_links_push(items, None, before.len() as int, item);
        }
        self.items = Ghost(self.items@.insert(at as int, item));
        self.metadata_count = self.metadata_count + 1;
        FsMetadataId(at)
    }
}

impl FsIndex {
    /// Add metadata for a folder and add each child entry of that folder
    /// manually, alternatively use [`Self::add_entry`].
    pub fn add_folder(&mut self, metadata: FsEntryMetadata) -> (writer: FsFolderWriter<'_>)
        requires
            old(self).wf(),
            metadata.storable(),
            metadata.is_dir,
            metadata.children is Some,
            0 < old(self).size(),
            old(self).size() + metadata.encoded().len() <= u32::MAX,
        ensures
            writer.wf(),
            writer.remaining() == metadata.children->0,
            *final(writer.index) == *final(self),
            writer.id().at() == old(self).size(),
            !old(self).items().contains_key(writer.id().at()),
            writer.current().items() == old(self).items().insert(
                writer.id().at(),
                Item::Meta { bytes: metadata.encoded() },
            ),
            writer.current().size() == old(self).size() + metadata.encoded().len(),
            writer.current().spec_root() == old(self).spec_root(),
            writer.current().spec_metadata_count() == old(self).spec_metadata_count() + 1,
            writer.current().spec_path_count() == old(self).spec_path_count(),
            writer.current().spec_path_len() == old(self).spec_path_len(),
    {
        let remaining_children: usize = match metadata.children {
            Some(n) => n as usize,
            None => 0,
        };
        let metadata_id = self.append_metadata(metadata);
        proof {
            let encoded = metadata.encoded();
            assert(encoded.take(encoded.len() as int) == encoded);
            law_encoded_metadata_can_be_decoded(metadata, encoded);
        }
        FsFolderWriter {
            progress: FolderProgress { metadata_id, remaining_children },
            index: self,
        }
    }
}

/// Adding an item behind all others keeps the references between items valid.
proof fn lemma_links_push(items: Map<int, Item>, pending: Option<int>, at: int, item: Item)
    requires
        links_ok(items, pending),
        !items.contains_key(at),
        item is Path ==> target_ok(items, item->meta),
        item is Meta ==> pending is None && at > 0,
    ensures
        item is Path ==> links_ok(items.insert(at, item), pending),
        item is Meta ==> links_ok(items.insert(at, item), Some(at)),
        item is Meta && item.info().children is None ==> links_ok(items.insert(at, item), None),
{
    let more = items.insert(at, item);
    assert forall|o: int| #[trigger] is_path(more, o) implies target_ok(more, more[o]->meta) by {
        if o != at {
            assert(is_path(items, o));
        }
    }
    assert forall|o: int| #[trigger] is_meta(more, o) && o != at implies o > 0 && (pending != Some(
        o,
    ) ==> folder_ok(more, o)) by {
        assert(is_meta(items, o));
        if pending != Some(o) {
            if let Some(n) = items[o].info().children {
                assert forall|q: int| #[trigger] is_path(items, q) implies is_path(more, q)
                    && more[q].len() == items[q].len() by {}
                lemma_nth_path_same(items, more, first_child(items, o), n as nat);
            }
        }
    }
}

/// Which folder is being written and how many children it lacks.
// Note: We never reveal the metadata id unless all children are written so it is
// not possible to start reading partial directory entries.
pub struct FolderProgress {
    metadata_id: FsMetadataId,
    remaining_children: usize,
}

impl FolderProgress {
    pub closed spec fn id(self) -> FsMetadataId {
        self.metadata_id
    }

    pub closed spec fn remaining(self) -> nat {
        self.remaining_children as nat
    }
}

/// Used to add children to a newly added filesystem folder.
pub struct FsFolderWriter<'a> {
    pub progress: FolderProgress,
    pub index: &'a mut FsIndex,
}

/// Whether the first children of the folder whose metadata is at `at` end where
/// the buffer ends.
pub open spec fn folder_written(index: FsIndex, at: int, remaining: nat) -> bool {
    &&& index.wf_with(Some(at))
    &&& is_meta(index.items(), at)
    &&& index.items()[at].info().children matches Some(n) && {
        &&& remaining <= n
        &&& paths_ok(index.items(), first_child(index.items(), at), (n - remaining) as nat)
        &&& nth_path(index.items(), first_child(index.items(), at), (n - remaining) as nat)
            == index.size()
    }
}

impl<'a> FsFolderWriter<'a> {
    pub open spec fn id(self) -> FsMetadataId {
        self.progress.id()
    }

    pub open spec fn remaining(self) -> nat {
        self.progress.remaining()
    }

    /// The index that the folder is added to.
    pub open spec fn current(self) -> FsIndex {
        *self.index
    }

    pub open spec fn wf(self) -> bool {
        folder_written(self.current(), self.id().at(), self.remaining())
    }

    /// The number of child entities that must be added to this folder before it
    /// is considered complete.
    pub fn remaining_children(&self) -> (count: usize)
        ensures
            count == self.remaining(),
    {
        self.progress.remaining_children
    }

    /// Add a child entry to this folder. The `child_info_id` can be
    /// `None` which allows setting it later via [`FsEntryId::set_metadata_id`].
    pub fn add_child(&mut self, child_path: &str, child_info_id: Option<FsMetadataId>) -> (id:
        FsEntryId)
        requires
            old(self).wf(),
            old(self).remaining() > 0,
            encode_utf8(child_path@).len() <= u16::MAX,
            old(self).current().size() + 6 + encode_utf8(child_path@).len() <= u32::MAX,
            child_info_id matches Some(id) ==> is_meta(old(self).current().items(), id.at()),
        ensures
            final(self).wf(),
            final(self).id() == old(self).id(),
            final(self).remaining() == old(self).remaining() - 1,
            *final(final(self).index) == *final(old(self).index),
            final(self).current().items() == old(self).current().items().insert(
                id.at(),
                Item::Path { meta: target(child_info_id) as u32, name: child_path@ },
            ),
            id.at() == old(self).current().size(),
            !old(self).current().items().contains_key(id.at()),
            final(self).current().size() == old(self).current().size() + 6 + encode_utf8(
                child_path@,
            ).len(),
            final(self).current().spec_root() == old(self).current().spec_root(),
            final(self).current().spec_metadata_count()
                == old(self).current().spec_metadata_count(),
            final(self).current().spec_path_count() == old(self).current().spec_path_count() + 1,
            final(self).current().spec_path_len() == old(self).current().spec_path_len()
                + encode_utf8(child_path@).len(),
    {
        let ghost at = self.id().at();
        let ghost before = self.current();
        let ghost items = before.items();
        let id = self.index.append_prefixed_path(child_info_id, child_path, Ghost(Some(at)));
        proof {
            let more = self.index.items();
            let start = first_child(items, at);
            let n = items[at].info().children->0;
            let k = (n - self.remaining()) as nat;
            assert forall|o: int| #[trigger] is_path(items, o) implies is_path(more, o)
                && more[o].len() == items[o].len() by {}
            lemma_nth_path_same(items, more, start, k);
            assert(nth_path(more, start, k) == nth_path(items, start, k));
            assert forall|i: nat| i < k + 1 implies is_path(
                more,
                #[trigger] nth_path(more, start, i),
            ) by {}
            assert(nth_path(more, start, k + 1) == self.index.size());
        }
        self.progress.remaining_children = self.progress.remaining_children - 1;
        id
    }

    /// Returns the id of the folder that all children have been added to.
    pub fn finish(self) -> (id: FsMetadataId)
        requires
            self.wf(),
            self.remaining() == 0,
        ensures
            id == self.id(),
            *final(self.index) == self.current(),
            final(self.index).wf(),
    {
        proof {
            let items = self.current().items();
            assert forall|o: int| #[trigger] is_meta(items, o) implies o > 0 && folder_ok(
                items,
                o,
            ) by {}
        }
        self.progress.metadata_id
    }
}

/// [`FsEntryId`] with parsed metadata.
#[derive(Debug, Clone, Copy)]
pub struct FsEntry {
    /// Place where the [`Self::info`] data is stored.
    info_index: FsMetadataId,
    info_len: u8,
    /// Data decoded from the [`Self::info_index`] location.
    ///
    /// Contains info about the number of child entries to expect after the
    /// metadata.
    info: FsEntryMetadata,
}

/// Info about direct children (i.e. files and folders) of a single folder.
#[derive(Debug, Clone, Copy)]
pub struct FsChildren {
    /// First prefixed path is at this place.
    start: u32,
    /// The number of children at the specified location. Each child is a
    /// prefixed path segment.
    count: u32,
}

impl FsEntryId {
    /// Get the last path segment for this filesystem entry, i.e. the name of this
    /// file/folder.
    pub fn file_name(self, index: &FsIndex) -> (name: &str)
        requires
            index.wf(),
            is_path(index.items(), self.at()),
        ensures
            name@ == index.items()[self.at()]->name,
    {
        let ghost item = index.items()[self.at()];
        let ghost bytes = encode_utf8(item->name);
        proof {
            assert(index.items().contains_key(self.at()));
            lemma_path_parts(index.buffer@, self.at(), item->meta, item->name);
            vstd::utf8::encode_utf8_valid_utf8(item->name);
        }
        let at: usize = self.0 as usize;
        let len: usize = read_le(index.buffer.as_slice(), at + 4, 2) as usize;
        let part = vstd::slice::slice_subrange(index.buffer.as_slice(), at + 6, at + 6 + len);
        match text_of_bytes(part) {
            Some(name) => {
                proof {
                    lemma_encode_injective(name@, item->name);
                }
                name
            },
            None => "",
        }
    }

    /// An id for the metadata associated with the path.
    ///
    /// Returns `None` if that was the last set value. This usually means that
    /// no metadata has been specified for this path yet. A fully constructed
    /// filesystem index should have set the metadata for all paths.
    pub fn metadata_id(self, index: &FsIndex) -> (id: Option<FsMetadataId>)
        requires
            index.wf(),
            is_path(index.items(), self.at()),
        ensures
            target(id) == index.items()[self.at()]->meta,
            id is Some <==> index.items()[self.at()]->meta != 0,
            id matches Some(id) ==> is_meta(index.items(), id.at()),
    {
        proof {
            let item = index.items()[self.at()];
            assert(index.items().contains_key(self.at()));
            lemma_path_parts(index.buffer@, self.at(), item->meta, item->name);
        }
        let meta: u32 = read_le(index.buffer.as_slice(), self.0 as usize, 4) as u32;
        if meta == 0 {
            None
        } else {
            Some(FsMetadataId(meta))
        }
    }

    /// Change which metadata is referred to by this path. The old metadata will
    /// still remain so this is mostly useful when the previous metadata was
    /// [`None`].
    pub fn set_metadata_id(self, metadata_id: Option<FsMetadataId>, index: &mut FsIndex)
        requires
            old(index).wf(),
            is_path(old(index).items(), self.at()),
            metadata_id matches Some(id) ==> is_meta(old(index).items(), id.at()),
        ensures
            final(index).wf(),
            final(index).items() == old(index).items().insert(
                self.at(),
                Item::Path {
                    meta: target(metadata_id) as u32,
                    name: old(index).items()[self.at()]->name,
                },
            ),
            final(index).size() == old(index).size(),
            final(index).spec_root() == old(index).spec_root(),
            final(index).spec_metadata_count() == old(index).spec_metadata_count(),
            final(index).spec_path_count() == old(index).spec_path_count(),
            final(index).spec_path_len() == old(index).spec_path_len(),
    {
        let ghost before = index.buffer@;
        let ghost items = index.items@;
        let ghost at = self.at();
        let ghost item = items[at];
        let meta: u32 = match metadata_id {
            Some(id) => id.0,
            None => 0,
        };
        let ghost changed = Item::Path { meta, name: item->name };
        proof {
            lemma_pow256();
            assert(items.contains_key(at));
        }
        write_le(index.buffer.as_mut_slice(), self.0 as usize, 4, meta as u64);
        proof {
            lemma_item_len(item);
            lemma_item_len(changed);
            lemma_le_bytes_len(meta as int, 4);
            lemma_le_bytes_len(item->meta as int, 4);
            let after = index.buffer@;
            assert(after.subrange(at, at + changed.len()) == changed.bytes()) by {
                let old_part = before.subrange(at, at + item.len());
                assert forall|i: int| 0 <= i < changed.len() implies after[at + i]
                    == changed.bytes()[i] by {
                    if i < 4 {
                        assert(after.subrange(at, at + 4)[i] == after[at + i]);
                    } else {
                        assert(old_part[i] == item.bytes()[i]);
                        assert(before[at + i] == after[at + i]);
                    }
                }
            }
            assert(same_bytes(before, after, at + changed.len(), before.len() as int));
            lemma_layout_replace(before, items, after, at, changed);
            lemma_links_replace(items, at, changed);
        }
        index.items = Ghost(index.items@.insert(at, changed));
    }

    /// Load metadata from index. The returned [`FsEntry`] allows quick
    /// access to [`FsChildren`].
    ///
    /// Returns `None` if [`Self::metadata_id`] returns `None`.
    pub fn load_metadata(self, index: &FsIndex) -> (entry: Option<FsEntry>)
        requires
            index.wf(),
            is_path(index.items(), self.at()),
        ensures
            entry is Some <==> index.items()[self.at()]->meta != 0,
            entry matches Some(entry) ==> entry.loaded(
                index.items(),
                index.items()[self.at()]->meta as int,
            ),
    {
        match self.metadata_id(index) {
            Some(id) => Some(id.load_metadata(index)),
            None => None,
        }
    }

    /// Get children without loading all metadata.
    pub fn children(self, index: &FsIndex) -> (children: Option<FsChildren>)
        requires
            index.wf(),
            is_path(index.items(), self.at()),
        ensures
            children is Some <==> entry_is_folder(index.items(), self.at()),
            children matches Some(children) ==> children.all_of(
                index.items(),
                index.items()[self.at()]->meta as int,
            ),
    {
        match self.metadata_id(index) {
            Some(id) => id.children(index),
            None => None,
        }
    }
}

/// Whether the path at `at` has the metadata of a folder.
pub open spec fn entry_is_folder(items: Map<int, Item>, at: int) -> bool {
    items[at]->meta != 0 && items[items[at]->meta as int].info().is_dir
}

impl FsMetadataId {
    /// Load metadata from index. The returned [`FsEntry`] allows quick
    /// access to [`FsChildren`].
    pub fn load_metadata(self, index: &FsIndex) -> (entry: FsEntry)
        requires
            index.wf(),
            is_meta(index.items(), self.at()),
        ensures
            entry.loaded(index.items(), self.at()),
    {
        let at: usize = self.0 as usize;
        let part = vstd::slice::slice_subrange(index.buffer.as_slice(), at, index.buffer.len());
        proof {
            lemma_meta_part(index.buffer@, index.items@, self.at());
            assert(part@ == index.buffer@.subrange(at as int, index.buffer@.len() as int));
        }
        let (info, len) = FsEntryMetadata::from_ne_bytes(part);
        FsEntry { info_index: self, info_len: len as u8, info }
    }

    /// Get children without loading all metadata.
    ///
    /// Returns `None` if the entry is not a folder.
    pub fn children(self, index: &FsIndex) -> (children: Option<FsChildren>)
        requires
            index.wf(),
            is_meta(index.items(), self.at()),
        ensures
            children is Some <==> index.items()[self.at()].info().is_dir,
            children matches Some(children) ==> children.all_of(index.items(), self.at()),
    {
        let at: usize = self.0 as usize;
        let part = vstd::slice::slice_subrange(index.buffer.as_slice(), at, index.buffer.len());
        proof {
            lemma_meta_part(index.buffer@, index.items@, self.at());
            assert(part@ == index.buffer@.subrange(at as int, index.buffer@.len() as int));
            assert(nth_int(part@, 0) == 1);
            lemma_int_count(part@);
            assert(int_ok(part@, nth_int(part@, 0)));
        }
        let (children, len) = FsEntryMetadata::read_children_from_ne_bytes(part);
        match children {
            Some(count) => Some(FsChildren { start: self.0 + len as u32, count }),
            None => None,
        }
    }
}

impl FsEntry {
    /// Whether this is the metadata stored at `at`.
    pub closed spec fn loaded(self, items: Map<int, Item>, at: int) -> bool {
        &&& self.info_index.at() == at
        &&& is_meta(items, at)
        &&& self.info_len == items[at].len()
        &&& self.info == items[at].info()
        &&& self.info.is_dir == (self.info.children is Some)
        &&& at + self.info_len <= u32::MAX
        &&& folder_ok(items, at)
    }

    /// Where the metadata was loaded from.
    pub closed spec fn at(self) -> int {
        self.info_index.at()
    }

    pub closed spec fn info(self) -> FsEntryMetadata {
        self.info
    }

    /// Whether the place after the metadata exists.
    pub closed spec fn placed(self) -> bool {
        self.info_index.at() + self.info_len <= u32::MAX
    }

    pub proof fn lemma_loaded(self, items: Map<int, Item>, at: int)
        requires
            self.loaded(items, at),
        ensures
            self.at() == at,
            is_meta(items, at),
            self.info() == items[at].info(),
            self.info().is_dir == (self.info().children is Some),
            self.placed(),
    {
    }

    /// Metadata that has not changed is still the loaded one.
    pub proof fn lemma_still_loaded(self, items: Map<int, Item>, changed: Map<int, Item>, at: int)
        requires
            self.loaded(items, at),
            is_meta(changed, at),
            changed[at] == items[at],
            folder_ok(changed, at),
        ensures
            self.loaded(changed, at),
    {
    }

    pub fn metadata_id(&self) -> (id: FsMetadataId)
        ensures
            id.at() == self.at(),
    {
        self.info_index
    }

    /// Returns `None` if the entry is not a folder.
    pub fn children(&self) -> (children: Option<FsChildren>)
        requires
            self.placed(),
        ensures
            children is Some <==> self.info().children is Some,
            children matches Some(children) ==> forall|items: Map<int, Item>|
                #![trigger self.loaded(items, self.at())]
                self.loaded(items, self.at()) ==> children.all_of(items, self.at()),
    {
        match self.info.children {
            Some(count) => Some(
                FsChildren { start: self.info_index.0 + self.info_len as u32, count },
            ),
            None => None,
        }
    }

    pub fn metadata(&self) -> (info: &FsEntryMetadata)
        ensures
            *info == self.info(),
    {
        &self.info
    }
}

impl FsChildren {
    pub closed spec fn start(self) -> int {
        self.start as int
    }

    pub closed spec fn count(self) -> nat {
        self.count as nat
    }

    /// Whether these paths exist.
    pub open spec fn ok(self, items: Map<int, Item>) -> bool {
        paths_ok(items, self.start(), self.count())
    }

    /// Whether these are all children of the folder whose metadata is at `at`.
    pub open spec fn all_of(self, items: Map<int, Item>, at: int) -> bool {
        &&& self.ok(items)
        &&& self.start() == first_child(items, at)
        &&& items[at].info().children == Some(self.count() as u32)
        &&& self.count() <= u32::MAX
    }

    /// Contains no paths.
    pub fn empty() -> (children: Self)
        ensures
            children.count() == 0,
    {
        FsChildren { start: 0, count: 0 }
    }

    /// Remaining length.
    pub fn len(&self) -> (len: usize)
        ensures
            len == self.count(),
    {
        self.count as usize
    }

    /// `true` if [`Self::len`] is `0`.
    pub fn is_empty(&self) -> (empty: bool)
        ensures
            empty == (self.count() == 0),
    {
        self.count == 0
    }

    /// Returns `None` if [`Self::is_empty`] is `true`.
    pub fn next(&mut self, index: &FsIndex) -> (id: Option<FsEntryId>)
        requires
            index.wf(),
            old(self).ok(index.items()),
        ensures
            final(self).ok(index.items()),
            id is Some <==> old(self).count() > 0,
            id is None ==> *final(self) == *old(self),
            id matches Some(id) ==> {
                &&& id.at() == old(self).start()
                &&& is_path(index.items(), id.at())
                &&& final(self).start() == nth_path(index.items(), old(self).start(), 1)
                &&& final(self).count() == old(self).count() - 1
            },
    {
        if self.count == 0 {
            return None;
        }
        let ghost items = index.items@;
        let ghost item = items[self.start()];
        proof {
            assert(nth_path(items, self.start(), 0) == self.start());
            assert(is_path(items, self.start()));
            assert(items.contains_key(self.start()));
            lemma_path_parts(index.buffer@, self.start(), item->meta, item->name);
        }
        let id = FsEntryId(self.start);
        let len: u32 = read_le(index.buffer.as_slice(), self.start as usize + 4, 2) as u32;
        proof {
            assert(nth_path(items, self.start(), 1) == self.start() + 6 + len);
            lemma_nth_path_skip(items, self.start(), 1, (self.count() - 1) as nat);
            assert forall|i: nat| i < self.count() - 1 implies is_path(
                items,
                #[trigger] nth_path(items, nth_path(items, self.start(), 1), i),
            ) by {
                lemma_nth_path_skip(items, self.start(), 1, i);
                assert(is_path(items, nth_path(items, self.start(), i + 1)));
            }
        }
        self.count = self.count - 1;
        self.start = self.start + 6 + len;
        Some(id)
    }

    /// The ids of all remaining children.
    pub fn iter(&self, index: &FsIndex) -> (ids: Vec<FsEntryId>)
        requires
            index.wf(),
            self.ok(index.items()),
        ensures
            ids@.len() == self.count(),
            forall|i: int|
                0 <= i < ids@.len() ==> (#[trigger] ids@[i]).at() == nth_path(
                    index.items(),
                    self.start(),
                    i as nat,
                ),
    {
        let mut this: FsChildren = *self;
        let mut ids: Vec<FsEntryId> = Vec::new();
        let ghost items = index.items();
        while this.count > 0
            invariant
                index.wf(),
                items == index.items(),
                this.ok(items),
                ids@.len() + this.count() == self.count(),
                this.start() == nth_path(items, self.start(), ids@.len()),
                forall|i: int|
                    0 <= i < ids@.len() ==> (#[trigger] ids@[i]).at() == nth_path(
                        items,
                        self.start(),
                        i as nat,
                    ),
            decreases this.count,
        {
            let ghost k = ids@.len();
            if let Some(id) = this.next(index) {
                ids.push(id);
                proof {
                    lemma_nth_path_skip(items, self.start(), k, 1);
                }
            }
        }
        ids
    }
}

/// Paths come one after the other.
pub proof fn lemma_nth_path_order(items: Map<int, Item>, start: int, i: nat, j: nat)
    requires
        i <= j,
    ensures
        nth_path(items, start, i) <= nth_path(items, start, j),
        i < j && is_path(items, nth_path(items, start, i)) ==> nth_path(items, start, i) < nth_path(
            items,
            start,
            j,
        ),
    decreases j,
{
    if i < j {
        lemma_nth_path_order(items, start, i, (j - 1) as nat);
    }
}

/// Counting on from a path.
pub proof fn lemma_nth_path_skip(items: Map<int, Item>, start: int, a: nat, b: nat)
    ensures
        nth_path(items, nth_path(items, start, a), b) == nth_path(items, start, a + b),
    decreases b,
{
    if b > 0 {
        lemma_nth_path_skip(items, start, a, (b - 1) as nat);
        assert(a + b - 1 == (a + (b - 1) as nat));
    }
}

/// Stored metadata as the start of the rest of the buffer.
proof fn lemma_meta_part(buffer: Seq<u8>, items: Map<int, Item>, at: int)
    requires
        layout(buffer, items),
        is_meta(items, at),
        buffer.len() <= u32::MAX,
    ensures
        0 <= at < buffer.len(),
        at + items[at].len() <= u32::MAX,
        items[at].len() <= 127,
        decodable(buffer.subrange(at, buffer.len() as int)),
        decoded(buffer.subrange(at, buffer.len() as int)) == items[at].info(),
        decoded_len(buffer.subrange(at, buffer.len() as int)) == items[at].len(),
        header_len(buffer.subrange(at, buffer.len() as int)) == items[at].len(),
{
    let bytes = items[at]->bytes;
    let part = buffer.subrange(at, buffer.len() as int);
    assert(items.contains_key(at));
    let own = buffer.subrange(at, at + items[at].len());
    assert forall|i: int|
        #![trigger bytes[i]]
        #![trigger part[i]]
        0 <= i < bytes.len() implies bytes[i] == part[i] by {
        assert(own[i] == bytes[i]);
    }
    assert(same_bytes(bytes, part, 0, decoded_len(bytes)));
    lemma_decoded_same(bytes, part);
}

/// Changing what a path refers to keeps the references between items valid.
proof fn lemma_links_replace(items: Map<int, Item>, at: int, item: Item)
    requires
        links_ok(items, None),
        items.contains_key(at),
        item.len() == items[at].len(),
        item is Path ==> items[at] is Path && target_ok(items, item->meta),
        item is Meta ==> items[at] is Meta && item.info().children == items[at].info().children,
    ensures
        links_ok(items.insert(at, item), None),
{
    let more = items.insert(at, item);
    assert forall|o: int| #[trigger] is_path(more, o) implies target_ok(more, more[o]->meta) by {
        if o != at {
            assert(is_path(items, o));
        }
    }
    assert forall|o: int| #[trigger] is_meta(more, o) implies o > 0 && folder_ok(more, o) by {
        assert(is_meta(items, o));
        if let Some(n) = items[o].info().children {
            assert forall|q: int| #[trigger] is_path(items, q) implies is_path(more, q)
                && more[q].len() == items[q].len() by {}
            lemma_nth_path_same(items, more, first_child(items, o), n as nat);
        }
    }
}

/// What is stored for an update of metadata: nothing is changed by metadata that
/// differs in structure, otherwise all numbers until the first that does not fit.
pub open spec fn update_result(new: FsEntryMetadata, before: Seq<u8>, after: Seq<u8>) -> bool {
    if new.update_conflict(before) is Some {
        after == before
    } else {
        new.updated(before, after, new.update_stop(before, 1))
    }
}

impl FsMetadataId {
    /// Replaces the stored metadata with new information.
    ///
    /// Note: updating the metadata is quite expensive to do, i.e. similar to
    /// loading it.
    ///
    /// Note: numbers can't change integer classes so usually you can only make
    /// them smaller. Also you can't change the number of direct children of a
    /// folder, i.e. [`FsEntryMetadata::children`] or if an entry is a folder
    /// ([`FsEntryMetadata::is_dir`]).
    pub fn update_metadata(self, new: FsEntryMetadata, index: &mut FsIndex) -> (result: Result<
        (),
        MetadataUpdateError,
    >)
        requires
            old(index).wf(),
            is_meta(old(index).items(), self.at()),
            new.storable(),
        ensures
            final(index).wf(),
            result is Ok <==> new.update_error(old(index).items()[self.at()]->bytes) is None,
            result matches Err(error) ==> new.update_error(old(index).items()[self.at()]->bytes)
                == Some(error),
            result is Ok ==> final(index).items()[self.at()].info() == new.stored(),
            final(index).items() == old(index).items().insert(
                self.at(),
                final(index).items()[self.at()],
            ),
            is_meta(final(index).items(), self.at()),
            final(index).items()[self.at()].len() == old(index).items()[self.at()].len(),
            update_result(
                new,
                old(index).items()[self.at()]->bytes,
                final(index).items()[self.at()]->bytes,
            ),
            final(index).size() == old(index).size(),
            final(index).spec_root() == old(index).spec_root(),
            final(index).spec_metadata_count() == old(index).spec_metadata_count(),
            final(index).spec_path_count() == old(index).spec_path_count(),
            final(index).spec_path_len() == old(index).spec_path_len(),
    {
        let ghost before = index.buffer@;
        let ghost items = index.items@;
        let ghost at = self.at();
        let ghost bytes = items[at]->bytes;
        proof {
            assert(items.contains_key(at));
            lemma_meta_part(before, items, at);
        }
        let start: usize = self.0 as usize;
        let len: usize = (index.buffer[start] % 128) as usize;
        let mut part: Vec<u8> = Vec::new();
        part.extend_from_slice(
            vstd::slice::slice_subrange(index.buffer.as_slice(), start, start + len),
        );
        proof {
            assert(before.subrange(at, before.len() as int)[0] == before[at]);
            assert(part@ == bytes);
        }
        let result = new.update_ne_bytes(part.as_mut_slice());
        copy_into(&mut index.buffer, start, &part);
        let ghost changed = Item::Meta { bytes: part@ };
        proof {
            lemma_updated_ok(new, bytes, part@);
            assert(index.buffer@.subrange(at, at + changed.len()) == changed.bytes());
            lemma_layout_replace(before, items, index.buffer@, at, changed);
            lemma_links_replace(items, at, changed);
            if new.update_error(bytes) is None {
                law_updated_metadata_can_be_decoded(new, bytes, part@);
            }
        }
        index.items = Ghost(index.items@.insert(at, changed));
        match result {
            Ok(_) => Ok(()),
            Err(error) => Err(error),
        }
    }
}

/// Overwrites a part of a buffer.
fn copy_into(buffer: &mut Vec<u8>, at: usize, part: &Vec<u8>)
    requires
        at + part@.len() <= old(buffer)@.len(),
    ensures
        final(buffer)@.len() == old(buffer)@.len(),
        same_bytes(old(buffer)@, final(buffer)@, 0, at as int),
        final(buffer)@.subrange(at as int, at + part@.len()) == part@,
        same_bytes(old(buffer)@, final(buffer)@, at + part@.len(), old(buffer)@.len() as int),
{
    let len: usize = buffer.len();
    let mut i: usize = 0;
    while i < part.len()
        invariant
            i <= part@.len(),
            at + part@.len() <= len,
            buffer@.len() == len,
            buffer@.len() == old(buffer)@.len(),
            same_bytes(old(buffer)@, buffer@, 0, at as int),
            forall|j: int| 0 <= j < i ==> buffer@[at + j] == #[trigger] part@[j],
            same_bytes(old(buffer)@, buffer@, at + part@.len(), old(buffer)@.len() as int),
        decreases part@.len() - i,
    {
        let b: u8 = part[i];
        buffer[at + i] = b;
        i = i + 1;
    }
    assert(buffer@.subrange(at as int, at + part@.len()) == part@);
}

/// Stored metadata stays valid when it is updated, even if the update stops
/// early.
proof fn lemma_updated_ok(new: FsEntryMetadata, before: Seq<u8>, after: Seq<u8>)
    requires
        new.storable(),
        (Item::Meta { bytes: before }).ok(),
        update_result(new, before, after),
    ensures
        (Item::Meta { bytes: after }).ok(),
        after.len() == before.len(),
        decoded(after).children == decoded(before).children,
        decoded(after).is_dir == decoded(before).is_dir,
{
    if new.update_conflict(before) is None {
        let stop = new.update_stop(before, 1);
        let n = int_count(before);
        let values = new.ints();
        lemma_int_count(before);
        lemma_int_count(after);
        lemma_layout_len(before);
        assert(int_at(after, 0) == int_at(before, 0));
        assert(int_at(after, 3) == values[3] || int_at(after, 3) == int_at(before, 3));
        assert(int_at(after, 4) == values[4] || int_at(after, 4) == int_at(before, 4));
        lemma_date_code(new.modified.year as int, new.modified.ordinal as int);
        if header_is_drive(before) {
            assert(is_flag(before, drive_index(before, 0)));
            assert(drive_index(after, 0) == drive_index(before, 0));
            assert(int_at(after, drive_index(before, 0)) == int_at(before, drive_index(before, 0)));
            assert(drive_index(after, 1) == drive_index(before, 1));
            assert(int_at(after, drive_index(before, 1)) == int_at(before, drive_index(before, 1)));
            assert(drive_index(after, 2) == drive_index(before, 2));
            assert(int_at(after, drive_index(before, 2)) == int_at(before, drive_index(before, 2)));
            assert(drive_index(after, 3) == drive_index(before, 3));
            assert(int_at(after, drive_index(before, 3)) == int_at(before, drive_index(before, 3)));
            assert(drive_index(after, 4) == drive_index(before, 4));
        }
        assert(int_count(after) == n);
        assert forall|k: nat| k < n implies int_ok(after, #[trigger] nth_int(after, k)) by {
            lemma_nth_int_order(before, 0, k);
            assert(int_ok(before, nth_int(before, k)));
            assert(nth_int(after, k) == nth_int(before, k));
            assert(nth_int(after, k + 1) == nth_int(before, k + 1));
        }
    }
}

impl FsEntry {
    /// Replaces the stored metadata with new information.
    ///
    /// Forwards the call to [`FsMetadataId::update_metadata`].
    pub fn update_metadata(&self, new: FsEntryMetadata, index: &mut FsIndex) -> (result: Result<
        (),
        MetadataUpdateError,
    >)
        requires
            old(index).wf(),
            is_meta(old(index).items(), self.at()),
            new.storable(),
        ensures
            final(index).wf(),
            new.is_dir != self.info().is_dir ==> result == Err::<(), MetadataUpdateError>(
                MetadataUpdateError::ChangedIsFolder,
            ) && *final(index) == *old(index),
            new.is_dir == self.info().is_dir && new.children != self.info().children ==> result
                == Err::<(), MetadataUpdateError>(MetadataUpdateError::ChangedChildren)
                && *final(index) == *old(index),
            new.is_dir == self.info().is_dir && new.children == self.info().children ==> {
                &&& result is Ok <==> new.update_error(old(index).items()[self.at()]->bytes) is None
                &&& result matches Err(error) ==> new.update_error(
                    old(index).items()[self.at()]->bytes,
                ) == Some(error)
                &&& update_result(
                    new,
                    old(index).items()[self.at()]->bytes,
                    final(index).items()[self.at()]->bytes,
                )
            },
            result is Ok ==> final(index).items()[self.at()].info() == new.stored(),
            final(index).items() == old(index).items().insert(
                self.at(),
                final(index).items()[self.at()],
            ),
            is_meta(final(index).items(), self.at()),
            final(index).items()[self.at()].len() == old(index).items()[self.at()].len(),
            final(index).size() == old(index).size(),
            final(index).spec_root() == old(index).spec_root(),
            final(index).spec_metadata_count() == old(index).spec_metadata_count(),
            final(index).spec_path_count() == old(index).spec_path_count(),
            final(index).spec_path_len() == old(index).spec_path_len(),
    {
        if new.is_dir != self.info.is_dir {
            assert(index.items() == index.items().insert(self.at(), index.items()[self.at()]));
            return Err(MetadataUpdateError::ChangedIsFolder);
        }
        if new.children != self.info.children {
            assert(index.items() == index.items().insert(self.at(), index.items()[self.at()]));
            return Err(MetadataUpdateError::ChangedChildren);
        }
        self.info_index.update_metadata(new, index)
    }
}

/// Paths with the places of their metadata.
pub open spec fn child_views(children: Seq<(String, FsMetadataId)>) -> Seq<(Seq<char>, int)> {
    children.map_values(|child: (String, FsMetadataId)| (child.0@, child.1.at()))
}

/// Number of bytes taken by some paths.
pub open spec fn paths_len(list: Seq<(Seq<char>, int)>) -> int
    decreases list.len(),
{
    if list.len() == 0 {
        0
    } else {
        paths_len(list.drop_last()) + 6 + encode_utf8(list.last().0).len()
    }
}

/// Items together with paths that follow each other.
pub open spec fn with_paths(
    items: Map<int, Item>,
    start: int,
    list: Seq<(Seq<char>, int)>,
) -> Map<int, Item>
    decreases list.len(),
{
    if list.len() == 0 {
        items
    } else {
        with_paths(items, start, list.drop_last()).insert(
            start + paths_len(list.drop_last()),
            Item::Path { meta: list.last().1 as u32, name: list.last().0 },
        )
    }
}

/// Whether the paths from `start` on are the listed ones.
pub open spec fn paths_are(
    items: Map<int, Item>,
    start: int,
    list: Seq<(Seq<char>, int)>,
) -> bool {
    forall|i: nat|
        i < list.len() ==> is_path(items, #[trigger] nth_path(items, start, i)) && items[nth_path(
            items,
            start,
            i,
        )] == (Item::Path { meta: list[i as int].1 as u32, name: list[i as int].0 })
}

pub open spec fn names_fit(list: Seq<(Seq<char>, int)>) -> bool {
    forall|i: int|
        0 <= i < list.len() ==> encode_utf8((#[trigger] list[i]).0).len() <= u16::MAX
}

pub open spec fn metas_exist(items: Map<int, Item>, list: Seq<(Seq<char>, int)>) -> bool {
    forall|i: int| 0 <= i < list.len() ==> is_meta(items, (#[trigger] list[i]).1)
}

pub proof fn lemma_paths_len_prefix(list: Seq<(Seq<char>, int)>, k: int)
    requires
        0 <= k <= list.len(),
    ensures
        0 <= paths_len(list.take(k)) <= paths_len(list),
    decreases list.len(),
{
    if k < list.len() {
        lemma_paths_len_prefix(list.drop_last(), k);
        assert(list.drop_last().take(k) == list.take(k));
    } else {
        assert(list.take(k) == list);
        if list.len() > 0 {
            lemma_paths_len_prefix(list.drop_last(), list.len() - 1);
            assert(list.drop_last().take(list.len() - 1) == list.drop_last());
        }
    }
}

impl FsIndex {
    /// Add a folder or file.
    ///
    /// When [`FsEntryMetadata::is_dir`] is `true` then the `children` argument and
    /// the [`FsEntryMetadata::children`] must be `Some` and the count must match
    /// the length of the `Vec` in the `children` argument. Otherwise both must be
    /// `None`.
    pub fn add_entry(
        &mut self,
        metadata: FsEntryMetadata,
        children: Option<Vec<(String, FsMetadataId)>>,
    ) -> (id: FsMetadataId)
        requires
            old(self).wf(),
            0 < old(self).size(),
            metadata.storable(),
            metadata.is_dir == (children is Some),
            children is None ==> metadata.children is None,
            children matches Some(list) ==> {
                &&& list@.len() <= u32::MAX
                &&& metadata.children == Some(list@.len() as u32)
                &&& names_fit(child_views(list@))
                &&& metas_exist(old(self).items(), child_views(list@))
                &&& old(self).size() + metadata.encoded().len() + paths_len(child_views(list@))
                    <= u32::MAX
            },
            old(self).size() + metadata.encoded().len() <= u32::MAX,
        ensures
            final(self).wf(),
            id.at() == old(self).size(),
            !old(self).items().contains_key(id.at()),
            is_meta(final(self).items(), id.at()),
            final(self).items()[id.at()] == (Item::Meta { bytes: metadata.encoded() }),
            final(self).items()[id.at()].info() == metadata.stored(),
            forall|o: int| #[trigger]
                old(self).items().contains_key(o) ==> final(self).items().contains_key(o)
                    && final(self).items()[o] == old(self).items()[o],
            final(self).spec_root() == old(self).spec_root(),
            final(self).spec_metadata_count() == old(self).spec_metadata_count() + 1,
            children is None ==> {
                &&& final(self).items() == old(self).items().insert(
                    id.at(),
                    Item::Meta { bytes: metadata.encoded() },
                )
                &&& final(self).size() == old(self).size() + metadata.encoded().len()
                &&& final(self).spec_path_count() == old(self).spec_path_count()
                &&& final(self).spec_path_len() == old(self).spec_path_len()
            },
            children matches Some(list) ==> {
                &&& final(self).items() == with_paths(
                    old(self).items().insert(id.at(), Item::Meta { bytes: metadata.encoded() }),
                    id.at() + metadata.encoded().len(),
                    child_views(list@),
                )
                &&& paths_are(
                    final(self).items(),
                    id.at() + metadata.encoded().len(),
                    child_views(list@),
                )
                &&& final(self).size() == old(self).size() + metadata.encoded().len() + paths_len(
                    child_views(list@),
                )
                &&& final(self).spec_path_count() == old(self).spec_path_count() + list@.len()
                &&& final(self).spec_path_len() + 6 * list@.len() == old(self).spec_path_len()
                    + paths_len(child_views(list@))
            },
    {
        let ghost before = *self;
        let id = self.append_metadata(metadata);
        let ghost first = self.items();
        proof {
            let encoded = metadata.encoded();
            assert(encoded.take(encoded.len() as int) == encoded);
            law_encoded_metadata_can_be_decoded(metadata, encoded);
        }
        if let Some(list) = children {
            let ghost views = child_views(list@);
            let ghost start = id.at() + metadata.encoded().len();
            let ghost at = id.at();
            let ghost meta = Item::Meta { bytes: metadata.encoded() };
            let mut i: usize = 0;
            assert(views.take(0) == Seq::<(Seq<char>, int)>::empty());
            while i < list.len()
                invariant
                    i <= list@.len(),
                    views == child_views(list@),
                    names_fit(views),
                    metas_exist(before.items(), views),
                    before.size() + meta.len() + paths_len(views) <= u32::MAX,
                    at == before.size(),
                    at > 0,
                    start == at + meta.len(),
                    first == before.items().insert(at, meta),
                    first[at] == meta,
                    self.wf_with(Some(at)),
                    self.items() == with_paths(first, start, views.take(i as int)),
                    paths_are(self.items(), start, views.take(i as int)),
                    nth_path(self.items(), start, i as nat) == self.size(),
                    is_meta(self.items(), at),
                    self.items()[at] == meta,
                    self.size() == start + paths_len(views.take(i as int)),
                    forall|o: int| #[trigger]
                        before.items().contains_key(o) ==> self.items().contains_key(o)
                            && self.items()[o] == before.items()[o],
                    self.spec_root() == before.spec_root(),
                    self.spec_metadata_count() == before.spec_metadata_count() + 1,
                    self.spec_path_count() == before.spec_path_count() + i,
                    self.spec_path_len() + 6 * i == before.spec_path_len() + paths_len(
                        views.take(i as int),
                    ),
                decreases list@.len() - i,
            {
                let ghost items = self.items();
                proof {
                    assert(views[i as int] == (list@[i as int].0@, list@[i as int].1.at()));
                    assert(views.take(i + 1).drop_last() == views.take(i as int));
                    assert(views.take(i + 1).last() == views[i as int]);
                    lemma_paths_len_prefix(views, i + 1);
                    assert(is_meta(before.items(), views[i as int].1));
                    assert(is_meta(items, views[i as int].1));
                }
                let child_id = self.append_prefixed_path(
                    Some(list[i].1),
                    list[i].0.as_str(),
                    Ghost(Some(at)),
                );
                proof {
                    let more = self.items();
                    assert(paths_ok(items, start, i as nat)) by {
                        assert forall|k: nat| k < i implies is_path(
                            items,
                            #[trigger] nth_path(items, start, k),
                        ) by {}
                    }
                    assert forall|o: int| #[trigger] is_path(items, o) implies is_path(more, o)
                        && more[o].len() == items[o].len() by {}
                    lemma_nth_path_same(items, more, start, i as nat);
                    assert forall|k: nat| k < i + 1 implies is_path(
                        more,
                        #[trigger] nth_path(more, start, k),
                    ) && more[nth_path(more, start, k)] == (Item::Path {
                        meta: views.take(i + 1)[k as int].1 as u32,
                        name: views.take(i + 1)[k as int].0,
                    }) by {
                        assert(nth_path(more, start, k) == nth_path(items, start, k));
                        if k < i {
                            assert(is_path(items, nth_path(items, start, k)));
                            assert(views.take(i as int)[k as int] == views[k as int]);
                        }
                    }
                    assert(nth_path(more, start, i as nat) == nth_path(items, start, i as nat));
                    assert(nth_path(more, start, (i + 1) as nat) == self.size());
                }
                i = i + 1;
            }
            proof {
                assert(views.take(i as int) == views);
                let items = self.items();
                assert(first_child(items, at) == start);
                assert(paths_ok(items, start, list@.len())) by {
                    assert forall|k: nat| k < list@.len() implies is_path(
                        items,
                        #[trigger] nth_path(items, start, k),
                    ) by {}
                }
                assert(folder_ok(items, at));
                assert forall|o: int| #[trigger] is_meta(items, o) implies o > 0 && folder_ok(
                    items,
                    o,
                ) by {}
            }
        }
        id
    }

    /// Add metadata for a file.
    pub fn add_file(&mut self, metadata: FsEntryMetadata) -> (id: FsMetadataId)
        requires
            old(self).wf(),
            0 < old(self).size(),
            metadata.storable(),
            !metadata.is_dir,
            metadata.children is None,
            old(self).size() + metadata.encoded().len() <= u32::MAX,
        ensures
            final(self).wf(),
            id.at() == old(self).size(),
            !old(self).items().contains_key(id.at()),
            final(self).items() == old(self).items().insert(
                id.at(),
                Item::Meta { bytes: metadata.encoded() },
            ),
            final(self).items()[id.at()].info() == metadata.stored(),
            final(self).size() == old(self).size() + metadata.encoded().len(),
            final(self).spec_root() == old(self).spec_root(),
            final(self).spec_metadata_count() == old(self).spec_metadata_count() + 1,
            final(self).spec_path_count() == old(self).spec_path_count(),
            final(self).spec_path_len() == old(self).spec_path_len(),
    {
        self.add_entry(metadata, None)
    }

    /// Compact the memory used by the filesystem index. What it stores stays as it is.
    /// How much memory is given back is up to the allocator and is not stated.
    pub fn shrink_to_fit(&mut self)
        requires
            old(self).wf(),
        ensures
            final(self).wf(),
            final(self).items() == old(self).items(),
            final(self).size() == old(self).size(),
            final(self).spec_root() == old(self).spec_root(),
            final(self).spec_metadata_count() == old(self).spec_metadata_count(),
            final(self).spec_path_count() == old(self).spec_path_count(),
            final(self).spec_path_len() == old(self).spec_path_len(),
    {
        shrink(&mut self.buffer);
    }

    /// Number of bytes stored.
    pub(crate) fn byte_size(&self) -> (size: usize)
        ensures
            size == self.size(),
    {
        self.buffer.len()
    }

    /// Number of bytes that have been reserved for the index.
    pub fn estimated_size(&self) -> (size: usize)
        ensures
            size >= self.size(),
    {
        capacity(&self.buffer)
    }
}

impl Default for FsIndex {
    fn default() -> (index: Self)
        ensures
            index.wf(),
            index.items() == Map::<int, Item>::empty(),
            index.size() == 0,
            index.spec_root() is None,
    {
        Self::new()
    }
}

/// Calls `Vec::shrink_to_fit`, which changes the capacity but no element. The capacity
/// that is left is up to the allocator and is not stated.
#[verifier::external_body]
fn shrink(buffer: &mut Vec<u8>)
    ensures
        final(buffer)@ == old(buffer)@,
{
    buffer.shrink_to_fit();
}

/// Calls `Vec::capacity`, which is never smaller than the number of elements.
#[verifier::external_body]
fn capacity(buffer: &Vec<u8>) -> (size: usize)
    ensures
        size >= buffer@.len(),
{
    buffer.capacity()
}

} // verus!
