//! Blobs: fixed-size buffers with a header, as they go over the wire.
//!
//! The header takes the first `BLOB_HEADER_SIZE` bytes of the buffer:
//!
//! | bytes    | field                                        |
//! |----------|----------------------------------------------|
//! | `0..8`   | slot                                         |
//! | `8..16`  | index                                        |
//! | `16..48` | id of the sender                             |
//! | `48..52` | flags                                        |
//! | `52..60` | size of the data, the header included        |
//!
//! All numbers are little-endian. The data follow the header.
use vstd::prelude::*;

use vstd::slice::{slice_subrange, slice_to_vec};

use crate::endian::{
    from_le_bytes, le_bytes, le_value, lemma_le_bytes, lemma_le_limits, lemma_le_value_sums,
    to_le_bytes,
};

verus! {

/// The size of the buffer of a blob.
pub const BLOB_SIZE: usize = 64 * 1024 - 128;

/// The size of the header of a blob.
pub const BLOB_HEADER_SIZE: usize = 64;

/// The most data that a blob holds, such that its coding blob can carry header and data.
pub const BLOB_DATA_SIZE: usize = BLOB_SIZE - (BLOB_HEADER_SIZE * 2);

/// The flag of a coding blob.
pub const BLOB_FLAG_IS_CODING: u32 = 1;

/// Where the slot stands in the header.
pub const SLOT_OFFSET: usize = 0;

/// Where the index stands in the header.
pub const INDEX_OFFSET: usize = 8;

/// Where the id stands in the header.
pub const ID_OFFSET: usize = 16;

/// Where the flags stand in the header.
pub const FLAGS_OFFSET: usize = 48;

/// Where the size stands in the header.
pub const SIZE_OFFSET: usize = 52;

/// What the transport knows of a blob.
#[derive(Debug, PartialEq, Eq, Structural, Clone, Copy)]
pub struct Meta {
    /// The number of bytes of the buffer that are in use, the header included.
    pub size: usize,
}

/// A fixed-size buffer with a header.
#[derive(Debug)]
pub struct Blob {
    /// The buffer, `BLOB_SIZE` bytes long.
    pub data: Vec<u8>,
    /// What the transport knows of the blob.
    pub meta: Meta,
}

/// The contents of a blob.
#[verifier::ext_equal]
pub struct BlobView {
    /// The buffer.
    pub data: Seq<u8>,
    /// The number of bytes in use.
    pub size: nat,
}

/// `bytes` with those from `at` on replaced by `part`.
pub open spec fn put(bytes: Seq<u8>, at: int, part: Seq<u8>) -> Seq<u8> {
    Seq::new(
        bytes.len(),
        |i: int|
            if at <= i < at + part.len() {
                part[i - at]
            } else {
                bytes[i]
            },
    )
}

impl BlobView {
    /// The blob with nothing in it.
    pub open spec fn blank() -> BlobView {
        BlobView { data: Seq::new(BLOB_SIZE as nat, |i: int| 0u8), size: 0 }
    }

    /// The slot in the header.
    pub open spec fn slot(self) -> u64 {
        le_value(self.data.subrange(SLOT_OFFSET as int, SLOT_OFFSET + 8)) as u64
    }

    /// The index in the header.
    pub open spec fn index(self) -> u64 {
        le_value(self.data.subrange(INDEX_OFFSET as int, INDEX_OFFSET + 8)) as u64
    }

    /// The id in the header.
    pub open spec fn id(self) -> Seq<u8> {
        self.data.subrange(ID_OFFSET as int, ID_OFFSET + 32)
    }

    /// The flags in the header.
    pub open spec fn flags(self) -> u32 {
        le_value(self.data.subrange(FLAGS_OFFSET as int, FLAGS_OFFSET + 4)) as u32
    }

    /// The size in the header.
    pub open spec fn data_size(self) -> u64 {
        le_value(self.data.subrange(SIZE_OFFSET as int, SIZE_OFFSET + 8)) as u64
    }

    /// The blob with the bytes from `at` on replaced.
    pub open spec fn with_bytes(self, at: int, part: Seq<u8>) -> BlobView {
        BlobView { data: put(self.data, at, part), size: self.size }
    }

    /// The blob with another slot.
    pub open spec fn with_slot(self, slot: u64) -> BlobView {
        self.with_bytes(SLOT_OFFSET as int, le_bytes(slot as nat, 8))
    }

    /// The blob with another index.
    pub open spec fn with_index(self, index: u64) -> BlobView {
        self.with_bytes(INDEX_OFFSET as int, le_bytes(index as nat, 8))
    }

    /// The blob with another id.
    pub open spec fn with_id(self, id: Seq<u8>) -> BlobView {
        self.with_bytes(ID_OFFSET as int, id)
    }

    /// The blob with other flags.
    pub open spec fn with_flags(self, flags: u32) -> BlobView {
        self.with_bytes(FLAGS_OFFSET as int, le_bytes(flags as nat, 4))
    }

    /// The blob with `size` bytes of data.
    pub open spec fn with_size(self, size: nat) -> BlobView {
        BlobView {
            data: put(
                self.data,
                SIZE_OFFSET as int,
                le_bytes(size + BLOB_HEADER_SIZE as nat, 8),
            ),
            size: size + BLOB_HEADER_SIZE as nat,
        }
    }

    /// The blob marked as a coding blob.
    pub open spec fn with_coding_flag(self) -> BlobView {
        self.with_flags(self.flags() | BLOB_FLAG_IS_CODING)
    }
}

/// A field that is written is read back, and the bytes beside it are as they were.
proof fn lemma_put(bytes: Seq<u8>, at: int, part: Seq<u8>)
    requires
        0 <= at,
        at + part.len() <= bytes.len(),
    ensures
        put(bytes, at, part).len() == bytes.len(),
        put(bytes, at, part).subrange(at, at + part.len()) == part,
        forall|from: int, to: int|
            0 <= from <= to <= bytes.len() && (to <= at || at + part.len() <= from) ==> #[trigger] put(
                bytes,
                at,
                part,
            ).subrange(from, to) == bytes.subrange(from, to),
{
    assert(put(bytes, at, part).subrange(at, at + part.len()) =~= part);
    assert forall|from: int, to: int|
        0 <= from <= to <= bytes.len() && (to <= at || at + part.len()
            <= from) implies #[trigger] put(bytes, at, part).subrange(from, to) == bytes.subrange(
        from,
        to,
    ) by {
        assert(put(bytes, at, part).subrange(from, to) =~= bytes.subrange(from, to));
    }
}

/// The header gives back the slot that was set, and nothing else in the blob changes.
pub proof fn lemma_with_slot(blob: BlobView, slot: u64)
    requires
        blob.data.len() == BLOB_SIZE,
    ensures
        blob.with_slot(slot).slot() == slot,
        blob.with_slot(slot).index() == blob.index(),
        blob.with_slot(slot).id() == blob.id(),
        blob.with_slot(slot).flags() == blob.flags(),
        blob.with_slot(slot).data_size() == blob.data_size(),
        blob.with_slot(slot).size == blob.size,
        blob.with_slot(slot).data.skip(BLOB_HEADER_SIZE as int) == blob.data.skip(
            BLOB_HEADER_SIZE as int,
        ),
        blob.with_slot(slot).data.len() == BLOB_SIZE,
        forall|b: int|
            0 <= b < BLOB_SIZE && !(0 <= b < 8) ==> #[trigger] blob.with_slot(slot).data[b]
                == blob.data[b],
{
    lemma_le_limits();
    lemma_le_bytes(slot as nat, 8);
    lemma_put(blob.data, SLOT_OFFSET as int, le_bytes(slot as nat, 8));
}

/// The header gives back the index that was set, and nothing else in the blob changes.
pub proof fn lemma_with_index(blob: BlobView, index: u64)
    requires
        blob.data.len() == BLOB_SIZE,
    ensures
        blob.with_index(index).index() == index,
        blob.with_index(index).slot() == blob.slot(),
        blob.with_index(index).id() == blob.id(),
        blob.with_index(index).flags() == blob.flags(),
        blob.with_index(index).data_size() == blob.data_size(),
        blob.with_index(index).size == blob.size,
        blob.with_index(index).data.skip(BLOB_HEADER_SIZE as int) == blob.data.skip(
            BLOB_HEADER_SIZE as int,
        ),
        blob.with_index(index).data.len() == BLOB_SIZE,
        forall|b: int|
            0 <= b < BLOB_SIZE && !(8 <= b < 16) ==> #[trigger] blob.with_index(index).data[b]
                == blob.data[b],
{
    lemma_le_limits();
    lemma_le_bytes(index as nat, 8);
    lemma_put(blob.data, INDEX_OFFSET as int, le_bytes(index as nat, 8));
}

/// The header gives back the id that was set, and nothing else in the blob changes.
pub proof fn lemma_with_id(blob: BlobView, id: Seq<u8>)
    requires
        blob.data.len() == BLOB_SIZE,
        id.len() == 32,
    ensures
        blob.with_id(id).id() == id,
        blob.with_id(id).slot() == blob.slot(),
        blob.with_id(id).index() == blob.index(),
        blob.with_id(id).flags() == blob.flags(),
        blob.with_id(id).data_size() == blob.data_size(),
        blob.with_id(id).size == blob.size,
        blob.with_id(id).data.skip(BLOB_HEADER_SIZE as int) == blob.data.skip(
            BLOB_HEADER_SIZE as int,
        ),
        blob.with_id(id).data.len() == BLOB_SIZE,
        forall|b: int|
            0 <= b < BLOB_SIZE && !(16 <= b < 48) ==> #[trigger] blob.with_id(id).data[b]
                == blob.data[b],
{
    lemma_put(blob.data, ID_OFFSET as int, id);
}

/// The header gives back the flags that were set, and nothing else in the blob changes.
pub proof fn lemma_with_flags(blob: BlobView, flags: u32)
    requires
        blob.data.len() == BLOB_SIZE,
    ensures
        blob.with_flags(flags).flags() == flags,
        blob.with_flags(flags).slot() == blob.slot(),
        blob.with_flags(flags).index() == blob.index(),
        blob.with_flags(flags).id() == blob.id(),
        blob.with_flags(flags).data_size() == blob.data_size(),
        blob.with_flags(flags).size == blob.size,
        blob.with_flags(flags).data.skip(BLOB_HEADER_SIZE as int) == blob.data.skip(
            BLOB_HEADER_SIZE as int,
        ),
        blob.with_flags(flags).data.len() == BLOB_SIZE,
        forall|b: int|
            0 <= b < BLOB_SIZE && !(48 <= b < 52) ==> #[trigger] blob.with_flags(flags).data[b]
                == blob.data[b],
{
    lemma_le_limits();
    lemma_le_bytes(flags as nat, 4);
    lemma_put(blob.data, FLAGS_OFFSET as int, le_bytes(flags as nat, 4));
}

/// The header and the transport give back the size that was set, and nothing else in the
/// blob changes.
pub proof fn lemma_with_size(blob: BlobView, size: nat)
    requires
        blob.data.len() == BLOB_SIZE,
        size + BLOB_HEADER_SIZE <= u64::MAX,
    ensures
        blob.with_size(size).data_size() == size + BLOB_HEADER_SIZE,
        blob.with_size(size).size == size + BLOB_HEADER_SIZE,
        blob.with_size(size).slot() == blob.slot(),
        blob.with_size(size).index() == blob.index(),
        blob.with_size(size).id() == blob.id(),
        blob.with_size(size).flags() == blob.flags(),
        blob.with_size(size).data.skip(BLOB_HEADER_SIZE as int) == blob.data.skip(
            BLOB_HEADER_SIZE as int,
        ),
        blob.with_size(size).data.len() == BLOB_SIZE,
        forall|b: int|
            0 <= b < BLOB_SIZE && !(52 <= b < 60) ==> #[trigger] blob.with_size(size).data[b]
                == blob.data[b],
{
    lemma_le_limits();
    lemma_le_bytes(size + BLOB_HEADER_SIZE as nat, 8);
    lemma_put(
        blob.data,
        SIZE_OFFSET as int,
        le_bytes(size + BLOB_HEADER_SIZE as nat, 8),
    );
}

/// Marking a blob as a coding blob sets the lowest flag and keeps the others, and nothing else
/// in the blob changes.
pub proof fn lemma_with_coding_flag(blob: BlobView)
    requires
        blob.data.len() == BLOB_SIZE,
    ensures
        blob.with_coding_flag().flags() % 2 == 1,
        blob.with_coding_flag().flags() / 2 == blob.flags() / 2,
        blob.with_coding_flag().size == blob.size,
        blob.with_coding_flag().data.len() == BLOB_SIZE,
        forall|b: int|
            0 <= b < BLOB_SIZE && !(48 <= b < 52) ==> #[trigger] blob.with_coding_flag().data[b]
                == blob.data[b],
{
    let f: u32 = blob.flags();
    lemma_with_flags(blob, f | BLOB_FLAG_IS_CODING);
    assert((f | 1) % 2 == 1 && (f | 1) / 2 == f / 2) by (bit_vector);
}

/// Where the fields of the header stand, byte by byte.
pub proof fn lemma_header_bytes(blob: BlobView)
    requires
        blob.data.len() == BLOB_SIZE,
    ensures
        blob.slot() == blob.data[0] + 0x100 * blob.data[1] + 0x1_0000 * blob.data[2] + 0x100_0000
            * blob.data[3] + 0x1_0000_0000 * blob.data[4] + 0x100_0000_0000 * blob.data[5]
            + 0x1_0000_0000_0000 * blob.data[6] + 0x100_0000_0000_0000 * blob.data[7],
        blob.index() == blob.data[8] + 0x100 * blob.data[9] + 0x1_0000 * blob.data[10] + 0x100_0000
            * blob.data[11] + 0x1_0000_0000 * blob.data[12] + 0x100_0000_0000 * blob.data[13]
            + 0x1_0000_0000_0000 * blob.data[14] + 0x100_0000_0000_0000 * blob.data[15],
        blob.id().len() == 32,
        forall|b: int| 0 <= b < 32 ==> #[trigger] blob.id()[b] == blob.data[16 + b],
        blob.flags() == blob.data[48] + 0x100 * blob.data[49] + 0x1_0000 * blob.data[50]
            + 0x100_0000 * blob.data[51],
        blob.data_size() == blob.data[52] + 0x100 * blob.data[53] + 0x1_0000 * blob.data[54]
            + 0x100_0000 * blob.data[55] + 0x1_0000_0000 * blob.data[56] + 0x100_0000_0000
            * blob.data[57] + 0x1_0000_0000_0000 * blob.data[58] + 0x100_0000_0000_0000
            * blob.data[59],
{
    lemma_le_value_sums(blob.data.subrange(0, 8));
    lemma_le_value_sums(blob.data.subrange(8, 16));
    lemma_le_value_sums(blob.data.subrange(48, 52));
    lemma_le_value_sums(blob.data.subrange(52, 60));
}

/// A blank blob holds zeros only, and nothing is in use.
pub proof fn lemma_blank()
    ensures
        BlobView::blank().size == 0,
        BlobView::blank().data.len() == BLOB_SIZE,
        forall|b: int| 0 <= b < BLOB_SIZE ==> #[trigger] BlobView::blank().data[b] == 0,
{
}

/// A loaded buffer holds the stored bytes, and zeros behind them.
pub proof fn lemma_loaded(bytes: Seq<u8>)
    ensures
        loaded(bytes).len() == BLOB_SIZE,
        forall|b: int|
            0 <= b < BLOB_SIZE ==> #[trigger] loaded(bytes)[b] == (if b < bytes.len() {
                bytes[b]
            } else {
                0
            }),
{
}

/// The view of a blob shows its whole buffer and its size, and a buffer of the fixed size is
/// all that a blob needs.
pub proof fn lemma_blob_view(blob: Blob)
    ensures
        blob@.data == blob.data@,
        blob@.size == blob.meta.size,
        blob.wf() <==> blob.data@.len() == BLOB_SIZE,
{
}

impl View for Blob {
    type V = BlobView;

    open spec fn view(&self) -> BlobView {
        BlobView { data: self.data@, size: self.meta.size as nat }
    }
}

impl Default for Blob {
    fn default() -> (blob: Blob)
        ensures
            blob.wf(),
            blob@ == BlobView::blank(),
    {
        let data: Vec<u8> = vec![0u8; BLOB_SIZE];
        assert(data@ =~= BlobView::blank().data);
        Blob { data, meta: Meta { size: 0 } }
    }
}

impl Clone for Blob {
    fn clone(&self) -> (copy: Blob)
        ensures
            copy@ == self@,
    {
        Blob { data: slice_to_vec(self.data.as_slice()), meta: self.meta }
    }
}

/// A blob as it is loaded from its stored bytes: the rest of the buffer is zero, and the
/// size is the one in the header.
pub open spec fn loaded(bytes: Seq<u8>) -> Seq<u8> {
    Seq::new(
        BLOB_SIZE as nat,
        |i: int|
            if i < bytes.len() {
                bytes[i]
            } else {
                0
            },
    )
}

impl Blob {
    /// The buffer has its fixed size.
    pub open spec fn wf(self) -> bool {
        self.data.len() == BLOB_SIZE
    }

    /// Returns the blob with the stored bytes, cut off at the size of the buffer.
    pub fn new(data: &[u8]) -> (blob: Blob)
        ensures
            blob.wf(),
            blob.data@ == loaded(data@),
            blob.meta.size == blob@.data_size() as usize,
    {
        let mut blob: Blob = Blob::default();
        let n: usize = if data.len() < BLOB_SIZE {
            data.len()
        } else {
            BLOB_SIZE
        };
        let mut i: usize = 0;
        while i < n
            invariant
                i <= n <= data@.len(),
                n <= BLOB_SIZE,
                blob.data.len() == BLOB_SIZE,
                forall|k: int| 0 <= k < i ==> #[trigger] blob.data@[k] == data@[k],
                forall|k: int| i <= k < BLOB_SIZE ==> #[trigger] blob.data@[k] == 0,
            decreases n - i,
        {
            blob.data.set(i, data[i]);
            i = i + 1;
        }
        assert(blob.data@ =~= loaded(data@));
        blob.meta.size = blob.data_size() as usize;
        blob
    }

    fn read_u64(&self, at: usize) -> (value: u64)
        requires
            self.wf(),
            at <= BLOB_HEADER_SIZE - 8,
        ensures
            value == le_value(self.data@.subrange(at as int, at + 8)),
    {
        from_le_bytes(slice_subrange(self.data.as_slice(), at, at + 8))
    }

    fn write_bytes(&mut self, at: usize, part: &[u8])
        requires
            old(self).wf(),
            at + part@.len() <= BLOB_SIZE,
        ensures
            final(self)@ == old(self)@.with_bytes(at as int, part@),
            final(self).wf(),
    {
        let n: usize = part.len();
        let mut i: usize = 0;
        while i < n
            invariant
                i <= n,
                n == part@.len(),
                at + n <= BLOB_SIZE,
                self.data.len() == BLOB_SIZE,
                self.meta == old(self).meta,
                old(self).wf(),
                forall|k: int|
                    0 <= k < BLOB_SIZE ==> #[trigger] self.data@[k] == (if at <= k < at + i {
                        part@[k - at]
                    } else {
                        old(self).data@[k]
                    }),
            decreases n - i,
        {
            self.data.set(at + i, part[i]);
            i = i + 1;
        }
        assert(self.data@ =~= put(old(self).data@, at as int, part@));
    }

    /// Returns the slot.
    pub fn slot(&self) -> (slot: u64)
        requires
            self.wf(),
        ensures
            slot == self@.slot(),
    {
        self.read_u64(SLOT_OFFSET)
    }

    /// Sets the slot.
    pub fn set_slot(&mut self, slot: u64)
        requires
            old(self).wf(),
        ensures
            final(self)@ == old(self)@.with_slot(slot),
            final(self).wf(),
    {
        let bytes: Vec<u8> = to_le_bytes(slot, 8);
        proof {
            lemma_le_bytes(slot as nat, 8);
        }
        self.write_bytes(SLOT_OFFSET, bytes.as_slice());
    }

    /// Returns the index.
    pub fn index(&self) -> (index: u64)
        requires
            self.wf(),
        ensures
            index == self@.index(),
    {
        self.read_u64(INDEX_OFFSET)
    }

    /// Sets the index.
    pub fn set_index(&mut self, index: u64)
        requires
            old(self).wf(),
        ensures
            final(self)@ == old(self)@.with_index(index),
            final(self).wf(),
    {
        let bytes: Vec<u8> = to_le_bytes(index, 8);
        proof {
            lemma_le_bytes(index as nat, 8);
        }
        self.write_bytes(INDEX_OFFSET, bytes.as_slice());
    }

    /// Returns the id of the sender.
    pub fn id(&self) -> (id: [u8; 32])
        requires
            self.wf(),
        ensures
            id@ == self@.id(),
    {
        let mut id: [u8; 32] = [0u8; 32];
        let mut i: usize = 0;
        while i < 32
            invariant
                i <= 32,
                self.wf(),
                forall|k: int| 0 <= k < i ==> #[trigger] id@[k] == self.data@[ID_OFFSET + k],
            decreases 32 - i,
        {
            id[i] = self.data[ID_OFFSET + i];
            i = i + 1;
        }
        assert(id@ =~= self@.id());
        id
    }

    /// Sets the id of the sender.
    pub fn set_id(&mut self, id: &[u8; 32])
        requires
            old(self).wf(),
        ensures
            final(self)@ == old(self)@.with_id(id@),
            final(self).wf(),
    {
        self.write_bytes(ID_OFFSET, id.as_slice());
    }

    /// Returns the flags.
    pub fn flags(&self) -> (flags: u32)
        requires
            self.wf(),
        ensures
            flags == self@.flags(),
    {
        from_le_bytes(slice_subrange(self.data.as_slice(), FLAGS_OFFSET, FLAGS_OFFSET + 4)) as u32
    }

    /// Sets the flags.
    pub fn set_flags(&mut self, flags: u32)
        requires
            old(self).wf(),
        ensures
            final(self)@ == old(self)@.with_flags(flags),
            final(self).wf(),
    {
        let bytes: Vec<u8> = to_le_bytes(flags as u64, 4);
        proof {
            lemma_le_bytes(flags as nat, 4);
        }
        self.write_bytes(FLAGS_OFFSET, bytes.as_slice());
    }

    /// Returns whether the blob is a coding blob.
    pub fn is_coding(&self) -> (coding: bool)
        requires
            self.wf(),
        ensures
            coding == (self@.flags() & BLOB_FLAG_IS_CODING != 0),
    {
        self.flags() & BLOB_FLAG_IS_CODING != 0
    }

    /// Marks the blob as a coding blob.
    pub fn set_coding(&mut self)
        requires
            old(self).wf(),
        ensures
            final(self)@ == old(self)@.with_coding_flag(),
            final(self).wf(),
    {
        let flags: u32 = self.flags();
        self.set_flags(flags | BLOB_FLAG_IS_CODING);
    }

    /// Returns the size in the header, which counts the header too.
    pub fn data_size(&self) -> (size: u64)
        requires
            self.wf(),
        ensures
            size == self@.data_size(),
    {
        self.read_u64(SIZE_OFFSET)
    }

    /// Returns the number of bytes of data, if header and transport agree on it.
    pub fn size(&self) -> (size: Option<usize>)
        requires
            self.wf(),
        ensures
            size is Some <==> self@.size == self@.data_size() && self@.size >= BLOB_HEADER_SIZE,
            size matches Some(n) ==> n == self@.size - BLOB_HEADER_SIZE,
    {
        if self.meta.size as u64 == self.data_size() && self.meta.size >= BLOB_HEADER_SIZE {
            Some(self.meta.size - BLOB_HEADER_SIZE)
        } else {
            None
        }
    }

    /// Sets the number of bytes of data, in the header and for the transport.
    pub fn set_size(&mut self, size: usize)
        requires
            old(self).wf(),
            size + BLOB_HEADER_SIZE <= usize::MAX,
        ensures
            final(self)@ == old(self)@.with_size(size as nat),
            final(self).wf(),
    {
        let new_size: usize = size + BLOB_HEADER_SIZE;
        self.meta.size = new_size;
        let bytes: Vec<u8> = to_le_bytes(new_size as u64, 8);
        proof {
            lemma_le_bytes(new_size as nat, 8);
        }
        self.write_bytes(SIZE_OFFSET, bytes.as_slice());
    }

    /// Returns the part of the buffer behind the header.
    pub fn data(&self) -> (data: &[u8])
        requires
            self.wf(),
        ensures
            data@ == self.data@.subrange(BLOB_HEADER_SIZE as int, BLOB_SIZE as int),
    {
        slice_subrange(self.data.as_slice(), BLOB_HEADER_SIZE, BLOB_SIZE)
    }
}

/// Returns the `size` bytes from `from` on of each blob, to be written to.
pub(crate) fn blob_slices(blobs: &mut [Blob], from: usize, size: usize) -> (slices: Vec<&mut [u8]>)
    requires
        from + size <= BLOB_SIZE,
        forall|j: int| 0 <= j < old(blobs)@.len() ==> #[trigger] old(blobs)@[j].wf(),
    ensures
        slices.len() == old(blobs)@.len(),
        final(blobs)@.len() == old(blobs)@.len(),
        forall|j: int|
            0 <= j < old(blobs)@.len() ==> #[trigger] slices@[j]@ == old(
                blobs,
            )@[j].data@.subrange(from as int, from + size),
        forall|j: int|
            0 <= j < old(blobs)@.len() && final(slices@[j])@.len() == size ==> {
                &&& #[trigger] final(blobs)@[j]@ == old(blobs)@[j]@.with_bytes(
                    from as int,
                    final(slices@[j])@,
                )
                &&& final(blobs)@[j].wf()
            },
    decreases old(blobs)@.len(),
{
    let n: usize = blobs.len();
    if n == 0 {
        return Vec::new();
    }
    let ghost before: Seq<Blob> = blobs@;
    assert(before[n - 1].wf());
    let (init, last): (&mut [Blob], &mut [Blob]) = blobs.split_at_mut(n - 1);
    proof {
        assert forall|j: int| 0 <= j < init@.len() implies #[trigger] init@[j].wf() by {
            assert(before[j].wf());
        }
        assert(last@[0] == before[n - 1]);
    }
    let mut slices: Vec<&mut [u8]> = blob_slices(init, from, size);
    let buffer: &mut [u8] = last[0].data.as_mut_slice();
    assert(buffer.len() == buffer@.len());
    let (head, rest): (&mut [u8], &mut [u8]) = buffer.split_at_mut(from);
    assert(rest.len() == rest@.len());
    let (middle, tail): (&mut [u8], &mut [u8]) = rest.split_at_mut(size);
    assert(middle@ =~= before[n - 1].data@.subrange(from as int, from + size));
    slices.push(middle);
    slices
}

} // verus!
