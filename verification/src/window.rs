//! Coding blobs for the blobs of a window.
//!
//! A window is a ring of slots: the blob with index `i` has its place in slot `i` modulo
//! the length of the window. For each block of `NUM_DATA` data blobs, the coding blobs are
//! placed in the slots of the last `NUM_CODING` data blobs:
//!
//! ```text
//!  |<======================= NUM_DATA ==============================>|
//!                                              |<==== NUM_CODING ===>|
//!  +---+ +---+ +---+ +---+ +---+         +---+ +---+ +---+ +---+ +---+
//!  | D | | D | | D | | D | | D |  . . .  | D | | D | | D | | D | | D |
//!  +---+ +---+ +---+ +---+ +---+         +---+ +---+ +---+ +---+ +---+
//!  |   | |   | |   | |   | |   |         |   | | C | | C | | C | | C |
//!  +---+ +---+ +---+ +---+ +---+         +---+ +---+ +---+ +---+ +---+
//! ```
//!
//! What is coded of a data blob are the first bytes of its buffer, header included. The
//! result is stored in the coding blob behind its header.
use vstd::prelude::*;

use vstd::arithmetic::div_mod::{lemma_mod_equivalence, lemma_small_mod};
use vstd::slice::slice_subrange;

use crate::blocks::{
    all_of_len, contents, encoded, equal_sized, generate_coding_blocks, is_coding_block,
    lemma_encoded, mut_contents, JERASURE_ALIGN,
};
use crate::error::ErasureError;
use crate::layout::{block_start, coding_start, NUM_CODING, NUM_DATA};
use crate::packet::{blob_slices, Blob, BlobView, BLOB_HEADER_SIZE, BLOB_SIZE};

verus! {

/// A slot of a window.
#[derive(Debug)]
pub struct WindowSlot {
    /// The data blob, if it is there.
    pub data: Option<Blob>,
    /// The coding blob, if it is there.
    pub coding: Option<Blob>,
    /// Whether the leader for the blob is unknown.
    pub leader_unknown: bool,
}

/// The contents of a slot.
#[verifier::ext_equal]
pub struct SlotView {
    /// The data blob.
    pub data: Option<BlobView>,
    /// The coding blob.
    pub coding: Option<BlobView>,
    /// Whether the leader for the blob is unknown.
    pub leader_unknown: bool,
}

/// The contents of a blob, if it is there.
pub open spec fn blob_view(blob: Option<Blob>) -> Option<BlobView> {
    match blob {
        Some(b) => Some(b@),
        None => None,
    }
}

impl View for WindowSlot {
    type V = SlotView;

    open spec fn view(&self) -> SlotView {
        SlotView {
            data: blob_view(self.data),
            coding: blob_view(self.coding),
            leader_unknown: self.leader_unknown,
        }
    }
}

impl WindowSlot {
    /// The blobs have their fixed size.
    pub open spec fn wf(self) -> bool {
        &&& self.data matches Some(b) ==> b.wf()
        &&& self.coding matches Some(b) ==> b.wf()
    }
}

/// All slots are well-formed.
pub open spec fn window_wf(window: Seq<WindowSlot>) -> bool {
    forall|p: int| 0 <= p < window.len() ==> #[trigger] window[p].wf()
}

/// The contents of a window.
pub open spec fn window_view(window: Seq<WindowSlot>) -> Seq<SlotView> {
    Seq::new(window.len(), |p: int| window[p]@)
}

/// The number of the slot for the blob with index `i` in a window of length `len`.
pub open spec fn place(i: int, len: int) -> int {
    i % len
}

/// The slot for the blob with index `i`.
pub open spec fn slot_at(window: Seq<SlotView>, i: int) -> SlotView {
    window[place(i, window.len() as int)]
}

/// Slot `p` is the slot of a blob with an index from `first` up to `end`.
pub open spec fn covers(first: int, end: int, len: int, p: int) -> bool {
    exists|i: int| first <= i < end && #[trigger] place(i, len) == p
}

/// All data blobs of the block that starts at `start` are there.
pub open spec fn has_data(window: Seq<SlotView>, start: int) -> bool {
    forall|i: int|
        start <= i < start + NUM_DATA ==> (#[trigger] slot_at(window, i)).data is Some
}

/// The largest size of the first `count` data blobs from `start` on.
pub open spec fn max_size(window: Seq<SlotView>, start: int, count: nat) -> nat
    decreases count,
{
    if count == 0 {
        0
    } else {
        let before: nat = max_size(window, start, (count - 1) as nat);
        let size: nat = slot_at(window, start + count - 1).data->0.size;
        if size > before {
            size
        } else {
            before
        }
    }
}

/// `n` rounded up to the alignment of coded blocks.
pub open spec fn aligned(n: nat) -> nat {
    (n + (JERASURE_ALIGN - 1)) as nat / JERASURE_ALIGN as nat * JERASURE_ALIGN as nat
}

/// The size of the coded blocks: the size of the largest data blob, rounded up.
pub open spec fn block_size(window: Seq<SlotView>, start: int) -> nat {
    aligned(max_size(window, start, NUM_DATA as nat))
}

/// The blob with the bytes behind those in use set to zero, up to `len`.
pub open spec fn zero_tail(blob: BlobView, len: nat) -> BlobView {
    BlobView {
        data: Seq::new(
            blob.data.len(),
            |b: int|
                if blob.size <= b < len {
                    0
                } else {
                    blob.data[b]
                },
        ),
        size: blob.size,
    }
}

/// Data blob `j` of the block, as it is coded.
pub open spec fn coded_blob(window: Seq<SlotView>, start: int, j: int) -> BlobView {
    zero_tail(slot_at(window, start + j).data->0, block_size(window, start))
}

/// The coded blocks of the data blobs.
pub open spec fn coded_data(window: Seq<SlotView>, start: int) -> Seq<Seq<u8>> {
    Seq::new(
        NUM_DATA as nat,
        |j: int| coded_blob(window, start, j).data.subrange(0, block_size(window, start) as int),
    )
}

/// The header of a coding blob for coded blocks of `size` bytes: index, slot and id are
/// those of the data blob.
pub open spec fn coding_header(source: BlobView, size: nat) -> BlobView {
    BlobView::blank().with_index(source.index()).with_slot(source.slot()).with_id(
        source.id(),
    ).with_size(size).with_coding_flag()
}

/// Coding blob `r` of the block.
pub open spec fn coding_blob(window: Seq<SlotView>, start: int, r: int) -> BlobView {
    let size: nat = block_size(window, start);
    coding_header(coded_blob(window, start, NUM_DATA - NUM_CODING + r), size).with_bytes(
        BLOB_HEADER_SIZE as int,
        encoded(coded_data(window, start), NUM_CODING as nat, r, size),
    )
}

/// The index of the first coding blob of the block.
pub open spec fn first_coding(start: int) -> int {
    start + NUM_DATA - NUM_CODING
}

/// The index of the coding blob of the block that belongs to slot `p`.
pub open spec fn coding_index(start: int, len: int, p: int) -> int {
    choose|i: int|
        first_coding(start) <= i < start + NUM_DATA && #[trigger] place(i, len) == p
}

/// The window after the coding blobs of the block at `start` are generated.
pub open spec fn code_block(window: Seq<SlotView>, start: int) -> Seq<SlotView> {
    let len: int = window.len() as int;
    Seq::new(
        window.len(),
        |p: int|
            SlotView {
                data: if covers(start, start + NUM_DATA, len, p) {
                    Some(zero_tail(window[p].data->0, block_size(window, start)))
                } else {
                    window[p].data
                },
                coding: if covers(first_coding(start), start + NUM_DATA, len, p) {
                    Some(
                        coding_blob(
                            window,
                            start,
                            coding_index(start, len, p) - first_coding(start),
                        ),
                    )
                } else {
                    window[p].coding
                },
                leader_unknown: window[p].leader_unknown,
            },
    )
}

/// The block at `start` can be coded: its blobs leave room for the header of a coding blob,
/// and there is an empty place for each coding blob.
pub open spec fn block_ready(window: Seq<SlotView>, start: int) -> bool {
    &&& max_size(window, start, NUM_DATA as nat) <= BLOB_SIZE - BLOB_HEADER_SIZE
    &&& forall|i: int|
        first_coding(start) <= i < start + NUM_DATA ==> (#[trigger] slot_at(
            window,
            i,
        )).coding is None
    &&& window.len() >= NUM_CODING
}

/// The block at `start` lies before `limit`, and its data are there.
pub open spec fn codes_block(window: Seq<SlotView>, start: int, limit: int) -> bool {
    start + NUM_DATA <= limit && has_data(window, start)
}

/// Each block from `start` on that is to be coded can be.
pub open spec fn codable(window: Seq<SlotView>, start: int, limit: int) -> bool
    decreases limit - start,
{
    codes_block(window, start, limit) ==> block_ready(window, start) && codable(
        code_block(window, start),
        start + NUM_DATA,
        limit,
    )
}

/// The window after the coding blobs of the blocks from `start` on are generated, up to
/// `limit` or to the first block whose data are not all there.
pub open spec fn generated(window: Seq<SlotView>, start: int, limit: int) -> Seq<SlotView>
    decreases limit - start,
{
    if codes_block(window, start, limit) {
        generated(code_block(window, start), start + NUM_DATA, limit)
    } else {
        window
    }
}

/// The number of the slot for the blob with index `receive_index`.
pub open spec fn start_place(receive_index: u64, len: nat) -> int {
    place(receive_index as int, len as int)
}

/// Indexes that lie closer together than the window is long have different slots.
pub(crate) proof fn lemma_places_differ(i: int, j: int, len: int)
    requires
        i < j < i + len,
    ensures
        place(i, len) != place(j, len),
{
    if i % len == j % len {
        lemma_mod_equivalence(j, i, len);
        lemma_small_mod((j - i) as nat, len as nat);
    }
}

/// `after` is what a slot may become when coding blobs are generated: its blobs stay, but
/// for bytes of the data blob that are not in use, and a coding blob may be added.
pub open spec fn kept(before: SlotView, after: SlotView) -> bool {
    &&& after.leader_unknown == before.leader_unknown
    &&& after.data is Some <==> before.data is Some
    &&& before.data is Some ==> {
        &&& after.data->0.size == before.data->0.size
        &&& after.data->0.data.len() == before.data->0.data.len()
        &&& forall|b: int|
            0 <= b < before.data->0.size && b < before.data->0.data.len()
                ==> #[trigger] after.data->0.data[b] == before.data->0.data[b]
    }
    &&& before.coding is Some ==> after.coding == before.coding
}

/// Coding one block keeps what is in the window, and leaves the slots of other blobs alone.
pub(crate) proof fn lemma_code_block_keeps(window: Seq<SlotView>, start: int)
    requires
        has_data(window, start),
        block_ready(window, start),
    ensures
        code_block(window, start).len() == window.len(),
        forall|p: int|
            0 <= p < window.len() ==> {
                &&& kept(window[p], #[trigger] code_block(window, start)[p])
                &&& !covers(start, start + NUM_DATA, window.len() as int, p) ==> code_block(
                    window,
                    start,
                )[p] == window[p]
            },
{
    let len: int = window.len() as int;
    let first: int = first_coding(start);
    assert forall|p: int| 0 <= p < window.len() implies {
        &&& kept(window[p], #[trigger] code_block(window, start)[p])
        &&& !covers(start, start + NUM_DATA, len, p) ==> code_block(window, start)[p] == window[p]
    } by {
        if covers(start, start + NUM_DATA, len, p) {
            let i: int = choose|i: int|
                start <= i < start + NUM_DATA && #[trigger] place(i, len) == p;
            assert(slot_at(window, i).data is Some);
        }
        if covers(first, start + NUM_DATA, len, p) {
            let i: int = choose|i: int|
                first <= i < start + NUM_DATA && #[trigger] place(i, len) == p;
            assert(slot_at(window, i).coding is None);
            assert(covers(start, start + NUM_DATA, len, p));
        }
    }
}

/// Generating coding blobs keeps what is in the window: no blob goes away, the bytes in use
/// and the sizes of data blobs stay, and so do the coding blobs that are there already. The
/// slots of blobs outside the given range do not change.
pub proof fn lemma_generated_keeps(window: Seq<SlotView>, start: int, limit: int)
    requires
        codable(window, start, limit),
    ensures
        generated(window, start, limit).len() == window.len(),
        forall|p: int|
            0 <= p < window.len() ==> {
                &&& kept(window[p], #[trigger] generated(window, start, limit)[p])
                &&& !covers(start, limit, window.len() as int, p) ==> generated(
                    window,
                    start,
                    limit,
                )[p] == window[p]
            },
    decreases limit - start,
{
    if codes_block(window, start, limit) {
        let len: int = window.len() as int;
        let next: Seq<SlotView> = code_block(window, start);
        lemma_code_block_keeps(window, start);
        lemma_generated_keeps(next, start + NUM_DATA, limit);
        assert forall|p: int| 0 <= p < window.len() implies {
            &&& kept(window[p], #[trigger] generated(window, start, limit)[p])
            &&& !covers(start, limit, len, p) ==> generated(window, start, limit)[p] == window[p]
        } by {
            assert(kept(window[p], next[p]));
            assert(kept(next[p], generated(next, start + NUM_DATA, limit)[p]));
            if covers(start, start + NUM_DATA, len, p) {
                let i: int = choose|i: int|
                    start <= i < start + NUM_DATA && #[trigger] place(i, len) == p;
                assert(place(i, len) == p);
                assert(covers(start, limit, len, p));
            }
            if covers(start + NUM_DATA, limit, len, p) {
                let i: int = choose|i: int|
                    start + NUM_DATA <= i < limit && #[trigger] place(i, len) == p;
                assert(place(i, len) == p);
                assert(covers(start, limit, len, p));
            }
        }
    }
}

/// What is in one window is in the other.
pub open spec fn all_kept(before: Seq<SlotView>, after: Seq<SlotView>) -> bool {
    &&& before.len() == after.len()
    &&& forall|p: int| 0 <= p < before.len() ==> kept(before[p], #[trigger] after[p])
}

/// Keeping what is in a window keeps the size of the largest data blob.
pub(crate) proof fn lemma_kept_max_size(a: Seq<SlotView>, b: Seq<SlotView>, start: int, count: nat)
    requires
        all_kept(a, b),
        a.len() > 0,
        forall|i: int|
            start <= i < start + count ==> (#[trigger] slot_at(a, i)).data is Some,
    ensures
        max_size(a, start, count) == max_size(b, start, count),
    decreases count,
{
    if count > 0 {
        lemma_kept_max_size(a, b, start, (count - 1) as nat);
        let i: int = start + count - 1;
        assert(slot_at(a, i).data is Some);
        assert(0 <= place(i, a.len() as int) < a.len());
    }
}

/// Sets the bytes behind those in use to zero, up to `len`.
fn clear_tail(blob: &mut Blob, len: usize)
    requires
        old(blob).wf(),
        len <= BLOB_SIZE,
    ensures
        final(blob).wf(),
        final(blob)@ == zero_tail(old(blob)@, len as nat),
{
    let mut b: usize = blob.meta.size;
    while b < len
        invariant
            blob.wf(),
            old(blob).wf(),
            len <= BLOB_SIZE,
            blob.meta == old(blob).meta,
            blob.meta.size <= b,
            b <= len || b == blob.meta.size,
            forall|c: int|
                0 <= c < BLOB_SIZE ==> #[trigger] blob.data@[c] == (if blob.meta.size <= c < b {
                    if c < len {
                        0
                    } else {
                        old(blob).data@[c]
                    }
                } else {
                    old(blob).data@[c]
                }),
        decreases len - b,
    {
        blob.data.set(b, 0);
        b = b + 1;
    }
    assert(blob@.data =~= zero_tail(old(blob)@, len as nat).data);
}

/// Returns the size of the largest data blob of the block, or `None` if not all the data
/// are there.
fn find_max_size(window: &[WindowSlot], start: usize) -> (found: Option<usize>)
    requires
        window@.len() > 0,
        start + NUM_DATA <= usize::MAX,
    ensures
        found is Some <==> has_data(window_view(window@), start as int),
        found matches Some(size) ==> size == max_size(
            window_view(window@),
            start as int,
            NUM_DATA as nat,
        ),
{
    let ghost w: Seq<SlotView> = window_view(window@);
    let mut largest: usize = 0;
    let mut j: usize = 0;
    while j < NUM_DATA
        invariant
            j <= NUM_DATA,
            window@.len() > 0,
            start + NUM_DATA <= usize::MAX,
            w == window_view(window@),
            forall|i: int| start <= i < start + j ==> (#[trigger] slot_at(w, i)).data is Some,
            largest == max_size(w, start as int, j as nat),
        decreases NUM_DATA - j,
    {
        let n: usize = (start + j) % window.len();
        assert(n == place(start + j, w.len() as int));
        assert(slot_at(w, start + j) == window@[n as int]@);
        match &window[n].data {
            Some(b) => {
                if b.meta.size > largest {
                    largest = b.meta.size;
                }
            },
            None => {
                return None;
            },
        }
        j = j + 1;
    }
    Some(largest)
}

/// The window after the bytes behind those in use are set to zero in the data blobs from
/// `start` up to `end`.
spec fn cleared(window: Seq<SlotView>, start: int, end: int, len: nat) -> Seq<SlotView> {
    Seq::new(
        window.len(),
        |p: int|
            SlotView {
                data: if covers(start, end, window.len() as int, p) {
                    Some(zero_tail(window[p].data->0, len))
                } else {
                    window[p].data
                },
                coding: window[p].coding,
                leader_unknown: window[p].leader_unknown,
            },
    )
}

/// Sets the bytes behind those in use to zero in the data blobs of a block.
fn clear_tails(window: &mut [WindowSlot], start: usize, len: usize)
    requires
        old(window)@.len() > 0,
        window_wf(old(window)@),
        start + NUM_DATA <= usize::MAX,
        has_data(window_view(old(window)@), start as int),
        len <= BLOB_SIZE,
    ensures
        final(window)@.len() == old(window)@.len(),
        window_wf(final(window)@),
        window_view(final(window)@) == cleared(
            window_view(old(window)@),
            start as int,
            start + NUM_DATA,
            len as nat,
        ),
{
    let ghost w: Seq<SlotView> = window_view(window@);
    let mut j: usize = 0;
    assert(window_view(window@) =~= cleared(w, start as int, start + j, len as nat));
    while j < NUM_DATA
        invariant
            j <= NUM_DATA,
            window@.len() > 0,
            window@.len() == w.len(),
            window_wf(window@),
            start + NUM_DATA <= usize::MAX,
            has_data(w, start as int),
            len <= BLOB_SIZE,
            window_view(window@) == cleared(w, start as int, start + j, len as nat),
        decreases NUM_DATA - j,
    {
        let n: usize = (start + j) % window.len();
        let ghost before: Seq<WindowSlot> = window@;
        proof {
            assert(n == place(start + j, w.len() as int));
            assert(slot_at(w, start + j).data is Some);
            assert(window_view(before)[n as int] == before[n as int]@);
            assert(before[n as int].wf());
        }
        match &mut window[n].data {
            Some(b) => {
                clear_tail(b, len);
            },
            None => {},
        }
        proof {
            let after: Seq<SlotView> = cleared(w, start as int, start + j + 1, len as nat);
            assert forall|p: int| 0 <= p < w.len() implies (#[trigger] window@[p]).wf()
                && window@[p]@ == after[p] by {
                assert(before[p].wf());
                assert(window_view(before)[p] == before[p]@);
                let len1: int = w.len() as int;
                if p == n {
                    assert(covers(start as int, start + j + 1, len1, p)) by {
                        assert(place(start + j, len1) == p);
                    }
                    if covers(start as int, start + j, len1, p) {
                        let b: BlobView = w[p].data->0;
                        assert(zero_tail(zero_tail(b, len as nat), len as nat) =~= zero_tail(
                            b,
                            len as nat,
                        ));
                    }
                } else {
                    if covers(start as int, start + j + 1, len1, p) {
                        let i: int = choose|i: int|
                            start <= i < start + j + 1 && #[trigger] place(i, len1) == p;
                        assert(place(i, len1) == p);
                        assert(covers(start as int, start + j, len1, p));
                    }
                    if covers(start as int, start + j, len1, p) {
                        let i: int = choose|i: int|
                            start <= i < start + j && #[trigger] place(i, len1) == p;
                        assert(place(i, len1) == p);
                        assert(covers(start as int, start + j + 1, len1, p));
                    }
                }
            }
            assert(window_view(window@) =~= after);
        }
        j = j + 1;
    }
}

/// Returns a coding blob without its coded block.
fn new_coding_blob(source: &Blob, size: usize) -> (blob: Blob)
    requires
        source.wf(),
        size <= BLOB_SIZE,
    ensures
        blob.wf(),
        blob@ == coding_header(source@, size as nat),
{
    let mut blob: Blob = Blob::default();
    blob.set_index(source.index());
    blob.set_slot(source.slot());
    blob.set_id(&source.id());
    blob.set_size(size);
    blob.set_coding();
    blob
}

/// The first `size` bytes of the data blobs of a block.
spec fn prefixes(window: Seq<SlotView>, start: int, size: int) -> Seq<Seq<u8>> {
    Seq::new(
        NUM_DATA as nat,
        |j: int| slot_at(window, start + j).data->0.data.subrange(0, size),
    )
}

/// Returns the first `size` bytes of the data blobs of a block.
fn data_slices(window: &[WindowSlot], start: usize, size: usize) -> (slices: Vec<&[u8]>)
    requires
        window@.len() > 0,
        window_wf(window@),
        start + NUM_DATA <= usize::MAX,
        has_data(window_view(window@), start as int),
        size <= BLOB_SIZE,
    ensures
        contents(slices@) == prefixes(window_view(window@), start as int, size as int),
        all_of_len(contents(slices@), size as nat),
{
    let ghost w: Seq<SlotView> = window_view(window@);
    let mut slices: Vec<&[u8]> = Vec::new();
    let mut j: usize = 0;
    while j < NUM_DATA
        invariant
            j <= NUM_DATA,
            window@.len() > 0,
            window_wf(window@),
            start + NUM_DATA <= usize::MAX,
            w == window_view(window@),
            has_data(w, start as int),
            size <= BLOB_SIZE,
            slices.len() == j,
            forall|l: int|
                0 <= l < j ==> {
                    &&& #[trigger] slices@[l]@ == prefixes(w, start as int, size as int)[l]
                    &&& slices@[l]@.len() == size
                },
        decreases NUM_DATA - j,
    {
        let n: usize = (start + j) % window.len();
        proof {
            assert(n == place(start + j, w.len() as int));
            assert(slot_at(w, start + j) == window@[n as int]@);
            assert(slot_at(w, start + j).data is Some);
            assert(window@[n as int].wf());
        }
        match &window[n].data {
            Some(b) => {
                slices.push(slice_subrange(b.data.as_slice(), 0, size));
            },
            None => {},
        }
        j = j + 1;
    }
    assert(contents(slices@) =~= prefixes(w, start as int, size as int));
    slices
}

/// Returns coding blobs without their coded blocks.
fn new_coding_blobs(window: &[WindowSlot], start: usize, size: usize) -> (blobs: Vec<Blob>)
    requires
        window@.len() > 0,
        window_wf(window@),
        start + NUM_DATA <= usize::MAX,
        has_data(window_view(window@), start as int),
        size <= BLOB_SIZE - BLOB_HEADER_SIZE,
    ensures
        blobs.len() == NUM_CODING,
        forall|r: int|
            0 <= r < NUM_CODING ==> {
                &&& #[trigger] blobs@[r].wf()
                &&& blobs@[r]@ == coding_header(
                    slot_at(window_view(window@), first_coding(start as int) + r).data->0,
                    size as nat,
                )
            },
{
    let ghost w: Seq<SlotView> = window_view(window@);
    let mut blobs: Vec<Blob> = Vec::new();
    let mut r: usize = 0;
    while r < NUM_CODING
        invariant
            r <= NUM_CODING,
            window@.len() > 0,
            window_wf(window@),
            start + NUM_DATA <= usize::MAX,
            w == window_view(window@),
            has_data(w, start as int),
            size <= BLOB_SIZE - BLOB_HEADER_SIZE,
            blobs.len() == r,
            forall|l: int|
                0 <= l < r ==> {
                    &&& #[trigger] blobs@[l].wf()
                    &&& blobs@[l]@ == coding_header(
                        slot_at(w, first_coding(start as int) + l).data->0,
                        size as nat,
                    )
                },
        decreases NUM_CODING - r,
    {
        let n: usize = (start + (NUM_DATA - NUM_CODING) + r) % window.len();
        proof {
            assert(n == place(first_coding(start as int) + r, w.len() as int));
            assert(slot_at(w, first_coding(start as int) + r) == window@[n as int]@);
            assert(slot_at(w, first_coding(start as int) + r).data is Some);
            assert(window@[n as int].wf());
        }
        match &window[n].data {
            Some(b) => {
                blobs.push(new_coding_blob(b, size));
            },
            None => {},
        }
        r = r + 1;
    }
    blobs
}

/// Returns the coding blobs of a block whose data blobs are ready to be coded.
fn encode_blobs(window: &[WindowSlot], start: usize, size: usize) -> (result: Result<
    Vec<Blob>,
    ErasureError,
>)
    requires
        window@.len() > 0,
        window_wf(window@),
        start + NUM_DATA <= usize::MAX,
        has_data(window_view(window@), start as int),
        size <= BLOB_SIZE - BLOB_HEADER_SIZE,
        size % JERASURE_ALIGN == 0,
    ensures
        result is Ok,
        result->Ok_0.len() == NUM_CODING,
        forall|r: int|
            0 <= r < NUM_CODING ==> {
                &&& #[trigger] result->Ok_0@[r].wf()
                &&& result->Ok_0@[r]@ == coding_header(
                    slot_at(window_view(window@), first_coding(start as int) + r).data->0,
                    size as nat,
                ).with_bytes(
                    BLOB_HEADER_SIZE as int,
                    encoded(
                        prefixes(window_view(window@), start as int, size as int),
                        NUM_CODING as nat,
                        r,
                        size as nat,
                    ),
                )
            },
{
    let mut blobs: Vec<Blob> = new_coding_blobs(window, start, size);
    let ghost before: Seq<Blob> = blobs@;
    let data: Vec<&[u8]> = data_slices(window, start, size);
    let ghost d: Seq<Seq<u8>> = contents(data@);
    let mut slices: Vec<&mut [u8]> = blob_slices(blobs.as_mut_slice(), BLOB_HEADER_SIZE, size);
    proof {
        let c: Seq<Seq<u8>> = mut_contents(slices@);
        assert(d.len() == data@.len());
        assert(d[0].len() == size);
        assert forall|r: int| 0 <= r < c.len() implies (#[trigger] c[r]).len() == size by {
            assert(before[r].wf());
        }
        assert(equal_sized(d, c));
        assert(data@[0]@ == d[0]);
    }
    let coded: Result<(), ErasureError> = generate_coding_blocks(
        slices.as_mut_slice(),
        data.as_slice(),
    );
    let ghost c: Seq<Seq<u8>> = mut_contents(slices@);
    proof {
        assert forall|r: int| 0 <= r < NUM_CODING implies {
            &&& #[trigger] blobs@[r].wf()
            &&& before[r].wf()
            &&& blobs@[r]@ == before[r]@.with_bytes(
                BLOB_HEADER_SIZE as int,
                encoded(d, NUM_CODING as nat, r, size as nat),
            )
        } by {
            assert(c[r].len() == size);
            assert(is_coding_block(c[r], d, NUM_CODING as nat, r));
            lemma_encoded(c[r], d, NUM_CODING as nat, r);
            assert(blobs@[r]@ == before[r]@.with_bytes(BLOB_HEADER_SIZE as int, c[r]));
            assert(before[r].wf());
        }
    }
    match coded {
        Ok(_) => Ok(blobs),
        Err(error) => Err(error),
    }
}

/// Puts the coding blobs of a block into their places.
fn place_coding(window: &mut [WindowSlot], start: usize, coding: Vec<Blob>)
    requires
        old(window)@.len() >= NUM_CODING,
        window_wf(old(window)@),
        start + NUM_DATA <= usize::MAX,
        coding.len() == NUM_CODING,
        forall|r: int| 0 <= r < NUM_CODING ==> #[trigger] coding@[r].wf(),
    ensures
        final(window)@.len() == old(window)@.len(),
        window_wf(final(window)@),
        forall|p: int|
            0 <= p < old(window)@.len() ==> {
                &&& (#[trigger] final(window)@[p])@.data == old(window)@[p]@.data
                &&& final(window)@[p]@.leader_unknown == old(window)@[p]@.leader_unknown
                &&& !covers(
                    first_coding(start as int),
                    start + NUM_DATA,
                    old(window)@.len() as int,
                    p,
                ) ==> final(window)@[p]@.coding == old(window)@[p]@.coding
            },
        forall|i: int|
            first_coding(start as int) <= i < start + NUM_DATA ==> (#[trigger] slot_at(
                window_view(final(window)@),
                i,
            )).coding == Some(coding@[i - first_coding(start as int)]@),
{
    let ghost first: int = first_coding(start as int);
    let ghost all: Seq<Blob> = coding@;
    let ghost len: int = window@.len() as int;
    let mut coding: Vec<Blob> = coding;
    let mut r: usize = NUM_CODING;
    while r > 0
        invariant
            r <= NUM_CODING,
            start + NUM_DATA <= usize::MAX,
            first == first_coding(start as int),
            len == window@.len(),
            len >= NUM_CODING,
            len == old(window)@.len(),
            window_wf(window@),
            all.len() == NUM_CODING,
            coding@ == all.take(r as int),
            forall|l: int| 0 <= l < NUM_CODING ==> #[trigger] all[l].wf(),
            forall|p: int|
                0 <= p < len ==> {
                    &&& (#[trigger] window@[p])@.data == old(window)@[p]@.data
                    &&& window@[p]@.leader_unknown == old(window)@[p]@.leader_unknown
                    &&& !covers(first, start + NUM_DATA, len, p) ==> window@[p]@.coding == old(
                        window,
                    )@[p]@.coding
                },
            forall|i: int|
                first + r <= i < start + NUM_DATA ==> (#[trigger] slot_at(
                    window_view(window@),
                    i,
                )).coding == Some(all[i - first]@),
        decreases r,
    {
        r = r - 1;
        let n: usize = (start + (NUM_DATA - NUM_CODING) + r) % window.len();
        let ghost before: Seq<WindowSlot> = window@;
        proof {
            assert(n == place(first + r, len));
            assert(before[n as int].wf());
            assert(all[r as int].wf());
        }
        let blob: Option<Blob> = coding.pop();
        window[n].coding = blob;
        proof {
            assert(coding@ =~= all.take(r as int));
            assert(covers(first, start + NUM_DATA, len, n as int));
            assert forall|p: int| 0 <= p < len implies #[trigger] window@[p].wf() by {
                assert(before[p].wf());
            }
            assert forall|i: int| first + r <= i < start + NUM_DATA implies (#[trigger] slot_at(
                window_view(window@),
                i,
            )).coding == Some(all[i - first]@) by {
                let p: int = place(i, len);
                assert(0 <= p < len);
                assert(slot_at(window_view(window@), i) == window@[p]@);
                if i > first + r {
                    lemma_places_differ(first + r, i, len);
                    assert(slot_at(window_view(before), i).coding == Some(all[i - first]@));
                    assert(slot_at(window_view(before), i) == before[p]@);
                }
            }
        }
    }
}

/// Clearing the data blobs of a block keeps what is there, and makes the data blobs ready to
/// be coded.
proof fn lemma_cleared(window: Seq<SlotView>, start: int, len: nat)
    requires
        window.len() > 0,
        has_data(window, start),
    ensures
        has_data(cleared(window, start, start + NUM_DATA, len), start),
        forall|i: int|
            start <= i < start + NUM_DATA ==> (#[trigger] slot_at(
                cleared(window, start, start + NUM_DATA, len),
                i,
            )).data->0 == zero_tail(slot_at(window, i).data->0, len),
{
    let after: Seq<SlotView> = cleared(window, start, start + NUM_DATA, len);
    let n: int = window.len() as int;
    assert forall|i: int| start <= i < start + NUM_DATA implies {
        &&& (#[trigger] slot_at(after, i)).data is Some
        &&& slot_at(after, i).data->0 == zero_tail(slot_at(window, i).data->0, len)
    } by {
        let p: int = place(i, n);
        assert(0 <= p < n);
        assert(covers(start, start + NUM_DATA, n, p));
    }
}

/// Generates the coding blobs of the block at `start`. Returns `false`, with nothing
/// changed, if not all the data are there.
fn generate_block(window: &mut [WindowSlot], start: usize) -> (result: Result<bool, ErasureError>)
    requires
        old(window)@.len() > 0,
        window_wf(old(window)@),
        start + NUM_DATA <= usize::MAX,
        has_data(window_view(old(window)@), start as int) ==> block_ready(
            window_view(old(window)@),
            start as int,
        ),
    ensures
        result is Ok,
        result->Ok_0 == has_data(window_view(old(window)@), start as int),
        final(window)@.len() == old(window)@.len(),
        window_wf(final(window)@),
        window_view(final(window)@) == (if result->Ok_0 {
            code_block(window_view(old(window)@), start as int)
        } else {
            window_view(old(window)@)
        }),
{
    let ghost w: Seq<SlotView> = window_view(window@);
    let ghost len: int = window@.len() as int;
    let largest: usize = match find_max_size(window, start) {
        Some(largest) => largest,
        None => {
            return Ok(false);
        },
    };
    // round up to the alignment of coded blocks
    let size: usize = (largest + (JERASURE_ALIGN - 1)) / JERASURE_ALIGN * JERASURE_ALIGN;
    assert(size == block_size(w, start as int));
    clear_tails(window, start, size);
    let ghost ready: Seq<SlotView> = window_view(window@);
    proof {
        lemma_cleared(w, start as int, size as nat);
    }
    let coding: Vec<Blob> = match encode_blobs(window, start, size) {
        Ok(coding) => coding,
        Err(error) => {
            return Err(error);
        },
    };
    let ghost blobs: Seq<Blob> = coding@;
    proof {
        assert forall|j: int| 0 <= j < NUM_DATA implies #[trigger] prefixes(
            ready,
            start as int,
            size as int,
        )[j] == coded_data(w, start as int)[j] by {
            assert(slot_at(ready, start + j).data->0 == coded_blob(w, start as int, j));
        }
        assert(prefixes(ready, start as int, size as int) =~= coded_data(w, start as int));
        assert forall|r: int| 0 <= r < NUM_CODING implies (#[trigger] blobs[r])@ == coding_blob(
            w,
            start as int,
            r,
        ) by {
            assert(blobs[r].wf());
            assert(slot_at(ready, first_coding(start as int) + r).data->0 == coded_blob(
                w,
                start as int,
                NUM_DATA - NUM_CODING + r,
            ));
        }
    }
    let ghost cleared_window: Seq<WindowSlot> = window@;
    place_coding(window, start, coding);
    proof {
        let after: Seq<SlotView> = code_block(w, start as int);
        let first: int = first_coding(start as int);
        assert forall|p: int| 0 <= p < len implies (#[trigger] window@[p])@ == after[p] by {
            assert(window_view(cleared_window)[p] == cleared_window[p]@);
            if covers(first, start + NUM_DATA, len, p) {
                let i: int = coding_index(start as int, len, p);
                assert(first <= i < start + NUM_DATA && place(i, len) == p);
                assert(slot_at(window_view(window@), i) == window@[p]@);
                assert(blobs[i - first]@ == coding_blob(w, start as int, i - first));
            }
        }
        assert(window_view(window@) =~= after);
    }
    Ok(true)
}

/// Returns whether coding blobs can be generated: each block that is to be coded leaves room
/// for the header of a coding blob, and the places of its coding blobs are empty.
pub fn can_generate_coding(window: &[WindowSlot], receive_index: u64, num_blobs: usize) -> (can:
    bool)
    requires
        window@.len() > 0,
        start_place(receive_index, window@.len()) + num_blobs <= usize::MAX,
    ensures
        can == codable(
            window_view(window@),
            block_start(start_place(receive_index, window@.len())),
            start_place(receive_index, window@.len()) + num_blobs,
        ),
{
    let ghost w: Seq<SlotView> = window_view(window@);
    let ghost len: int = window@.len() as int;
    let ghost mut now: Seq<SlotView> = w;
    let start_idx: usize = (receive_index % window.len() as u64) as usize;
    let limit: usize = start_idx + num_blobs;
    let mut start: usize = start_idx - start_idx % NUM_DATA;
    let ghost first: int = start as int;
    // the places that the coding blobs of earlier blocks take
    let mut taken: Vec<bool> = vec![false; window.len()];
    while limit >= start && limit - start >= NUM_DATA
        invariant
            w == window_view(window@),
            len == window@.len(),
            len > 0,
            taken.len() == len,
            all_kept(w, now),
            forall|p: int|
                0 <= p < len ==> ((#[trigger] now[p]).coding is Some <==> w[p].coding is Some
                    || taken@[p]),
            first == block_start(start_place(receive_index, len as nat)),
            limit == start_place(receive_index, len as nat) + num_blobs,
            codable(w, first, limit as int) == codable(now, start as int, limit as int),
        decreases limit - start,
    {
        proof {
            assert forall|i: int| start <= i < start + NUM_DATA implies ((#[trigger] slot_at(
                w,
                i,
            )).data is Some <==> slot_at(now, i).data is Some) by {
                assert(0 <= place(i, len) < len);
                assert(kept(w[place(i, len)], now[place(i, len)]));
            }
            if has_data(now, start as int) {
                assert forall|i: int| start <= i < start + NUM_DATA implies (#[trigger] slot_at(
                    w,
                    i,
                )).data is Some by {
                    assert(slot_at(now, i).data is Some);
                }
                assert(has_data(w, start as int));
            }
            if has_data(w, start as int) {
                assert forall|i: int| start <= i < start + NUM_DATA implies (#[trigger] slot_at(
                    now,
                    i,
                )).data is Some by {
                    assert(slot_at(w, i).data is Some);
                }
                assert(has_data(now, start as int));
                lemma_kept_max_size(w, now, start as int, NUM_DATA as nat);
            }
        }
        let largest: usize = match find_max_size(window, start) {
            Some(largest) => largest,
            None => {
                return true;
            },
        };
        if largest > BLOB_SIZE - BLOB_HEADER_SIZE || window.len() < NUM_CODING {
            return false;
        }
        let ghost old_taken: Seq<bool> = taken@;
        let mut r: usize = 0;
        while r < NUM_CODING
            invariant
                r <= NUM_CODING,
                start + NUM_DATA <= limit,
                w == window_view(window@),
                len == window@.len(),
                len >= NUM_CODING,
                taken.len() == len,
                old_taken.len() == len,
                now.len() == len,
                forall|p: int|
                    0 <= p < len ==> ((#[trigger] now[p]).coding is Some <==> w[p].coding is Some
                        || old_taken[p]),
                forall|p: int|
                    0 <= p < len ==> (#[trigger] taken@[p] <==> old_taken[p] || covers(
                        first_coding(start as int),
                        first_coding(start as int) + r,
                        len,
                        p,
                    )),
                forall|i: int|
                    first_coding(start as int) <= i < first_coding(start as int) + r ==> (
                    #[trigger] slot_at(now, i)).coding is None,
                codable(w, first, limit as int) == codable(now, start as int, limit as int),
                codes_block(now, start as int, limit as int),
                first == block_start(start_place(receive_index, len as nat)),
                limit == start_place(receive_index, len as nat) + num_blobs,
            decreases NUM_CODING - r,
        {
            let n: usize = (start + (NUM_DATA - NUM_CODING) + r) % window.len();
            let ghost c: int = first_coding(start as int) + r;
            proof {
                assert(n == place(c, len));
                assert(slot_at(now, c) == now[n as int]);
                assert(w[n as int] == window@[n as int]@);
                if covers(first_coding(start as int), c, len, n as int) {
                    let i: int = choose|i: int|
                        first_coding(start as int) <= i < c && #[trigger] place(i, len) == n;
                    lemma_places_differ(i, c, len);
                }
            }
            if window[n].coding.is_some() || taken[n] {
                return false;
            }
            let ghost before: Seq<bool> = taken@;
            taken.set(n, true);
            proof {
                assert forall|p: int| 0 <= p < len implies (#[trigger] taken@[p] <==> old_taken[p]
                    || covers(first_coding(start as int), c + 1, len, p)) by {
                    if covers(first_coding(start as int), c, len, p) {
                        let i: int = choose|i: int|
                            first_coding(start as int) <= i < c && #[trigger] place(i, len) == p;
                        assert(place(i, len) == p);
                        assert(covers(first_coding(start as int), c + 1, len, p));
                    }
                    if covers(first_coding(start as int), c + 1, len, p) {
                        let i: int = choose|i: int|
                            first_coding(start as int) <= i < c + 1 && #[trigger] place(i, len)
                                == p;
                        assert(place(i, len) == p);
                        assert(p == n || covers(first_coding(start as int), c, len, p));
                    }
                    assert(before[p] <==> old_taken[p] || covers(
                        first_coding(start as int),
                        c,
                        len,
                        p,
                    ));
                }
            }
            r = r + 1;
        }
        proof {
            assert(block_ready(now, start as int));
            lemma_code_block_keeps(now, start as int);
            let next: Seq<SlotView> = code_block(now, start as int);
            assert forall|p: int| 0 <= p < len implies kept(w[p], #[trigger] next[p]) by {
                assert(kept(w[p], now[p]));
                assert(kept(now[p], next[p]));
            }
            now = next;
        }
        start = start + NUM_DATA;
    }
    true
}

/// Generates coding blobs for the blocks of the window, from the one that `receive_index`
/// points into up to `num_blobs` blobs behind `receive_index`. Stops at the first block
/// whose data are not all there. `transmit_index_coding` goes back to the index of the first
/// coding blob of the block that `receive_index` points into, if anything is generated and
/// it is larger.
pub fn generate_coding(
    window: &mut [WindowSlot],
    receive_index: u64,
    num_blobs: usize,
    transmit_index_coding: &mut u64,
) -> (result: Result<(), ErasureError>)
    requires
        old(window)@.len() > 0,
        window_wf(old(window)@),
        start_place(receive_index, old(window)@.len()) + num_blobs <= usize::MAX,
        codable(
            window_view(old(window)@),
            block_start(start_place(receive_index, old(window)@.len())),
            start_place(receive_index, old(window)@.len()) + num_blobs,
        ),
    ensures
        result is Ok,
        final(window)@.len() == old(window)@.len(),
        window_wf(final(window)@),
        window_view(final(window)@) == generated(
            window_view(old(window)@),
            block_start(start_place(receive_index, old(window)@.len())),
            start_place(receive_index, old(window)@.len()) + num_blobs,
        ),
        *final(transmit_index_coding) == (if codes_block(
            window_view(old(window)@),
            block_start(start_place(receive_index, old(window)@.len())),
            start_place(receive_index, old(window)@.len()) + num_blobs,
        ) && coding_start(receive_index as int) < *old(transmit_index_coding) {
            coding_start(receive_index as int)
        } else {
            *old(transmit_index_coding) as int
        }),
        *final(transmit_index_coding) <= *old(transmit_index_coding),
        *final(transmit_index_coding) != *old(transmit_index_coding) ==> {
            &&& *final(transmit_index_coding) as int / NUM_DATA as int == receive_index as int
                / NUM_DATA as int
            &&& *final(transmit_index_coding) as int % NUM_DATA as int == NUM_DATA - NUM_CODING
        },
{
    let ghost w: Seq<SlotView> = window_view(window@);
    let ghost len: int = window@.len() as int;
    let coding_index_start: u64 = receive_index - receive_index % NUM_DATA as u64 + (NUM_DATA
        - NUM_CODING) as u64;
    let start_idx: usize = (receive_index % window.len() as u64) as usize;
    let limit: usize = start_idx + num_blobs;
    let mut start: usize = start_idx - start_idx % NUM_DATA;
    let ghost first: int = start as int;
    while limit >= start && limit - start >= NUM_DATA
        invariant
            len == window@.len(),
            len > 0,
            len == old(window)@.len(),
            window_wf(window@),
            w == window_view(old(window)@),
            first == block_start(start_place(receive_index, len as nat)),
            limit == start_place(receive_index, len as nat) + num_blobs,
            first <= start,
            start > first ==> codes_block(w, first, limit as int),
            start == first ==> window_view(window@) == w,
            coding_index_start == coding_start(receive_index as int),
            generated(window_view(window@), start as int, limit as int) == generated(
                w,
                first,
                limit as int,
            ),
            codable(window_view(window@), start as int, limit as int),
            *transmit_index_coding == (if start > first && coding_index_start < *old(
                transmit_index_coding,
            ) {
                coding_index_start
            } else {
                *old(transmit_index_coding)
            }),
        decreases limit - start,
    {
        let coded: bool = match generate_block(window, start) {
            Ok(coded) => coded,
            Err(error) => {
                return Err(error);
            },
        };
        if !coded {
            return Ok(());
        }
        // coding blobs were inserted, which may be behind what was transmitted
        if coding_index_start < *transmit_index_coding {
            *transmit_index_coding = coding_index_start;
        }
        start = start + NUM_DATA;
    }
    Ok(())
}

} // verus!
