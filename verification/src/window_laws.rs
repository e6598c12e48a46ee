//! What generating coding blobs does to a window, slot by slot and byte by byte.
use vstd::prelude::*;

use vstd::arithmetic::div_mod::{lemma_fundamental_div_mod, lemma_mod_multiples_basic};
use vstd::arithmetic::mul::lemma_mul_is_commutative;

use crate::blocks::{is_coding_block, JERASURE_ALIGN};
use crate::laws::{
    lemma_code_block, lemma_coding_blob, lemma_generated_block, lemma_generated_code,
    lemma_headers_coded,
};
use crate::layout::{NUM_CODING, NUM_DATA};
use crate::packet::{
    lemma_header_bytes, lemma_with_coding_flag, lemma_with_flags, lemma_with_id, lemma_with_index,
    lemma_with_size, lemma_with_slot, BlobView, BLOB_FLAG_IS_CODING, BLOB_HEADER_SIZE, BLOB_SIZE,
};
use crate::window::{
    block_ready, block_size, codable, code_block, coded_blob, coded_data, codes_block, coding_blob,
    coding_header, covers, first_coding, generated, has_data, kept, lemma_code_block_keeps,
    lemma_generated_keeps, lemma_kept_max_size, lemma_places_differ, max_size, place, slot_at, start_place, window_view,
    window_wf, SlotView, WindowSlot,
};

verus! {

/// The number of the slot that the blob with index `i` has in a ring of `len` slots.
pub open spec fn spot(i: int, len: int) -> int {
    i % len
}

/// The slot of the blob with index `i`.
pub open spec fn ring(window: Seq<SlotView>, i: int) -> SlotView {
    window[spot(i, window.len() as int)]
}

/// The data blobs from index `start` up to `end` are there.
pub open spec fn present(window: Seq<SlotView>, start: int, end: int) -> bool {
    forall|i: int| start <= i < end ==> (#[trigger] ring(window, i)).data is Some
}

/// `block` is where a block of the range from `start` up to `limit` starts.
pub open spec fn block_of_range(start: int, block: int, limit: int) -> bool {
    start <= block && block + NUM_DATA <= limit && (block - start) % NUM_DATA as int == 0
}

/// `h` is the index of a coding blob, where blocks start at `start`.
pub open spec fn is_coding_index(start: int, h: int) -> bool {
    (h - start) % NUM_DATA as int >= NUM_DATA - NUM_CODING
}

/// `size` is the least aligned size that none of the data blobs of the block exceeds.
pub open spec fn fits_tightly(window: Seq<SlotView>, block: int, size: nat) -> bool {
    &&& size % JERASURE_ALIGN as nat == 0
    &&& forall|i: int|
        block <= i < block + NUM_DATA ==> (#[trigger] ring(window, i)).data->0.size <= size
    &&& size == 0 || exists|i: int|
        block <= i < block + NUM_DATA && (#[trigger] ring(window, i)).data->0.size + JERASURE_ALIGN
            > size
}

/// The coding blobs of the block find their places free, those of earlier blocks included, and
/// can hold the data blobs.
pub open spec fn has_room(window: Seq<SlotView>, start: int, block: int) -> bool {
    let len: int = window.len() as int;
    &&& len >= NUM_CODING
    &&& forall|i: int|
        block <= i < block + NUM_DATA ==> (#[trigger] ring(window, i)).data->0.size <= BLOB_SIZE
            - BLOB_HEADER_SIZE
    &&& forall|i: int|
        block + NUM_DATA - NUM_CODING <= i < block + NUM_DATA ==> (#[trigger] ring(
            window,
            i,
        )).coding is None
    &&& forall|i: int, h: int|
        block + NUM_DATA - NUM_CODING <= i < block + NUM_DATA && start <= h < block
            && is_coding_index(start, h) ==> #[trigger] spot(i, len) != #[trigger] spot(h, len)
}

/// A ring of slots: each index has its slot, and indexes that differ by the length share it.
pub proof fn lemma_spot(i: int, len: int)
    requires
        len > 0,
    ensures
        0 <= place(i, len) < len,
        place(i, len) == spot(i, len),
        (i - place(i, len)) % len == 0,
        forall|window: Seq<SlotView>|
            window.len() == len ==> #[trigger] slot_at(window, i) == ring(window, i),
{
    let p: int = place(i, len);
    lemma_fundamental_div_mod(i, len);
    assert(i - p == len * (i / len));
    lemma_mod_multiples_basic(i / len, len);
    lemma_mul_is_commutative(len, i / len);
}

/// The block that is coded first is the one of the slot that the index given has in the ring.
pub proof fn lemma_start_place(receive_index: u64, len: nat)
    requires
        len > 0,
    ensures
        0 <= start_place(receive_index, len) < len,
        (receive_index - start_place(receive_index, len)) % len as int == 0,
{
    lemma_spot(receive_index as int, len as int);
}

/// The view of a window shows every slot, and its blobs whole.
pub proof fn lemma_window_view(window: Seq<WindowSlot>)
    ensures
        window_view(window).len() == window.len(),
        forall|p: int|
            0 <= p < window.len() ==> {
                let view: SlotView = #[trigger] window_view(window)[p];
                &&& view.leader_unknown == window[p].leader_unknown
                &&& view.data is Some <==> window[p].data is Some
                &&& window[p].data is Some ==> view.data->0 == window[p].data->0@
                &&& view.coding is Some <==> window[p].coding is Some
                &&& window[p].coding is Some ==> view.coding->0 == window[p].coding->0@
            },
        window_wf(window) <==> forall|p: int|
            0 <= p < window.len() ==> {
                &&& (#[trigger] window[p]).data is Some ==> window[p].data->0.wf()
                &&& window[p].coding is Some ==> window[p].coding->0.wf()
            },
{
    if window_wf(window) {
        assert forall|p: int| 0 <= p < window.len() implies {
            &&& (#[trigger] window[p]).data is Some ==> window[p].data->0.wf()
            &&& window[p].coding is Some ==> window[p].coding->0.wf()
        } by {
            assert(window[p].wf());
        }
    }
}

proof fn lemma_max_size_reached(window: Seq<SlotView>, start: int, count: nat)
    requires
        window.len() > 0,
    ensures
        forall|i: int|
            start <= i < start + count ==> (#[trigger] ring(window, i)).data->0.size <= max_size(
                window,
                start,
                count,
            ),
        max_size(window, start, count) == 0 || exists|i: int|
            start <= i < start + count && (#[trigger] ring(window, i)).data->0.size == max_size(
                window,
                start,
                count,
            ),
    decreases count,
{
    if count > 0 {
        lemma_max_size_reached(window, start, (count - 1) as nat);
        lemma_spot(start + count - 1, window.len() as int);
        assert(slot_at(window, start + count - 1) == ring(window, start + count - 1));
    }
}

/// The size of the coded blocks is the least multiple of the alignment that none of the data
/// blobs of the block exceeds.
pub proof fn lemma_block_size_least(window: Seq<SlotView>, block: int, size: nat)
    requires
        window.len() > 0,
    ensures
        block_size(window, block) % JERASURE_ALIGN as nat == 0,
        forall|i: int|
            block <= i < block + NUM_DATA ==> (#[trigger] ring(window, i)).data->0.size
                <= block_size(window, block),
        block_size(window, block) == 0 || exists|i: int|
            block <= i < block + NUM_DATA && (#[trigger] ring(window, i)).data->0.size
                + JERASURE_ALIGN > block_size(window, block),
        fits_tightly(window, block, size) <==> size == block_size(window, block),
{
    lemma_max_size_reached(window, block, NUM_DATA as nat);
    let z: nat = block_size(window, block);
    let largest: nat = max_size(window, block, NUM_DATA as nat);
    assert(largest <= z < largest + JERASURE_ALIGN);
    if largest > 0 {
        let i: int = choose|i: int|
            block <= i < block + NUM_DATA && (#[trigger] ring(window, i)).data->0.size == largest;
        assert(ring(window, i).data->0.size + JERASURE_ALIGN > z);
    }
    if fits_tightly(window, block, size) {
        if size > 0 {
            let i: int = choose|i: int|
                block <= i < block + NUM_DATA && (#[trigger] ring(window, i)).data->0.size
                    + JERASURE_ALIGN > size;
            assert(ring(window, i).data->0.size <= z);
        }
        if z > 0 {
            let i: int = choose|i: int|
                block <= i < block + NUM_DATA && (#[trigger] ring(window, i)).data->0.size
                    + JERASURE_ALIGN > z;
            assert(ring(window, i).data->0.size <= size);
        }
    }
}

/// A block is coded if and only if it lies before the limit and all its data blobs are there.
pub proof fn lemma_codes_block(window: Seq<SlotView>, start: int, limit: int)
    requires
        window.len() > 0,
    ensures
        codes_block(window, start, limit) <==> start + NUM_DATA <= limit && present(
            window,
            start,
            start + NUM_DATA,
        ),
{
    let len: int = window.len() as int;
    assert forall|i: int| start <= i < start + NUM_DATA implies #[trigger] slot_at(window, i)
        == ring(window, i) by {
        lemma_spot(i, len);
    }
    if has_data(window, start) {
        assert forall|i: int| start <= i < start + NUM_DATA implies (#[trigger] ring(
            window,
            i,
        )).data is Some by {
            assert(slot_at(window, i).data is Some);
        }
    }
    if present(window, start, start + NUM_DATA) {
        assert forall|i: int| start <= i < start + NUM_DATA implies (#[trigger] slot_at(
            window,
            i,
        )).data is Some by {
            assert(ring(window, i).data is Some);
        }
    }
}

proof fn lemma_block_ready(window: Seq<SlotView>, start: int)
    requires
        window.len() > 0,
    ensures
        block_ready(window, start) <==> has_room(window, start, start),
{
    let len: int = window.len() as int;
    lemma_max_size_reached(window, start, NUM_DATA as nat);
    assert forall|i: int| start <= i < start + NUM_DATA implies #[trigger] slot_at(window, i)
        == ring(window, i) by {
        lemma_spot(i, len);
    }
    if block_ready(window, start) {
        assert forall|i: int| first_coding(start) <= i < start + NUM_DATA implies (#[trigger] ring(
            window,
            i,
        )).coding is None by {
            assert(slot_at(window, i).coding is None);
        }
    }
    if has_room(window, start, start) {
        assert forall|i: int| first_coding(start) <= i < start + NUM_DATA implies (
        #[trigger] slot_at(window, i)).coding is None by {
            assert(ring(window, i).coding is None);
        }
    }
}

/// What coding one block does to the slots: which coding blobs there are after it.
proof fn lemma_code_block_coding(window: Seq<SlotView>, start: int)
    requires
        window.len() > 0,
        has_data(window, start),
        block_ready(window, start),
    ensures
        code_block(window, start).len() == window.len(),
        forall|p: int|
            0 <= p < window.len() ==> {
                let after: SlotView = #[trigger] code_block(window, start)[p];
                &&& kept(window[p], after)
                &&& after.coding is None ==> window[p].coding is None
            },
        forall|i: int|
            first_coding(start) <= i < start + NUM_DATA ==> (#[trigger] ring(
                code_block(window, start),
                i,
            )).coding is Some,
        forall|p: int|
            0 <= p < window.len() && (forall|i: int|
                first_coding(start) <= i < start + NUM_DATA ==> #[trigger] spot(
                    i,
                    window.len() as int,
                ) != p) ==> (#[trigger] code_block(window, start)[p]).coding == window[p].coding,
        forall|p: int|
            0 <= p < window.len() && (forall|i: int|
                start <= i < start + NUM_DATA ==> #[trigger] spot(i, window.len() as int) != p)
                ==> #[trigger] code_block(window, start)[p] == window[p],
{
    let len: int = window.len() as int;
    let first: int = first_coding(start);
    let next: Seq<SlotView> = code_block(window, start);
    lemma_code_block_keeps(window, start);
    assert forall|i: int| first <= i < start + NUM_DATA implies (#[trigger] ring(
        next,
        i,
    )).coding is Some by {
        lemma_spot(i, len);
        assert(covers(first, start + NUM_DATA, len, place(i, len)));
    }
    assert forall|p: int|
        0 <= p < len && (forall|i: int|
            first <= i < start + NUM_DATA ==> #[trigger] spot(i, len)
                != p) implies (#[trigger] next[p]).coding == window[p].coding by {
        if covers(first, start + NUM_DATA, len, p) {
            let i: int = choose|i: int|
                first <= i < start + NUM_DATA && #[trigger] place(i, len) == p;
            assert(spot(i, len) == p);
        }
    }
    assert forall|p: int|
        0 <= p < len && (forall|i: int|
            start <= i < start + NUM_DATA ==> #[trigger] spot(i, len) != p) implies #[trigger] next[p]
        == window[p] by {
        if covers(start, start + NUM_DATA, len, p) {
            let i: int = choose|i: int|
                start <= i < start + NUM_DATA && #[trigger] place(i, len) == p;
            assert(spot(i, len) == p);
        }
    }
}

proof fn lemma_present_kept(a: Seq<SlotView>, b: Seq<SlotView>, start: int, end: int)
    requires
        a.len() > 0,
        a.len() == b.len(),
        forall|p: int| 0 <= p < a.len() ==> kept(a[p], #[trigger] b[p]),
    ensures
        present(a, start, end) == present(b, start, end),
{
    let len: int = a.len() as int;
    assert forall|i: int| start <= i < end implies ((#[trigger] ring(a, i)).data is Some <==> ring(
        b,
        i,
    ).data is Some) by {
        lemma_spot(i, len);
        assert(kept(a[spot(i, len)], b[spot(i, len)]));
    }
    if present(b, start, end) {
        assert forall|i: int| start <= i < end implies (#[trigger] ring(a, i)).data is Some by {
            assert(ring(b, i).data is Some);
        }
    }
    if present(a, start, end) {
        assert forall|i: int| start <= i < end implies (#[trigger] ring(b, i)).data is Some by {
            assert(ring(a, i).data is Some);
        }
    }
}

/// Where the first block is coded, a later one has room after that if and only if it had room
/// before.
proof fn lemma_room_after_first(window: Seq<SlotView>, start: int, block: int)
    requires
        window.len() > 0,
        has_data(window, start),
        block_ready(window, start),
        start + NUM_DATA <= block,
        (block - start) % NUM_DATA as int == 0,
        present(window, start, block + NUM_DATA),
    ensures
        has_room(window, start, block) <==> has_room(
            code_block(window, start),
            start + NUM_DATA,
            block,
        ),
{
    let len: int = window.len() as int;
    let next: Seq<SlotView> = code_block(window, start);
    let first: int = first_coding(start);
    let start1: int = start + NUM_DATA;
    lemma_code_block_coding(window, start);
    assert forall|i: int| block <= i < block + NUM_DATA implies (#[trigger] ring(
        next,
        i,
    )).data->0.size == ring(window, i).data->0.size by {
        lemma_spot(i, len);
        assert(ring(window, i).data is Some);
        assert(kept(window[spot(i, len)], next[spot(i, len)]));
    }
    assert forall|h: int| is_coding_index(start, h) <==> #[trigger] is_coding_index(start1, h) by {
        assert((h - start) % 16 == (h - start1) % 16);
    }
    let at: int = block + NUM_DATA - NUM_CODING;
    if has_room(window, start, block) {
        assert forall|i: int| block <= i < block + NUM_DATA implies (#[trigger] ring(
            next,
            i,
        )).data->0.size <= BLOB_SIZE - BLOB_HEADER_SIZE by {
            assert(ring(window, i).data->0.size <= BLOB_SIZE - BLOB_HEADER_SIZE);
        }
        assert forall|i: int| at <= i < block + NUM_DATA implies (#[trigger] ring(
            next,
            i,
        )).coding is None by {
            let p: int = spot(i, len);
            lemma_spot(i, len);
            assert(ring(window, i).coding is None);
            assert forall|h: int| first <= h < start + NUM_DATA implies #[trigger] spot(h, len)
                != p by {
                assert((h - start) % 16 == h - start);
                assert(is_coding_index(start, h));
            }
            assert(next[p].coding == window[p].coding);
        }
        assert forall|i: int, h: int|
            at <= i < block + NUM_DATA && start1 <= h < block && is_coding_index(
                start1,
                h,
            ) implies #[trigger] spot(i, len) != #[trigger] spot(h, len) by {
            assert(is_coding_index(start, h));
        }
        assert(has_room(next, start1, block));
    }
    if has_room(next, start1, block) {
        assert forall|i: int| block <= i < block + NUM_DATA implies (#[trigger] ring(
            window,
            i,
        )).data->0.size <= BLOB_SIZE - BLOB_HEADER_SIZE by {
            assert(ring(next, i).data->0.size <= BLOB_SIZE - BLOB_HEADER_SIZE);
        }
        assert forall|i: int| at <= i < block + NUM_DATA implies (#[trigger] ring(
            window,
            i,
        )).coding is None by {
            lemma_spot(i, len);
            assert(ring(next, i).coding is None);
        }
        assert forall|i: int, h: int|
            at <= i < block + NUM_DATA && start <= h < block && is_coding_index(
                start,
                h,
            ) implies #[trigger] spot(i, len) != #[trigger] spot(h, len) by {
            if h < start1 {
                assert((h - start) % 16 == h - start);
                assert(ring(next, h).coding is Some);
                assert(ring(next, i).coding is None);
            } else {
                assert(is_coding_index(start1, h));
            }
        }
        assert(has_room(window, start, block));
    }
}

/// Coding blobs can be generated if and only if each block that comes to be coded has room:
/// those of the range up to the first that data are missing of.
pub proof fn lemma_codable(window: Seq<SlotView>, start: int, limit: int)
    requires
        window.len() > 0,
    ensures
        codable(window, start, limit) <==> forall|block: int| #[trigger]
            block_of_range(start, block, limit) && present(window, start, block + NUM_DATA)
                ==> has_room(window, start, block),
    decreases limit - start,
{
    lemma_codes_block(window, start, limit);
    lemma_block_ready(window, start);
    if codes_block(window, start, limit) {
        let next: Seq<SlotView> = code_block(window, start);
        let start1: int = start + NUM_DATA;
        assert(block_of_range(start, start, limit));
        if block_ready(window, start) {
            lemma_code_block_coding(window, start);
            lemma_codable(next, start1, limit);
            if codable(window, start, limit) {
                assert forall|block: int| #[trigger]
                    block_of_range(start, block, limit) && present(
                        window,
                        start,
                        block + NUM_DATA,
                    ) implies has_room(window, start, block) by {
                    if block > start {
                        assert((block - start1) % 16 == 0);
                        assert(block_of_range(start1, block, limit));
                        lemma_present_kept(window, next, start1, block + NUM_DATA);
                        assert(present(window, start1, block + NUM_DATA));
                        lemma_room_after_first(window, start, block);
                    }
                }
            }
            if forall|block: int| #[trigger]
                block_of_range(start, block, limit) && present(window, start, block + NUM_DATA)
                    ==> has_room(window, start, block) {
                assert forall|block: int| #[trigger]
                    block_of_range(start1, block, limit) && present(
                        next,
                        start1,
                        block + NUM_DATA,
                    ) implies has_room(next, start1, block) by {
                    assert((block - start) % 16 == 0);
                    assert(block_of_range(start, block, limit));
                    lemma_present_kept(window, next, start1, block + NUM_DATA);
                    assert(present(window, start, block + NUM_DATA));
                    lemma_room_after_first(window, start, block);
                }
            }
        }
    } else {
        assert forall|block: int| #[trigger]
            block_of_range(start, block, limit) && present(
                window,
                start,
                block + NUM_DATA,
            ) implies has_room(window, start, block) by {
            assert(present(window, start, start + NUM_DATA));
        }
    }
}

/// `stop` is where coding stops: all data blobs before it are there, and the block behind it
/// reaches over the limit or is not complete.
pub open spec fn stops_at(window: Seq<SlotView>, start: int, limit: int, stop: int) -> bool {
    &&& start <= stop
    &&& stop == start || stop <= limit
    &&& (stop - start) % NUM_DATA as int == 0
    &&& present(window, start, stop)
    &&& stop + NUM_DATA > limit || !present(window, stop, stop + NUM_DATA)
}

/// Coding stops at the first block that is not complete: every coding blob before it is there
/// afterwards, and slots without a blob before it are as they were.
pub proof fn lemma_generated_stops(window: Seq<SlotView>, start: int, limit: int, stop: int)
    requires
        window.len() > 0,
        codable(window, start, limit),
        stops_at(window, start, limit, stop),
    ensures
        generated(window, start, limit).len() == window.len(),
        forall|h: int|
            start <= h < stop && is_coding_index(start, h) ==> (#[trigger] ring(
                generated(window, start, limit),
                h,
            )).coding is Some,
        forall|p: int|
            0 <= p < window.len() && (forall|h: int|
                start <= h < stop && is_coding_index(start, h) ==> #[trigger] spot(
                    h,
                    window.len() as int,
                ) != p) ==> (#[trigger] generated(window, start, limit)[p]).coding
                == window[p].coding,
        forall|p: int|
            0 <= p < window.len() && (forall|h: int|
                start <= h < stop ==> #[trigger] spot(h, window.len() as int) != p)
                ==> #[trigger] generated(window, start, limit)[p] == window[p],
        forall|p: int|
            0 <= p < window.len() ==> (#[trigger] generated(window, start, limit)[p]).leader_unknown
                == window[p].leader_unknown,
    decreases limit - start,
{
    let len: int = window.len() as int;
    let g: Seq<SlotView> = generated(window, start, limit);
    lemma_codes_block(window, start, limit);
    if stop > start {
        let next: Seq<SlotView> = code_block(window, start);
        let start1: int = start + NUM_DATA;
        assert(stop >= start1);
        assert(present(window, start, start1));
        lemma_code_block_coding(window, start);
        lemma_generated_keeps(next, start1, limit);
        lemma_present_kept(window, next, start1, stop);
        lemma_present_kept(window, next, stop, stop + NUM_DATA);
        assert(present(window, start1, stop));
        assert((stop - start1) % 16 == 0);
        lemma_generated_stops(next, start1, limit, stop);
        assert forall|h: int| is_coding_index(start, h) <==> #[trigger] is_coding_index(
            start1,
            h,
        ) by {
            assert((h - start) % 16 == (h - start1) % 16);
        }
        assert forall|h: int| start <= h < stop && is_coding_index(start, h) implies (
        #[trigger] ring(g, h)).coding is Some by {
            if h < start1 {
                assert((h - start) % 16 == h - start);
                lemma_spot(h, len);
                assert(ring(next, h).coding is Some);
                assert(kept(next[spot(h, len)], g[spot(h, len)]));
            } else {
                assert(is_coding_index(start1, h));
            }
        }
        assert forall|p: int|
            0 <= p < len && (forall|h: int|
                start <= h < stop && is_coding_index(start, h) ==> #[trigger] spot(h, len)
                    != p) implies (#[trigger] g[p]).coding == window[p].coding by {
            assert forall|h: int| first_coding(start) <= h < start1 implies #[trigger] spot(h, len)
                != p by {
                assert((h - start) % 16 == h - start);
                assert(is_coding_index(start, h));
            }
            assert forall|h: int| start1 <= h < stop && is_coding_index(
                start1,
                h,
            ) implies #[trigger] spot(h, len) != p by {
                assert(is_coding_index(start, h));
            }
            assert(next[p].coding == window[p].coding);
        }
        assert forall|p: int|
            0 <= p < len && (forall|h: int|
                start <= h < stop ==> #[trigger] spot(h, len) != p) implies #[trigger] g[p]
            == window[p] by {
            assert(next[p] == window[p]);
        }
        assert forall|p: int| 0 <= p < len implies (#[trigger] g[p]).leader_unknown
            == window[p].leader_unknown by {
            assert(kept(window[p], next[p]));
        }
    }
}

/// Indexes that lie closer together than the ring is long have different slots.
pub proof fn lemma_spots_differ(i: int, h: int, len: int)
    requires
        i != h,
        i < h + len,
        h < i + len,
    ensures
        spot(i, len) != spot(h, len),
{
    if i < h {
        lemma_places_differ(i, h, len);
    } else {
        lemma_places_differ(h, i, len);
    }
}

/// Where the coded blobs all have slots of their own, the data blobs of a coded block keep all
/// bytes but those behind the ones in use, up to the size of the coded blocks. Those are zero
/// afterwards.
pub proof fn lemma_data_after_coding(
    window: Seq<SlotView>,
    start: int,
    limit: int,
    stop: int,
    block: int,
    size: nat,
    i: int,
)
    requires
        window.len() > 0,
        codable(window, start, limit),
        stops_at(window, start, limit, stop),
        stop - start <= window.len(),
        block_of_range(start, block, stop),
        fits_tightly(window, block, size),
        block <= i < block + NUM_DATA,
    ensures
        ({
            let before: BlobView = ring(window, i).data->0;
            let after: SlotView = ring(generated(window, start, limit), i);
            &&& after.data is Some
            &&& after.data->0.size == before.size
            &&& after.data->0.data.len() == before.data.len()
            &&& forall|b: int|
                0 <= b < before.data.len() ==> #[trigger] after.data->0.data[b] == (if before.size
                    <= b < size {
                    0
                } else {
                    before.data[b]
                })
        }),
    decreases limit - start,
{
    let len: int = window.len() as int;
    let g: Seq<SlotView> = generated(window, start, limit);
    let next: Seq<SlotView> = code_block(window, start);
    let start1: int = start + NUM_DATA;
    lemma_codes_block(window, start, limit);
    assert(present(window, start, start1));
    lemma_code_block_coding(window, start);
    lemma_present_kept(window, next, start1, stop);
    lemma_present_kept(window, next, stop, stop + NUM_DATA);
    assert(present(window, start1, stop));
    assert((stop - start1) % 16 == 0);
    lemma_spot(i, len);
    if block == start {
        lemma_block_size_least(window, block, size);
        let p: int = place(i, len);
        assert(covers(start, start + NUM_DATA, len, p));
        lemma_generated_stops(next, start1, limit, stop);
        assert forall|h: int| start1 <= h < stop implies #[trigger] spot(h, len) != p by {
            lemma_spots_differ(i, h, len);
        }
        assert(g[p] == next[p]);
    } else {
        assert((block - start1) % 16 == 0);
        assert(block >= start1);
        assert forall|l: int| start1 <= l < stop implies #[trigger] ring(next, l) == ring(
            window,
            l,
        ) by {
            let p: int = spot(l, len);
            lemma_spot(l, len);
            assert forall|h: int| start <= h < start1 implies #[trigger] spot(h, len) != p by {
                lemma_spots_differ(l, h, len);
            }
            assert(next[p] == window[p]);
        }
        assert(fits_tightly(next, block, size)) by {
            assert forall|l: int| block <= l < block + NUM_DATA implies (#[trigger] ring(
                next,
                l,
            )).data->0.size <= size by {
                assert(ring(window, l).data->0.size <= size);
            }
            if size > 0 {
                let l: int = choose|l: int|
                    block <= l < block + NUM_DATA && (#[trigger] ring(window, l)).data->0.size
                        + JERASURE_ALIGN > size;
                assert(ring(next, l).data->0.size + JERASURE_ALIGN > size);
            }
        }
        lemma_data_after_coding(next, start1, limit, stop, block, size, i);
        assert(ring(next, i) == ring(window, i));
    }
}

/// Byte `b` of slot `p` lies within the coded blocks of a block from `start` up to `stop`.
pub open spec fn coded_byte(
    window: Seq<SlotView>,
    start: int,
    stop: int,
    p: int,
    b: int,
) -> bool {
    exists|block: int, i: int|
        #![trigger block_of_range(start, block, stop), spot(i, window.len() as int)]
        block_of_range(start, block, stop) && block <= i < block + NUM_DATA && spot(
            i,
            window.len() as int,
        ) == p && b < block_size(window, block)
}

proof fn lemma_coded_byte_step(window: Seq<SlotView>, start: int, stop: int, p: int, b: int)
    requires
        window.len() > 0,
        has_data(window, start),
        block_ready(window, start),
        present(window, start, stop),
        start + NUM_DATA <= stop,
    ensures
        coded_byte(window, start, stop, p, b) <==> coded_byte(
            code_block(window, start),
            start + NUM_DATA,
            stop,
            p,
            b,
        ) || (covers(start, start + NUM_DATA, window.len() as int, p) && b < block_size(
            window,
            start,
        )),
{
    let len: int = window.len() as int;
    let next: Seq<SlotView> = code_block(window, start);
    let start1: int = start + NUM_DATA;
    lemma_code_block_keeps(window, start);
    assert forall|block: int| #[trigger] block_of_range(start1, block, stop) implies block_size(
        next,
        block,
    ) == block_size(window, block) && block_of_range(start, block, stop) by {
        assert((block - start) % 16 == 0);
        assert forall|i: int| block <= i < block + NUM_DATA implies (#[trigger] slot_at(
            window,
            i,
        )).data is Some by {
            lemma_spot(i, len);
            assert(ring(window, i).data is Some);
        }
        lemma_kept_max_size(window, next, block, NUM_DATA as nat);
    }
    if coded_byte(window, start, stop, p, b) {
        let (block, i): (int, int) = choose|block: int, i: int|
            #![trigger block_of_range(start, block, stop), spot(i, len)]
            block_of_range(start, block, stop) && block <= i < block + NUM_DATA && spot(i, len)
                == p && b < block_size(window, block);
        if block == start {
            assert(place(i, len) == p);
        } else {
            assert((block - start1) % 16 == 0);
            assert(block_of_range(start1, block, stop));
            assert(spot(i, next.len() as int) == p);
        }
    }
    if coded_byte(next, start1, stop, p, b) {
        let (block, i): (int, int) = choose|block: int, i: int|
            #![trigger block_of_range(start1, block, stop), spot(i, next.len() as int)]
            block_of_range(start1, block, stop) && block <= i < block + NUM_DATA && spot(
                i,
                next.len() as int,
            ) == p && b < block_size(next, block);
        assert(block_of_range(start, block, stop));
        assert(spot(i, len) == p);
    }
    if covers(start, start1, len, p) && b < block_size(window, start) {
        let i: int = choose|i: int| start <= i < start1 && #[trigger] place(i, len) == p;
        assert(block_of_range(start, start, stop));
        assert(spot(i, len) == p);
    }
}

/// Also where blobs share slots, a byte of a data blob changes only if it is not in use and lies
/// within the coded blocks of a block that is coded. It is zero then.
pub proof fn lemma_bytes_after_coding(
    window: Seq<SlotView>,
    start: int,
    limit: int,
    stop: int,
    p: int,
    b: int,
)
    requires
        window.len() > 0,
        codable(window, start, limit),
        stops_at(window, start, limit, stop),
        0 <= p < window.len(),
        window[p].data is Some,
        0 <= b < window[p].data->0.data.len(),
    ensures
        generated(window, start, limit)[p].data is Some,
        generated(window, start, limit)[p].data->0.size == window[p].data->0.size,
        generated(window, start, limit)[p].data->0.data.len() == window[p].data->0.data.len(),
        generated(window, start, limit)[p].data->0.data[b] == (if b >= window[p].data->0.size
            && coded_byte(window, start, stop, p, b) {
            0
        } else {
            window[p].data->0.data[b]
        }),
    decreases limit - start,
{
    let len: int = window.len() as int;
    lemma_codes_block(window, start, limit);
    lemma_generated_keeps(window, start, limit);
    assert(kept(window[p], generated(window, start, limit)[p]));
    if stop == start {
        assert(!coded_byte(window, start, stop, p, b));
    } else {
        let next: Seq<SlotView> = code_block(window, start);
        let start1: int = start + NUM_DATA;
        assert(stop >= start1);
        assert(present(window, start, start1));
        lemma_code_block_keeps(window, start);
        lemma_present_kept(window, next, start1, stop);
        lemma_present_kept(window, next, stop, stop + NUM_DATA);
        assert(present(window, start1, stop));
        assert((stop - start1) % 16 == 0);
        assert(kept(window[p], next[p]));
        lemma_bytes_after_coding(next, start1, limit, stop, p, b);
        lemma_coded_byte_step(window, start, stop, p, b);
    }
}

/// The bytes of a coding blob beside its header fields and its coding block are zero.
proof fn lemma_coding_blob_padding(window: Seq<SlotView>, start: int, r: int)
    requires
        0 <= r < NUM_CODING,
        coded_blob(window, start, NUM_DATA - NUM_CODING + r).data.len() == BLOB_SIZE,
        block_size(window, start) <= BLOB_SIZE - BLOB_HEADER_SIZE,
    ensures
        forall|b: int|
            60 <= b < BLOB_HEADER_SIZE || BLOB_HEADER_SIZE + block_size(window, start) <= b
                < BLOB_SIZE ==> #[trigger] coding_blob(window, start, r).data[b] == 0,
{
    let size: nat = block_size(window, start);
    let coded: BlobView = coded_blob(window, start, NUM_DATA - NUM_CODING + r);
    let b0: BlobView = BlobView::blank();
    let b1: BlobView = b0.with_index(coded.index());
    let b2: BlobView = b1.with_slot(coded.slot());
    let b3: BlobView = b2.with_id(coded.id());
    let b4: BlobView = b3.with_size(size);
    lemma_with_index(b0, coded.index());
    lemma_with_slot(b1, coded.slot());
    lemma_with_id(b2, coded.id());
    lemma_with_size(b3, size);
    lemma_with_coding_flag(b4);
    let b5: BlobView = b4.with_coding_flag();
    assert(coding_header(coded, size) == b5);
    assert forall|b: int|
        60 <= b < BLOB_HEADER_SIZE || BLOB_HEADER_SIZE + size <= b
            < BLOB_SIZE implies #[trigger] coding_blob(window, start, r).data[b] == 0 by {
        assert(b5.data[b] == b4.data[b]);
        assert(b4.data[b] == b3.data[b]);
        assert(b3.data[b] == b2.data[b]);
        assert(b2.data[b] == b1.data[b]);
        assert(b1.data[b] == b0.data[b]);
    }
}

/// What coding blobs hold: slot, index and id of their data blob, the mark of a coding blob,
/// the size of the coded blocks, and behind the header the coding block of the data blobs as
/// they were before, with zeros behind the bytes in use.
pub proof fn lemma_coding_after_coding(
    window: Seq<SlotView>,
    start: int,
    limit: int,
    block: int,
    size: nat,
    padded: Seq<Seq<u8>>,
    r: int,
)
    requires
        window.len() > 0,
        codable(window, start, limit),
        block_of_range(start, block, limit),
        present(window, start, block + NUM_DATA),
        forall|i: int|
            block <= i < block + NUM_DATA ==> {
                &&& (#[trigger] ring(window, i)).data->0.data.len() == BLOB_SIZE
                &&& ring(window, i).data->0.size >= BLOB_HEADER_SIZE
            },
        fits_tightly(window, block, size),
        padded.len() == NUM_DATA,
        forall|j: int| 0 <= j < NUM_DATA ==> (#[trigger] padded[j]).len() == size,
        forall|j: int, b: int|
            0 <= j < NUM_DATA && 0 <= b < size ==> #[trigger] padded[j][b] == (if b < ring(
                window,
                block + j,
            ).data->0.size {
                ring(window, block + j).data->0.data[b]
            } else {
                0
            }),
        0 <= r < NUM_CODING,
    ensures
        ({
            let n: int = block + NUM_DATA - NUM_CODING + r;
            let source: BlobView = ring(window, n).data->0;
            let coding: Option<BlobView> = ring(generated(window, start, limit), n).coding;
            let blob: BlobView = coding->0;
            let code: Seq<u8> = blob.data.subrange(
                BLOB_HEADER_SIZE as int,
                BLOB_HEADER_SIZE + size,
            );
            &&& coding is Some
            &&& blob.data.len() == BLOB_SIZE
            &&& blob.size == size + BLOB_HEADER_SIZE
            &&& blob.data_size() == size + BLOB_HEADER_SIZE
            &&& blob.slot() == source.slot()
            &&& blob.index() == source.index()
            &&& blob.id() == source.id()
            &&& blob.flags() == 1
            &&& code.len() == size
            &&& is_coding_block(code, padded, NUM_CODING as nat, r)
            &&& forall|b: int|
                60 <= b < BLOB_HEADER_SIZE || BLOB_HEADER_SIZE + size <= b < BLOB_SIZE
                    ==> #[trigger] blob.data[b] == 0
        }),
{
    let len: int = window.len() as int;
    let n: int = block + NUM_DATA - NUM_CODING + r;
    lemma_block_size_least(window, block, size);
    assert forall|i: int| start <= i < block + NUM_DATA implies #[trigger] slot_at(window, i)
        == ring(window, i) && slot_at(window, i).data is Some by {
        lemma_spot(i, len);
        assert(ring(window, i).data is Some);
    }
    assert forall|i: int| block <= i < block + NUM_DATA implies {
        let blob: BlobView = (#[trigger] slot_at(window, i)).data->0;
        &&& blob.data.len() == BLOB_SIZE
        &&& blob.size >= BLOB_HEADER_SIZE
    } by {
        assert(ring(window, i).data->0.data.len() == BLOB_SIZE);
    }
    lemma_headers_coded(window, block);
    lemma_generated_block(window, start, limit, block);
    lemma_generated_code(window, start, limit, block);
    lemma_generated_keeps(window, start, limit);
    lemma_spot(n, len);
    assert(slot_at(generated(window, start, limit), n) == ring(
        generated(window, start, limit),
        n,
    ));
    assert(first_coding(block) + r == n);
    assert(slot_at(window, n).data->0.data.len() == BLOB_SIZE);
    lemma_coding_blob(window, block, r);
    lemma_coding_blob_padding(window, block, r);
    assert forall|j: int| 0 <= j < NUM_DATA implies #[trigger] padded[j] == coded_data(
        window,
        block,
    )[j] by {
        assert(slot_at(window, block + j).data->0.data.len() == BLOB_SIZE);
        assert(slot_at(window, block + j) == ring(window, block + j));
        assert(padded[j].len() == size);
        assert(padded[j] =~= coded_data(window, block)[j]);
    }
    assert(padded =~= coded_data(window, block));
}

proof fn lemma_same_max_size(a: Seq<SlotView>, b: Seq<SlotView>, start: int, count: nat)
    requires
        a.len() == b.len(),
        forall|i: int| start <= i < start + count ==> #[trigger] slot_at(a, i) == slot_at(b, i),
    ensures
        max_size(a, start, count) == max_size(b, start, count),
    decreases count,
{
    if count > 0 {
        lemma_same_max_size(a, b, start, (count - 1) as nat);
        assert(slot_at(a, start + count - 1) == slot_at(b, start + count - 1));
    }
}

/// How a block is coded depends on its own slots only.
proof fn lemma_same_coding(a: Seq<SlotView>, b: Seq<SlotView>, start: int)
    requires
        a.len() == b.len(),
        forall|i: int| start <= i < start + NUM_DATA ==> #[trigger] slot_at(a, i) == slot_at(b, i),
    ensures
        forall|r: int|
            0 <= r < NUM_CODING ==> #[trigger] coding_blob(a, start, r) == coding_blob(b, start, r),
{
    lemma_same_max_size(a, b, start, NUM_DATA as nat);
    assert forall|j: int| 0 <= j < NUM_DATA implies #[trigger] coded_blob(a, start, j)
        == coded_blob(b, start, j) by {
        assert(slot_at(a, start + j) == slot_at(b, start + j));
    }
    assert(coded_data(a, start) =~= coded_data(b, start));
    assert forall|r: int| 0 <= r < NUM_CODING implies #[trigger] coding_blob(a, start, r)
        == coding_blob(b, start, r) by {
        let j: int = NUM_DATA - NUM_CODING + r;
        assert(coded_blob(a, start, j) == coded_blob(b, start, j));
    }
}

proof fn lemma_coding_blob_placed(
    window: Seq<SlotView>,
    start: int,
    limit: int,
    stop: int,
    block: int,
    r: int,
)
    requires
        window.len() > 0,
        codable(window, start, limit),
        stops_at(window, start, limit, stop),
        stop - start <= window.len(),
        block_of_range(start, block, stop),
        0 <= r < NUM_CODING,
    ensures
        ring(generated(window, start, limit), first_coding(block) + r).coding == Some(
            coding_blob(window, block, r),
        ),
    decreases limit - start,
{
    let len: int = window.len() as int;
    let g: Seq<SlotView> = generated(window, start, limit);
    let next: Seq<SlotView> = code_block(window, start);
    let start1: int = start + NUM_DATA;
    let n: int = first_coding(block) + r;
    lemma_codes_block(window, start, limit);
    assert(present(window, start, start1));
    lemma_code_block_coding(window, start);
    lemma_present_kept(window, next, start1, stop);
    lemma_present_kept(window, next, stop, stop + NUM_DATA);
    assert(present(window, start1, stop));
    assert((stop - start1) % 16 == 0);
    lemma_spot(n, len);
    if block == start {
        lemma_code_block(window, start);
        lemma_generated_keeps(next, start1, limit);
        assert(slot_at(next, n).coding == Some(coding_blob(window, block, r)));
        assert(kept(next[spot(n, len)], g[spot(n, len)]));
    } else {
        assert((block - start1) % 16 == 0);
        assert(block >= start1);
        assert forall|l: int| block <= l < block + NUM_DATA implies #[trigger] slot_at(window, l)
            == slot_at(next, l) by {
            let p: int = spot(l, len);
            lemma_spot(l, len);
            assert forall|h: int| start <= h < start1 implies #[trigger] spot(h, len) != p by {
                lemma_spots_differ(l, h, len);
            }
            assert(next[p] == window[p]);
        }
        lemma_coding_blob_placed(next, start1, limit, stop, block, r);
        lemma_same_coding(window, next, block);
    }
}

/// Where the coded blobs all have slots of their own, a coding blob carries the slot, the index
/// and the id of the data blob beside it, whatever the sizes of the data blobs are. It is marked
/// as a coding blob, and header and transport agree on its size.
pub proof fn lemma_coding_beside_data(
    window: Seq<SlotView>,
    start: int,
    limit: int,
    stop: int,
    block: int,
    size: nat,
    r: int,
)
    requires
        window.len() > 0,
        codable(window, start, limit),
        stops_at(window, start, limit, stop),
        stop - start <= window.len(),
        block_of_range(start, block, stop),
        fits_tightly(window, block, size),
        0 <= r < NUM_CODING,
        ring(window, block + NUM_DATA - NUM_CODING + r).data->0.data.len() == BLOB_SIZE,
    ensures
        ({
            let after: SlotView = ring(
                generated(window, start, limit),
                block + NUM_DATA - NUM_CODING + r,
            );
            let blob: BlobView = after.coding->0;
            &&& after.data is Some
            &&& after.coding is Some
            &&& blob.data.len() == BLOB_SIZE
            &&& blob.slot() == after.data->0.slot()
            &&& blob.index() == after.data->0.index()
            &&& blob.id() == after.data->0.id()
            &&& blob.flags() == 1
            &&& blob.size == size + BLOB_HEADER_SIZE
            &&& blob.data_size() == size + BLOB_HEADER_SIZE
        }),
{
    let len: int = window.len() as int;
    let n: int = block + NUM_DATA - NUM_CODING + r;
    let after: SlotView = ring(generated(window, start, limit), n);
    assert(n == first_coding(block) + r);
    lemma_data_after_coding(window, start, limit, stop, block, size, n);
    lemma_coding_blob_placed(window, start, limit, stop, block, r);
    lemma_block_size_least(window, block, size);
    lemma_codable(window, start, limit);
    assert(present(window, start, block + NUM_DATA)) by {
        assert forall|i: int| start <= i < block + NUM_DATA implies (#[trigger] ring(
            window,
            i,
        )).data is Some by {}
    }
    assert(block_of_range(start, block, limit));
    assert(has_room(window, start, block));
    assert(size <= BLOB_SIZE - BLOB_HEADER_SIZE) by {
        lemma_max_size_reached(window, block, NUM_DATA as nat);
    }
    lemma_spot(n, len);
    assert(slot_at(window, n) == ring(window, n));
    let coded: BlobView = coded_blob(window, block, NUM_DATA - NUM_CODING + r);
    assert(block + (NUM_DATA - NUM_CODING + r) == n);
    assert(coded.data =~= after.data->0.data);
    let b0: BlobView = BlobView::blank();
    let b1: BlobView = b0.with_index(coded.index());
    let b2: BlobView = b1.with_slot(coded.slot());
    let b3: BlobView = b2.with_id(coded.id());
    let b4: BlobView = b3.with_size(size);
    let b5: BlobView = b4.with_coding_flag();
    lemma_with_index(b0, coded.index());
    lemma_with_slot(b1, coded.slot());
    lemma_with_id(b2, coded.id());
    lemma_with_size(b3, size);
    lemma_with_flags(b4, b4.flags() | BLOB_FLAG_IS_CODING);
    lemma_header_bytes(b0);
    assert(0u32 | BLOB_FLAG_IS_CODING == 1) by (bit_vector);
    let blob: BlobView = after.coding->0;
    assert forall|from: int, to: int|
        0 <= from <= to <= BLOB_HEADER_SIZE implies #[trigger] blob.data.subrange(from, to)
        == b5.data.subrange(from, to) by {
        assert(blob.data.subrange(from, to) =~= b5.data.subrange(from, to));
    }
}

} // verus!
