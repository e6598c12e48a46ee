//! What recovering an erasure set gives, entry by entry and byte by byte.
use vstd::prelude::*;

use crate::blocks::{is_coding_block, JERASURE_ALIGN};
use crate::decode::{lemma_first_rows_used, lemma_lost_coding_restored};
use crate::endian::{lemma_le_limits, lemma_le_value};
use crate::error::ErasureError;
use crate::laws::{
    coded_coding, in_use, lemma_block_size, lemma_coding_blob, lemma_generated_block,
    lemma_generated_is_recovered, lemma_headers_coded, lost_blobs, reloaded, sound_block, stored_from,
};
use crate::layout::{block_end, coding_start, lemma_block_holds_index, NUM_CODING, NUM_DATA};
use crate::packet::{
    lemma_header_bytes, lemma_with_index, lemma_with_size, lemma_with_slot, BlobView,
    BLOB_HEADER_SIZE, BLOB_SIZE, SIZE_OFFSET,
};
use crate::positions::{inverted, lemma_positions, lemma_positions_count, positions, set_below};
use crate::recovery::{
    corrupt, corrupt_size, data_blob, missing, missing_count, outcome, recovered_coding_blob,
    recovered_data_blob, recovers_to, recovery_of, ErasureSet, Recovery, RecoveryView, SetView,
};
use crate::window::{codable, first_coding, generated, kept, lemma_generated_keeps, slot_at, SlotView};
use crate::window_laws::{block_of_range, lemma_spot, present, ring};

verus! {

/// The numbers below `end` of the entries that are missing.
pub open spec fn gaps(entries: Seq<Option<Seq<u8>>>, end: int) -> Set<int> {
    Set::new(|j: int| 0 <= j < end && entries[j] is None)
}

/// The numbers of all entries that are missing.
pub open spec fn all_gaps(entries: Seq<Option<Seq<u8>>>) -> Set<int> {
    gaps(entries, entries.len() as int)
}

/// Each stored entry holds more than a header and no more than a buffer.
pub open spec fn storable(entries: Seq<Option<Seq<u8>>>) -> bool {
    forall|j: int|
        0 <= j < entries.len() && (#[trigger] entries[j]) is Some ==> BLOB_HEADER_SIZE
            < entries[j]->0.len() <= BLOB_SIZE
}

/// `first` is the number of the first coding entry that is there.
pub open spec fn first_there(set: SetView, first: int) -> bool {
    &&& 0 <= first < set.coding.len()
    &&& set.coding[first] is Some
    &&& forall|i: int| 0 <= i < first ==> (#[trigger] set.coding[i]) is None
}

/// Byte `b` of `bytes`, or zero behind them.
pub open spec fn byte_or_zero(bytes: Seq<u8>, b: int) -> u8 {
    if b < bytes.len() {
        bytes[b]
    } else {
        0
    }
}

/// The size that stands in the header of a blob with these first bytes.
pub open spec fn size_field(bytes: Seq<u8>) -> int {
    byte_or_zero(bytes, 52) + 0x100 * byte_or_zero(bytes, 53) + 0x1_0000 * byte_or_zero(bytes, 54)
        + 0x100_0000 * byte_or_zero(bytes, 55) + 0x1_0000_0000 * byte_or_zero(bytes, 56)
        + 0x100_0000_0000 * byte_or_zero(bytes, 57) + 0x1_0000_0000_0000 * byte_or_zero(bytes, 58)
        + 0x100_0000_0000_0000 * byte_or_zero(bytes, 59)
}

/// A size that no blob can have that was coded.
pub open spec fn impossible_size(size: int) -> bool {
    size < BLOB_HEADER_SIZE || size > BLOB_SIZE - BLOB_HEADER_SIZE
}

/// `data` and `coding` are the blocks of the erasure set, each `size` bytes long: those of the
/// entries that are there, padded with zeros, and those that follow for the missing ones. The
/// first coding entries that are there, as many as data entries are missing, fit the data, and
/// so do the missing coding entries.
pub open spec fn completes(
    set: SetView,
    size: nat,
    data: Seq<Seq<u8>>,
    coding: Seq<Seq<u8>>,
) -> bool {
    &&& data.len() == NUM_DATA
    &&& coding.len() == NUM_CODING
    &&& forall|j: int| 0 <= j < NUM_DATA ==> (#[trigger] data[j]).len() == size
    &&& forall|i: int| 0 <= i < NUM_CODING ==> (#[trigger] coding[i]).len() == size
    &&& forall|j: int, b: int|
        0 <= j < NUM_DATA && set.data[j] is Some && 0 <= b < size ==> #[trigger] data[j][b]
            == byte_or_zero(set.data[j]->0, b)
    &&& forall|i: int, b: int|
        0 <= i < NUM_CODING && set.coding[i] is Some && 0 <= b < size ==> #[trigger] coding[i][b]
            == byte_or_zero(set.coding[i]->0, BLOB_HEADER_SIZE + b)
    &&& forall|i: int|
        0 <= i < NUM_CODING && (set.coding[i] is None || i - gaps(set.coding, i).len() < all_gaps(
            set.data,
        ).len()) ==> is_coding_block(#[trigger] coding[i], data, NUM_CODING as nat, i)
}

/// One of the missing blobs would have an impossible size.
pub open spec fn makes_no_sense(set: SetView, size: nat, data: Seq<Seq<u8>>) -> bool {
    ||| exists|j: int|
        0 <= j < NUM_DATA && set.data[j] is None && impossible_size(
            size_field(#[trigger] data[j]),
        )
    ||| all_gaps(set.coding).len() > 0 && impossible_size(size as int)
}

/// `index` is that of coding entry `i` in the block of `start_idx`.
pub open spec fn is_index_of(index: u64, start_idx: u64, i: int) -> bool {
    &&& index / NUM_DATA as u64 == start_idx / NUM_DATA as u64
    &&& index % NUM_DATA as u64 == NUM_DATA - NUM_CODING + i
}

/// A data blob that is recovered from the block: it holds the block and zeros behind it, and
/// its size is the one in its header.
pub open spec fn data_from_block(blob: BlobView, block: Seq<u8>) -> bool {
    &&& blob.data.len() == BLOB_SIZE
    &&& forall|b: int| 0 <= b < BLOB_SIZE ==> #[trigger] blob.data[b] == byte_or_zero(block, b)
    &&& blob.size == size_field(block)
    &&& blob.data_size() == blob.size
    &&& !impossible_size(blob.size as int)
}

/// A coding blob that is recovered from the block: slot and index are set in its header, and so
/// is the size of the block. Behind the header it holds the block, and zeros elsewhere.
pub open spec fn coding_from_block(
    blob: BlobView,
    block: Seq<u8>,
    slot: u64,
    start_idx: u64,
    i: int,
) -> bool {
    &&& blob.data.len() == BLOB_SIZE
    &&& blob.slot() == slot
    &&& is_index_of(blob.index(), start_idx, i)
    &&& blob.data_size() == block.len() + BLOB_HEADER_SIZE
    &&& blob.size == block.len() + BLOB_HEADER_SIZE
    &&& forall|b: int|
        0 <= b < block.len() ==> #[trigger] blob.data[BLOB_HEADER_SIZE + b] == block[b]
    &&& forall|b: int|
        16 <= b < 52 || 60 <= b < BLOB_HEADER_SIZE || BLOB_HEADER_SIZE + block.len() <= b
            < BLOB_SIZE ==> #[trigger] blob.data[b] == 0
}

/// What comes of the blocks of an erasure set. Each missing blob stands behind those of the
/// missing ones before it. Where a blob makes no sense, there are none, and all coding blobs of
/// the set are to be deleted.
pub open spec fn follows(
    set: SetView,
    slot: u64,
    start_idx: u64,
    size: nat,
    data: Seq<Seq<u8>>,
    coding: Seq<Seq<u8>>,
    recovery: RecoveryView,
) -> bool {
    if makes_no_sense(set, size, data) {
        &&& recovery.data.len() == 0
        &&& recovery.coding.len() == 0
        &&& recovery.stale_coding.len() == NUM_CODING
        &&& forall|i: int|
            0 <= i < NUM_CODING ==> is_index_of(#[trigger] recovery.stale_coding[i], start_idx, i)
    } else {
        &&& recovery.data.len() == all_gaps(set.data).len()
        &&& recovery.coding.len() == all_gaps(set.coding).len()
        &&& recovery.stale_coding.len() == 0
        &&& forall|j: int|
            0 <= j < NUM_DATA && set.data[j] is None ==> data_from_block(
                recovery.data[gaps(set.data, j).len() as int],
                #[trigger] data[j],
            )
        &&& forall|i: int|
            0 <= i < NUM_CODING && set.coding[i] is None ==> coding_from_block(
                recovery.coding[gaps(set.coding, i).len() as int],
                #[trigger] coding[i],
                slot,
                start_idx,
                i,
            )
    }
}

/// The number of missing entries is the number of those that are `None`, and each stands in the
/// list of missing ones behind those before it.
pub proof fn lemma_gaps(entries: Seq<Option<Seq<u8>>>)
    ensures
        all_gaps(entries).finite(),
        missing_count(entries) == all_gaps(entries).len(),
        forall|j: int|
            0 <= j < entries.len() && (#[trigger] entries[j]) is None ==> {
                &&& gaps(entries, j).len() < missing_count(entries)
                &&& positions(missing(entries))[gaps(entries, j).len() as int] == j
            },
{
    let flags: Seq<bool> = missing(entries);
    lemma_positions_count(flags);
    assert(all_gaps(entries) =~= set_below(flags, flags.len() as int));
    assert forall|j: int| 0 <= j < entries.len() && (#[trigger] entries[j]) is None implies {
        &&& gaps(entries, j).len() < missing_count(entries)
        &&& positions(missing(entries))[gaps(entries, j).len() as int] == j
    } by {
        assert(flags[j]);
        assert(gaps(entries, j) =~= set_below(flags, j));
    }
}

/// When an erasure set can be recovered, in terms of its entries: which are missing, and how
/// long the stored ones are.
pub proof fn lemma_set_in_entries(set: SetView)
    ensures
        set.recoverable() <==> 0 < all_gaps(set.data).len() && all_gaps(set.data).len() + all_gaps(
            set.coding,
        ).len() <= NUM_CODING,
        set.valid() <==> storable(set.data) && storable(set.coding),
        forall|first: int| #[trigger]
            first_there(set, first) ==> set.coded_size() == set.coding[first]->0.len()
                - BLOB_HEADER_SIZE,
{
    lemma_gaps(set.data);
    lemma_gaps(set.coding);
    assert forall|first: int| #[trigger] first_there(set, first) implies set.coded_size()
        == set.coding[first]->0.len() - BLOB_HEADER_SIZE by {
        let there: Seq<bool> = inverted(missing(set.coding));
        lemma_positions_count(there);
        assert(there[first]);
        assert(set_below(there, first) =~= Set::empty()) by {
            assert forall|i: int| !set_below(there, first).contains(i) by {
                if 0 <= i < first {
                    assert(set.coding[i] is None);
                }
            }
        }
    }
}

/// What recovering comes to, in terms of the entries: with no data missing, there is nothing to
/// do. As many blobs as there are coding blobs can be missing, whichever they are, and no more.
/// A stored entry of a wrong length is refused, if it comes to that, and else it succeeds.
pub proof fn lemma_recovery_succeeds(
    set: SetView,
    slot: u64,
    start_idx: u64,
    outcome: Result<RecoveryView, ErasureError>,
)
    requires
        recovers_to(set, slot, start_idx, outcome),
    ensures
        ({
            let data_gaps: nat = all_gaps(set.data).len();
            let coding_gaps: nat = all_gaps(set.coding).len();
            &&& data_gaps == 0 ==> {
                &&& outcome is Ok
                &&& outcome->Ok_0.data.len() == 0
                &&& outcome->Ok_0.coding.len() == 0
                &&& outcome->Ok_0.stale_coding.len() == 0
            }
            &&& outcome == Err::<RecoveryView, ErasureError>(ErasureError::NotEnoughBlocksToDecode)
                <==> data_gaps > 0 && data_gaps + coding_gaps > NUM_CODING
            &&& outcome == Err::<RecoveryView, ErasureError>(ErasureError::InvalidBlobData)
                <==> data_gaps > 0 && data_gaps + coding_gaps <= NUM_CODING && !(storable(set.data)
                && storable(set.coding))
            &&& outcome is Ok <==> data_gaps == 0 || (data_gaps + coding_gaps <= NUM_CODING
                && storable(set.data) && storable(set.coding))
        }),
{
    lemma_set_in_entries(set);
    lemma_gaps(set.data);
    lemma_gaps(set.coding);
}

/// What `recover` asks of an erasure set, in terms of the entries: where blobs are to be
/// recovered, the first coding entry that is there holds an aligned block.
pub proof fn lemma_alignment_in_entries(set: SetView, first: int)
    requires
        first_there(set, first),
    ensures
        (set.recoverable() && set.valid() ==> set.coded_size() % JERASURE_ALIGN as int == 0) <==> (
        0 < all_gaps(set.data).len() && all_gaps(set.data).len() + all_gaps(set.coding).len()
            <= NUM_CODING && storable(set.data) && storable(set.coding) ==> (
        set.coding[first]->0.len() - BLOB_HEADER_SIZE) % JERASURE_ALIGN as int == 0),
{
    lemma_set_in_entries(set);
}

/// The number of coding entries that are there before entry `i`.
proof fn lemma_there_before(entries: Seq<Option<Seq<u8>>>, i: int)
    requires
        0 <= i <= entries.len(),
    ensures
        Set::new(|h: int| 0 <= h < i && !missing(entries)[h]).finite(),
        gaps(entries, i).len() + Set::new(|h: int| 0 <= h < i && !missing(entries)[h]).len() == i,
    decreases i,
{
    let there: Set<int> = Set::new(|h: int| 0 <= h < i && !missing(entries)[h]);
    if i == 0 {
        assert(there =~= Set::empty());
        assert(gaps(entries, 0) =~= Set::empty());
    } else {
        let before: Set<int> = Set::new(|h: int| 0 <= h < i - 1 && !missing(entries)[h]);
        lemma_there_before(entries, i - 1);
        lemma_gaps(entries.take(i - 1));
        assert(all_gaps(entries.take(i - 1)) =~= gaps(entries, i - 1));
        if entries[i - 1] is None {
            assert(gaps(entries, i) =~= gaps(entries, i - 1).insert(i - 1));
            assert(there =~= before);
        } else {
            assert(there =~= before.insert(i - 1));
            assert(gaps(entries, i) =~= gaps(entries, i - 1));
        }
    }
}

proof fn lemma_data_from_block(block: Seq<u8>)
    requires
        block.len() <= BLOB_SIZE - BLOB_HEADER_SIZE,
    ensures
        data_blob(block).data_size() == size_field(block),
        !impossible_size(size_field(block)) ==> data_from_block(recovered_data_blob(block), block),
{
    let b: BlobView = data_blob(block);
    lemma_header_bytes(b);
    assert(b.data[52] == byte_or_zero(block, 52) && b.data[53] == byte_or_zero(block, 53));
    assert(b.data[54] == byte_or_zero(block, 54) && b.data[55] == byte_or_zero(block, 55));
    assert(b.data[56] == byte_or_zero(block, 56) && b.data[57] == byte_or_zero(block, 57));
    assert(b.data[58] == byte_or_zero(block, 58) && b.data[59] == byte_or_zero(block, 59));
    if !impossible_size(size_field(block)) {
        let field: Seq<u8> = b.data.subrange(SIZE_OFFSET as int, SIZE_OFFSET + 8);
        let size: nat = (b.data_size() - BLOB_HEADER_SIZE) as nat;
        lemma_le_limits();
        lemma_le_value(field);
        lemma_with_size(b, size);
        let new: BlobView = recovered_data_blob(block);
        assert(new == b.with_size(size));
        assert forall|x: int| 0 <= x < BLOB_SIZE implies #[trigger] new.data[x] == byte_or_zero(
            block,
            x,
        ) by {
            assert(b.data[x] == byte_or_zero(block, x));
            if SIZE_OFFSET <= x < SIZE_OFFSET + 8 {
                assert(field[x - SIZE_OFFSET] == b.data[x]);
            }
        }
    }
}

proof fn lemma_coding_from_block(block: Seq<u8>, slot: u64, start_idx: u64, i: int)
    requires
        block.len() <= BLOB_SIZE - BLOB_HEADER_SIZE,
        block_end(start_idx as int) <= u64::MAX,
        0 <= i < NUM_CODING,
    ensures
        is_index_of((coding_start(start_idx as int) + i) as u64, start_idx, i),
        coding_from_block(
            recovered_coding_blob(block, slot, (coding_start(start_idx as int) + i) as u64),
            block,
            slot,
            start_idx,
            i,
        ),
{
    lemma_block_holds_index(start_idx as int);
    let index: u64 = (coding_start(start_idx as int) + i) as u64;
    assert(is_index_of(index, start_idx, i)) by {
        let s: int = start_idx as int;
        assert(NUM_DATA as u64 == 16);
        assert(s == 16 * (s / 16) + s % 16);
        assert(index == 16 * (s / 16) + 12 + i);
    }
    let b0: BlobView = BlobView::blank().with_bytes(BLOB_HEADER_SIZE as int, block);
    let b1: BlobView = b0.with_slot(slot);
    let b2: BlobView = b1.with_index(index);
    let b3: BlobView = b2.with_size(block.len());
    lemma_with_slot(b0, slot);
    lemma_with_index(b1, index);
    lemma_with_size(b2, block.len());
    assert(recovered_coding_blob(block, slot, index) == b3);
    assert forall|x: int| 0 <= x < block.len() implies #[trigger] b3.data[BLOB_HEADER_SIZE + x]
        == block[x] by {
        let y: int = BLOB_HEADER_SIZE + x;
        assert(b3.data[y] == b2.data[y] && b2.data[y] == b1.data[y] && b1.data[y] == b0.data[y]);
    }
    assert forall|y: int|
        16 <= y < 52 || 60 <= y < BLOB_HEADER_SIZE || BLOB_HEADER_SIZE + block.len() <= y
            < BLOB_SIZE implies #[trigger] b3.data[y] == 0 by {
        assert(b3.data[y] == b2.data[y] && b2.data[y] == b1.data[y] && b1.data[y] == b0.data[y]);
    }
}

/// What recovering gives, whatever the entries hold: the missing blobs follow from blocks that
/// complete those of the stored entries.
pub proof fn lemma_recovered_blobs(
    set: SetView,
    slot: u64,
    start_idx: u64,
    first: int,
    size: nat,
    outcome: Result<RecoveryView, ErasureError>,
)
    requires
        set.data.len() == NUM_DATA,
        set.coding.len() == NUM_CODING,
        0 < all_gaps(set.data).len(),
        all_gaps(set.data).len() + all_gaps(set.coding).len() <= NUM_CODING,
        storable(set.data),
        storable(set.coding),
        first_there(set, first),
        size + BLOB_HEADER_SIZE == set.coding[first]->0.len(),
        start_idx / (NUM_DATA as u64) < u64::MAX / (NUM_DATA as u64),
        recovers_to(set, slot, start_idx, outcome),
    ensures
        outcome is Ok,
        exists|data: Seq<Seq<u8>>, coding: Seq<Seq<u8>>|
            {
                &&& #[trigger] completes(set, size, data, coding)
                &&& follows(set, slot, start_idx, size, data, coding, outcome->Ok_0)
            },
{
    lemma_set_in_entries(set);
    lemma_recovery_succeeds(set, slot, start_idx, outcome);
    lemma_gaps(set.data);
    lemma_gaps(set.coding);
    lemma_block_holds_index(start_idx as int);
    assert(block_end(start_idx as int) <= u64::MAX) by {
        let s: int = start_idx as int;
        assert(NUM_DATA as u64 == 16);
        assert(s == 16 * (s / 16) + s % 16);
        assert(s / 16 < u64::MAX / 16);
    }
    let (data, coding): (Seq<Seq<u8>>, Seq<Seq<u8>>) = choose|
        data: Seq<Seq<u8>>,
        coding: Seq<Seq<u8>>,
    | #[trigger]
        set.restored_to(data, coding) && outcome == Ok::<RecoveryView, ErasureError>(
            recovery_of(set, slot, start_idx, data, coding),
        );
    let recovery: RecoveryView = outcome->Ok_0;
    let (lost_data, lost_coding): (Seq<bool>, Seq<bool>) = (
        missing(set.data),
        missing(set.coding),
    );
    let (d, c): (Seq<Seq<u8>>, Seq<Seq<u8>>) = (
        set.data_blocks(size as int),
        set.coding_blocks(size as int),
    );
    assert(set.coded_size() == size);
    assert(size <= BLOB_SIZE - BLOB_HEADER_SIZE) by {
        assert(set.coding[first]->0.len() <= BLOB_SIZE);
    }
    assert forall|j: int| 0 <= j < NUM_DATA implies (#[trigger] data[j]).len() == size by {
        assert(d[j].len() == size);
    }
    assert forall|i: int| 0 <= i < NUM_CODING implies (#[trigger] coding[i]).len() == size by {
        assert(c[i].len() == size);
    }
    assert(completes(set, size, data, coding)) by {
        assert forall|j: int, b: int|
            0 <= j < NUM_DATA && set.data[j] is Some && 0 <= b < size implies #[trigger] data[j][b]
            == byte_or_zero(set.data[j]->0, b) by {
            assert(data[j] == d[j]);
        }
        assert forall|i: int, b: int|
            0 <= i < NUM_CODING && set.coding[i] is Some && 0 <= b
                < size implies #[trigger] coding[i][b] == byte_or_zero(
            set.coding[i]->0,
            BLOB_HEADER_SIZE + b,
        ) by {
            assert(coding[i] == c[i]);
        }
        assert(all_gaps(set.data) =~= Set::new(|j: int| 0 <= j < d.len() && lost_data[j]));
        assert(all_gaps(set.coding) =~= Set::new(|h: int| 0 <= h < c.len() && lost_coding[h]));
        assert forall|i: int|
            0 <= i < NUM_CODING && (set.coding[i] is None || i - gaps(set.coding, i).len()
                < all_gaps(set.data).len()) implies is_coding_block(
            #[trigger] coding[i],
            data,
            NUM_CODING as nat,
            i,
        ) by {
            if set.coding[i] is None {
                lemma_lost_coding_restored(d, c, lost_data, lost_coding, data, coding, i);
            } else {
                lemma_there_before(set.coding, i);
                lemma_first_rows_used(d, c, lost_data, lost_coding, data, coding, i);
            }
        }
    }
    assert forall|j: int| 0 <= j < NUM_DATA implies {
        &&& data_blob(#[trigger] data[j]).data_size() == size_field(data[j])
        &&& !impossible_size(size_field(data[j])) ==> data_from_block(
            recovered_data_blob(data[j]),
            data[j],
        )
    } by {
        lemma_data_from_block(data[j]);
    }
    let ps: Seq<int> = positions(lost_data);
    lemma_positions_of(set.data);
    assert(corrupt(set, data) <==> makes_no_sense(set, size, data)) by {
        if makes_no_sense(set, size, data) && !(all_gaps(set.coding).len() > 0 && impossible_size(
            size as int,
        )) {
            let j: int = choose|j: int|
                0 <= j < NUM_DATA && set.data[j] is None && impossible_size(
                    size_field(#[trigger] data[j]),
                );
            let p: int = gaps(set.data, j).len() as int;
            assert(ps[p] == j);
            assert(corrupt_size(data_blob(data[ps[p]]).data_size() as int));
        }
        if corrupt(set, data) && !(missing_count(set.coding) > 0 && corrupt_size(
            set.coded_size(),
        )) {
            let p: int = choose|p: int|
                0 <= p < ps.len() && corrupt_size(
                    data_blob(data[#[trigger] ps[p]]).data_size() as int,
                );
            assert(set.data[ps[p]] is None);
            assert(impossible_size(size_field(data[ps[p]])));
        }
    }
    assert forall|i: int| 0 <= i < NUM_CODING implies is_index_of(
        #[trigger] ((coding_start(start_idx as int) + i) as u64),
        start_idx,
        i,
    ) by {
        lemma_coding_from_block(Seq::empty(), slot, start_idx, i);
    }
    if makes_no_sense(set, size, data) {
        assert forall|i: int| 0 <= i < NUM_CODING implies is_index_of(
            #[trigger] recovery.stale_coding[i],
            start_idx,
            i,
        ) by {
            assert(is_index_of((coding_start(start_idx as int) + i) as u64, start_idx, i));
        }
    } else {
        assert forall|j: int| 0 <= j < NUM_DATA && set.data[j] is None implies data_from_block(
            recovery.data[gaps(set.data, j).len() as int],
            #[trigger] data[j],
        ) by {
            let p: int = gaps(set.data, j).len() as int;
            assert(ps[p] == j);
            assert(recovery.data[p] == recovered_data_blob(data[j]));
            assert(!impossible_size(size_field(data[j])));
        }
        assert forall|i: int| 0 <= i < NUM_CODING && set.coding[i] is None implies coding_from_block(
            recovery.coding[gaps(set.coding, i).len() as int],
            #[trigger] coding[i],
            slot,
            start_idx,
            i,
        ) by {
            let p: int = gaps(set.coding, i).len() as int;
            assert(positions(lost_coding)[p] == i);
            lemma_coding_from_block(coding[i], slot, start_idx, i);
        }
    }
    assert(follows(set, slot, start_idx, size, data, coding, recovery));
}

proof fn lemma_positions_of(entries: Seq<Option<Seq<u8>>>)
    ensures
        forall|p: int|
            0 <= p < positions(missing(entries)).len() ==> {
                &&& 0 <= #[trigger] positions(missing(entries))[p] < entries.len()
                &&& entries[positions(missing(entries))[p]] is None
            },
{
    lemma_positions(missing(entries));
    assert forall|p: int| 0 <= p < positions(missing(entries)).len() implies {
        &&& 0 <= #[trigger] positions(missing(entries))[p] < entries.len()
        &&& entries[positions(missing(entries))[p]] is None
    } by {
        assert(missing(entries)[positions(missing(entries))[p]]);
    }
}

/// An entry holds the bytes of a blob that are in use, or is missing.
pub open spec fn entry_of(entry: Option<Seq<u8>>, blob: BlobView) -> bool {
    entry is Some ==> {
        &&& entry->0.len() == blob.size
        &&& forall|b: int| 0 <= b < blob.size ==> #[trigger] entry->0[b] == blob.data[b]
    }
}

/// Lost blobs come back. A window is coded, and of a coded block the bytes in use of its blobs
/// are stored. As long as no more of the entries are missing than there are coding blobs,
/// whichever they are, recovering gives the missing data blobs as they were before coding, up to
/// their size, with zeros behind it. It gives the missing coding blobs with the coding blocks
/// that were generated, under the slot that is given and the index of the missing entry. Each
/// stands behind those of the missing ones before it, and nothing is found to be corrupt.
pub proof fn lemma_lost_blobs_come_back(
    set: SetView,
    window: Seq<SlotView>,
    start: int,
    limit: int,
    block: int,
    slot: u64,
    start_idx: u64,
    outcome: Result<RecoveryView, ErasureError>,
)
    requires
        window.len() > 0,
        codable(window, start, limit),
        block_of_range(start, block, limit),
        present(window, start, block + NUM_DATA),
        forall|i: int|
            block <= i < block + NUM_DATA ==> {
                let blob: BlobView = (#[trigger] ring(window, i)).data->0;
                &&& blob.data.len() == BLOB_SIZE
                &&& blob.data_size() == blob.size
                &&& blob.size >= BLOB_HEADER_SIZE
            },
        set.data.len() == NUM_DATA,
        set.coding.len() == NUM_CODING,
        forall|j: int|
            0 <= j < NUM_DATA ==> {
                let blob: BlobView = ring(generated(window, start, limit), block + j).data->0;
                &&& entry_of(#[trigger] set.data[j], blob)
                &&& set.data[j] is Some ==> blob.size > BLOB_HEADER_SIZE
            },
        forall|i: int|
            0 <= i < NUM_CODING ==> entry_of(
                #[trigger] set.coding[i],
                ring(generated(window, start, limit), block + NUM_DATA - NUM_CODING + i).coding->0,
            ),
        0 < all_gaps(set.data).len(),
        all_gaps(set.data).len() + all_gaps(set.coding).len() <= NUM_CODING,
        start_idx / (NUM_DATA as u64) < u64::MAX / (NUM_DATA as u64),
        recovers_to(set, slot, start_idx, outcome),
    ensures
        outcome is Ok,
        outcome->Ok_0.data.len() == all_gaps(set.data).len(),
        outcome->Ok_0.coding.len() == all_gaps(set.coding).len(),
        outcome->Ok_0.stale_coding.len() == 0,
        forall|j: int|
            0 <= j < NUM_DATA && (#[trigger] set.data[j]) is None ==> {
                let before: BlobView = ring(window, block + j).data->0;
                let blob: BlobView = outcome->Ok_0.data[gaps(set.data, j).len() as int];
                &&& blob.size == before.size
                &&& blob.data.len() == BLOB_SIZE
                &&& forall|b: int|
                    0 <= b < BLOB_SIZE ==> #[trigger] blob.data[b] == (if b < before.size {
                        before.data[b]
                    } else {
                        0
                    })
            },
        forall|i: int|
            0 <= i < NUM_CODING && (#[trigger] set.coding[i]) is None ==> {
                let before: BlobView = ring(
                    generated(window, start, limit),
                    block + NUM_DATA - NUM_CODING + i,
                ).coding->0;
                let blob: BlobView = outcome->Ok_0.coding[gaps(set.coding, i).len() as int];
                &&& blob.data.len() == BLOB_SIZE
                &&& blob.slot() == slot
                &&& is_index_of(blob.index(), start_idx, i)
                &&& blob.size == before.size
                &&& blob.data_size() == before.size
                &&& forall|b: int|
                    BLOB_HEADER_SIZE <= b < before.size ==> #[trigger] blob.data[b]
                        == before.data[b]
                &&& forall|b: int|
                    16 <= b < 52 || 60 <= b < BLOB_HEADER_SIZE || before.size <= b < BLOB_SIZE
                        ==> #[trigger] blob.data[b] == 0
            },
{
    let len: int = window.len() as int;
    let g: Seq<SlotView> = generated(window, start, limit);
    lemma_gaps(set.data);
    lemma_gaps(set.coding);
    lemma_set_in_entries(set);
    lemma_generated_keeps(window, start, limit);
    lemma_block_holds_index(start_idx as int);
    assert(block_end(start_idx as int) <= u64::MAX) by {
        let s: int = start_idx as int;
        assert(NUM_DATA as u64 == 16);
        assert(s == 16 * (s / 16) + s % 16);
        assert(s / 16 < u64::MAX / 16);
    }
    assert forall|i: int| start <= i < block + NUM_DATA implies {
        &&& #[trigger] slot_at(window, i) == ring(window, i)
        &&& slot_at(g, i) == ring(g, i)
        &&& slot_at(window, i).data is Some
    } by {
        lemma_spot(i, len);
        assert(ring(window, i).data is Some);
    }
    assert forall|i: int| block <= i < block + NUM_DATA implies {
        let blob: BlobView = (#[trigger] slot_at(window, i)).data->0;
        &&& blob.data.len() == BLOB_SIZE
        &&& blob.size >= BLOB_HEADER_SIZE
        &&& blob.data_size() == blob.size
    } by {
        assert(ring(window, i).data->0.data.len() == BLOB_SIZE);
    }
    assert(sound_block(window, block));
    lemma_headers_coded(window, block);
    lemma_generated_block(window, start, limit, block);
    assert forall|i: int| 0 <= i < NUM_CODING implies {
        let n: int = first_coding(block) + i;
        let code: Seq<u8> = #[trigger] coded_coding(window, block)[i];
        let blob: BlobView = slot_at(g, n).coding->0;
        &&& n == block + NUM_DATA - NUM_CODING + i
        &&& slot_at(g, n) == ring(g, n)
        &&& blob.data.len() == BLOB_SIZE
        &&& blob.size == code.len() + BLOB_HEADER_SIZE
        &&& BLOB_HEADER_SIZE < blob.size <= BLOB_SIZE
        &&& blob.data.subrange(BLOB_HEADER_SIZE as int, blob.size as int) == code
    } by {
        let n: int = first_coding(block) + i;
        assert(slot_at(window, n) == ring(window, n));
        assert(slot_at(window, n).data->0.data.len() == BLOB_SIZE);
        assert(slot_at(g, n).coding is Some);
        lemma_coding_blob(window, block, i);
        lemma_block_size(window, block);
    }
    assert(stored_from(set, g, block)) by {
        assert forall|j: int| 0 <= j < NUM_DATA && (#[trigger] set.data[j]) is Some implies
            set.data[j]->0 == in_use(slot_at(g, block + j).data->0) by {
            let n: int = block + j;
            lemma_spot(n, len);
            assert(slot_at(window, n) == ring(window, n));
            assert(kept(slot_at(window, n), slot_at(g, n)));
            assert(slot_at(window, n).data->0.data.len() == BLOB_SIZE);
            assert(slot_at(window, n).data->0.size <= BLOB_SIZE) by {
                lemma_block_size(window, block);
            }
            assert(set.data[j]->0 =~= in_use(slot_at(g, n).data->0));
        }
        assert forall|i: int| 0 <= i < NUM_CODING && (#[trigger] set.coding[i]) is Some implies
            set.coding[i]->0 == in_use(slot_at(g, first_coding(block) + i).coding->0) by {
            assert(coded_coding(window, block)[i].len() >= 0);
            assert(set.coding[i]->0 =~= in_use(slot_at(g, first_coding(block) + i).coding->0));
        }
    }
    lemma_generated_is_recovered(set, window, start, limit, block, slot, start_idx);
    assert(storable(set.data)) by {
        assert forall|j: int| 0 <= j < set.data.len() && (#[trigger] set.data[j]) is Some implies
            BLOB_HEADER_SIZE < set.data[j]->0.len() <= BLOB_SIZE by {
            let n: int = block + j;
            lemma_spot(n, len);
            assert(slot_at(window, n) == ring(window, n));
            assert(kept(slot_at(window, n), slot_at(g, n)));
            lemma_block_size(window, block);
        }
    }
    assert(storable(set.coding)) by {
        assert forall|i: int| 0 <= i < set.coding.len() && (#[trigger] set.coding[i]) is Some implies
            BLOB_HEADER_SIZE < set.coding[i]->0.len() <= BLOB_SIZE by {
            assert(coded_coding(window, block)[i].len() >= 0);
        }
    }
    let lost: RecoveryView = lost_blobs(set, window, block, slot, start_idx);
    assert(outcome == Ok::<RecoveryView, ErasureError>(lost));
    assert forall|j: int| 0 <= j < NUM_DATA && (#[trigger] set.data[j]) is None implies {
        let before: BlobView = ring(window, block + j).data->0;
        let blob: BlobView = lost.data[gaps(set.data, j).len() as int];
        &&& blob.size == before.size
        &&& blob.data.len() == BLOB_SIZE
        &&& forall|b: int|
            0 <= b < BLOB_SIZE ==> #[trigger] blob.data[b] == (if b < before.size {
                before.data[b]
            } else {
                0
            })
    } by {
        let p: int = gaps(set.data, j).len() as int;
        let before: BlobView = ring(window, block + j).data->0;
        assert(positions(missing(set.data))[p] == j);
        assert(slot_at(window, block + j) == ring(window, block + j));
        assert(lost.data[p] == reloaded(before));
        assert(before.data.len() == BLOB_SIZE);
        lemma_block_size(window, block);
        assert(slot_at(window, block + j).data->0.size <= BLOB_SIZE);
    }
    assert forall|i: int| 0 <= i < NUM_CODING && (#[trigger] set.coding[i]) is None implies {
        let before: BlobView = ring(g, block + NUM_DATA - NUM_CODING + i).coding->0;
        let blob: BlobView = lost.coding[gaps(set.coding, i).len() as int];
        &&& blob.data.len() == BLOB_SIZE
        &&& blob.slot() == slot
        &&& is_index_of(blob.index(), start_idx, i)
        &&& blob.size == before.size
        &&& blob.data_size() == before.size
        &&& forall|b: int|
            BLOB_HEADER_SIZE <= b < before.size ==> #[trigger] blob.data[b] == before.data[b]
        &&& forall|b: int|
            16 <= b < 52 || 60 <= b < BLOB_HEADER_SIZE || before.size <= b < BLOB_SIZE
                ==> #[trigger] blob.data[b] == 0
    } by {
        let p: int = gaps(set.coding, i).len() as int;
        let code: Seq<u8> = coded_coding(window, block)[i];
        let before: BlobView = slot_at(g, first_coding(block) + i).coding->0;
        assert(positions(missing(set.coding))[p] == i);
        assert(code.len() >= 0);
        lemma_coding_from_block(code, slot, start_idx, i);
        let blob: BlobView = lost.coding[p];
        assert forall|b: int| BLOB_HEADER_SIZE <= b < before.size implies #[trigger] blob.data[b]
            == before.data[b] by {
            let x: int = b - BLOB_HEADER_SIZE;
            assert(blob.data[BLOB_HEADER_SIZE + x] == code[x]);
            assert(before.data.subrange(BLOB_HEADER_SIZE as int, before.size as int)[x]
                == before.data[b]);
        }
    }
}

/// The views of an erasure set, of a recovery and of a result show all that is in them.
pub proof fn lemma_recovery_views(
    set: ErasureSet,
    recovery: Recovery,
    result: Result<Recovery, ErasureError>,
)
    ensures
        set@.data.len() == set.data@.len(),
        set@.coding.len() == set.coding@.len(),
        forall|j: int|
            0 <= j < set.data@.len() ==> {
                &&& (#[trigger] set@.data[j]) is Some <==> set.data@[j] is Some
                &&& set.data@[j] is Some ==> set@.data[j]->0 == set.data@[j]->0@
            },
        forall|i: int|
            0 <= i < set.coding@.len() ==> {
                &&& (#[trigger] set@.coding[i]) is Some <==> set.coding@[i] is Some
                &&& set.coding@[i] is Some ==> set@.coding[i]->0 == set.coding@[i]->0@
            },
        set.wf() <==> set.data@.len() == NUM_DATA && set.coding@.len() == NUM_CODING,
        recovery@.data.len() == recovery.data@.len(),
        recovery@.coding.len() == recovery.coding@.len(),
        forall|p: int|
            0 <= p < recovery.data@.len() ==> #[trigger] recovery@.data[p] == recovery.data@[p]@,
        forall|p: int|
            0 <= p < recovery.coding@.len() ==> #[trigger] recovery@.coding[p]
                == recovery.coding@[p]@,
        recovery@.stale_coding == recovery.stale_coding@,
        match result {
            Ok(r) => outcome(result) == Ok::<RecoveryView, ErasureError>(r@),
            Err(e) => outcome(result) == Err::<RecoveryView, ErasureError>(e),
        },
{
}

} // verus!
