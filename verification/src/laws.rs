//! What coding and recovery promise together.
use vstd::prelude::*;

use crate::blocks::{
    all_of_len, encoded, is_codeword, is_coding_block, lemma_encoded, JERASURE_ALIGN,
};
use crate::decode::{lemma_restored_is_encoded, lemma_restored_unique};
use crate::endian::{le_value, lemma_le_limits, lemma_le_value};
use crate::error::ErasureError;
use crate::layout::{block_end, block_start, coding_start, NUM_CODING, NUM_DATA};
use crate::packet::{
    lemma_with_flags, lemma_with_id, lemma_with_index, lemma_with_size, lemma_with_slot, loaded,
    BlobView, BLOB_FLAG_IS_CODING, BLOB_HEADER_SIZE, BLOB_SIZE, SIZE_OFFSET,
};
use crate::positions::{inverted, lemma_positions, lemma_positions_inverted, positions};
use crate::recovery::{
    corrupt, data_blob, missing, missing_count, recovered_coding_blob, recovered_data_blob,
    recovers_to, recovery_of, valid_entry, RecoveryView, SetView,
};
use crate::window::{
    all_kept, block_ready, block_size, codable, code_block, coded_blob, coded_data, codes_block,
    coding_blob, coding_header, coding_index, covers, first_coding, generated, has_data, kept,
    lemma_code_block_keeps, lemma_generated_keeps, lemma_kept_max_size, lemma_places_differ,
    max_size, place, slot_at, zero_tail, SlotView,
};

verus! {

/// The bytes of a blob that are in use.
pub open spec fn in_use(blob: BlobView) -> Seq<u8> {
    blob.data.take(blob.size as int)
}

/// The blob with nothing behind the bytes in use.
pub open spec fn reloaded(blob: BlobView) -> BlobView {
    BlobView { data: loaded(in_use(blob)), size: blob.size }
}

/// What an erasure set holds are blobs of the window's block at `start`.
pub open spec fn stored_from(set: SetView, window: Seq<SlotView>, start: int) -> bool {
    &&& set.data.len() == NUM_DATA
    &&& set.coding.len() == NUM_CODING
    &&& forall|j: int|
        0 <= j < NUM_DATA && (#[trigger] set.data[j]) is Some ==> set.data[j]->0 == in_use(
            slot_at(window, start + j).data->0,
        )
    &&& forall|i: int|
        0 <= i < NUM_CODING && (#[trigger] set.coding[i]) is Some ==> set.coding[i]->0 == in_use(
            slot_at(window, first_coding(start) + i).coding->0,
        )
}

/// The data blobs of the block at `start` have their fixed size, and their headers are in
/// use.
pub open spec fn sized_block(window: Seq<SlotView>, start: int) -> bool {
    forall|i: int|
        start <= i < start + NUM_DATA ==> {
            let blob: BlobView = (#[trigger] slot_at(window, i)).data->0;
            &&& blob.data.len() == BLOB_SIZE
            &&& blob.size >= BLOB_HEADER_SIZE
        }
}

/// The data blobs of the block at `start` have their fixed size.
pub open spec fn whole_block(window: Seq<SlotView>, start: int) -> bool {
    forall|i: int|
        start <= i < start + NUM_DATA ==> (#[trigger] slot_at(window, i)).data->0.data.len()
            == BLOB_SIZE
}

/// The data blobs of the block at `start` have their fixed size, and their headers lie within
/// the coded blocks.
pub open spec fn headers_coded(window: Seq<SlotView>, start: int) -> bool {
    &&& whole_block(window, start)
    &&& block_size(window, start) >= BLOB_HEADER_SIZE
}

/// The headers of the data blobs of the block at `start` give the size in use.
pub open spec fn sound_block(window: Seq<SlotView>, start: int) -> bool {
    &&& sized_block(window, start)
    &&& forall|i: int|
        start <= i < start + NUM_DATA ==> (#[trigger] slot_at(window, i)).data->0.data_size()
            == slot_at(window, i).data->0.size
}

/// The coding blocks of the block at `start`.
pub open spec fn coded_coding(window: Seq<SlotView>, start: int) -> Seq<Seq<u8>> {
    Seq::new(
        NUM_CODING as nat,
        |i: int|
            encoded(coded_data(window, start), NUM_CODING as nat, i, block_size(window, start)),
    )
}

/// What is to be recovered of an erasure set that holds blobs of the block at `start`.
pub open spec fn lost_blobs(
    set: SetView,
    window: Seq<SlotView>,
    start: int,
    slot: u64,
    start_idx: u64,
) -> RecoveryView {
    RecoveryView {
        data: Seq::new(
            missing_count(set.data),
            |p: int| reloaded(slot_at(window, start + positions(missing(set.data))[p]).data->0),
        ),
        coding: Seq::new(
            missing_count(set.coding),
            |p: int|
                {
                    let i: int = positions(missing(set.coding))[p];
                    recovered_coding_blob(
                        coded_coding(window, start)[i],
                        slot,
                        (coding_start(start_idx as int) + i) as u64,
                    )
                },
        ),
        stale_coding: Seq::empty(),
    }
}

/// No data blob is larger than the largest.
proof fn lemma_max_size(window: Seq<SlotView>, start: int, count: nat)
    ensures
        forall|i: int|
            start <= i < start + count ==> (#[trigger] slot_at(window, i)).data->0.size <= max_size(
                window,
                start,
                count,
            ),
    decreases count,
{
    if count > 0 {
        lemma_max_size(window, start, (count - 1) as nat);
    }
}

/// The size of the coded blocks covers all data blobs and is aligned.
pub(crate) proof fn lemma_block_size(window: Seq<SlotView>, start: int)
    requires
        block_ready(window, start),
    ensures
        block_size(window, start) % JERASURE_ALIGN as nat == 0,
        block_size(window, start) <= BLOB_SIZE - BLOB_HEADER_SIZE,
        forall|i: int|
            start <= i < start + NUM_DATA ==> (#[trigger] slot_at(window, i)).data->0.size
                <= block_size(window, start),
{
    lemma_max_size(window, start, NUM_DATA as nat);
}

/// Where the headers of the data blobs are in use, they lie within the coded blocks.
pub proof fn lemma_headers_coded(window: Seq<SlotView>, start: int)
    requires
        sized_block(window, start),
    ensures
        headers_coded(window, start),
{
    lemma_max_size(window, start, NUM_DATA as nat);
    assert(slot_at(window, start).data->0.size >= BLOB_HEADER_SIZE);
}

/// The slots of the block at `start` after it is coded.
pub(crate) proof fn lemma_code_block(window: Seq<SlotView>, start: int)
    requires
        has_data(window, start),
        block_ready(window, start),
    ensures
        code_block(window, start).len() == window.len(),
        forall|i: int|
            start <= i < start + NUM_DATA ==> {
                &&& (#[trigger] slot_at(code_block(window, start), i)).data == Some(
                    coded_blob(window, start, i - start),
                )
                &&& first_coding(start) <= i ==> slot_at(code_block(window, start), i).coding
                    == Some(coding_blob(window, start, i - first_coding(start)))
            },
{
    let len: int = window.len() as int;
    let first: int = first_coding(start);
    assert forall|i: int| start <= i < start + NUM_DATA implies {
        &&& (#[trigger] slot_at(code_block(window, start), i)).data == Some(
            coded_blob(window, start, i - start),
        )
        &&& first <= i ==> slot_at(code_block(window, start), i).coding == Some(
            coding_blob(window, start, i - first),
        )
    } by {
        let p: int = place(i, len);
        assert(0 <= p < len);
        assert(covers(start, start + NUM_DATA, len, p));
        if first <= i {
            assert(covers(first, start + NUM_DATA, len, p));
            let c: int = coding_index(start, len, p);
            assert(first <= c < start + NUM_DATA && place(c, len) == p);
            if c < i {
                lemma_places_differ(c, i, len);
            } else if i < c {
                lemma_places_differ(i, c, len);
            }
        }
    }
}

/// A coding blob carries slot, index and id of its data blob, is marked as a coding blob,
/// and its size and data are those of the coding block.
pub proof fn lemma_coding_blob(window: Seq<SlotView>, start: int, r: int)
    requires
        has_data(window, start),
        block_ready(window, start),
        0 <= r < NUM_CODING,
        slot_at(window, first_coding(start) + r).data->0.data.len() == BLOB_SIZE,
        slot_at(window, first_coding(start) + r).data->0.size >= BLOB_HEADER_SIZE,
    ensures
        ({
            let source: BlobView = slot_at(window, first_coding(start) + r).data->0;
            let blob: BlobView = coding_blob(window, start, r);
            let size: nat = block_size(window, start);
            &&& blob.slot() == source.slot()
            &&& blob.index() == source.index()
            &&& blob.id() == source.id()
            &&& blob.flags() == BLOB_FLAG_IS_CODING
            &&& blob.data_size() == size + BLOB_HEADER_SIZE
            &&& blob.size == size + BLOB_HEADER_SIZE
            &&& blob.data.len() == BLOB_SIZE
            &&& blob.data.subrange(BLOB_HEADER_SIZE as int, BLOB_HEADER_SIZE + size)
                == coded_coding(window, start)[r]
        }),
{
    let source: BlobView = slot_at(window, first_coding(start) + r).data->0;
    let size: nat = block_size(window, start);
    let coded: BlobView = coded_blob(window, start, NUM_DATA - NUM_CODING + r);
    lemma_block_size(window, start);
    let b0: BlobView = BlobView::blank();
    let b1: BlobView = b0.with_index(coded.index());
    let b2: BlobView = b1.with_slot(coded.slot());
    let b3: BlobView = b2.with_id(coded.id());
    let b4: BlobView = b3.with_size(size);
    let b5: BlobView = b4.with_flags(b4.flags() | BLOB_FLAG_IS_CODING);
    lemma_with_index(b0, coded.index());
    lemma_with_slot(b1, coded.slot());
    lemma_with_id(b2, coded.id());
    lemma_with_size(b3, size);
    lemma_with_flags(b4, b4.flags() | BLOB_FLAG_IS_CODING);
    assert(b0.flags() == 0) by {
        reveal_with_fuel(le_value, 5);
    }
    assert(0u32 | BLOB_FLAG_IS_CODING == BLOB_FLAG_IS_CODING) by (bit_vector);
    let block: Seq<u8> = coded_coding(window, start)[r];
    let blob: BlobView = coding_blob(window, start, r);
    assert(blob == b5.with_bytes(BLOB_HEADER_SIZE as int, block));
    assert forall|from: int, to: int| 0 <= from <= to <= BLOB_HEADER_SIZE implies {
        &&& #[trigger] blob.data.subrange(from, to) == b5.data.subrange(from, to)
        &&& coded.data.subrange(from, to) == source.data.subrange(from, to)
    } by {
        assert(blob.data.subrange(from, to) =~= b5.data.subrange(from, to));
        assert(coded.data.subrange(from, to) =~= source.data.subrange(from, to));
    }
    assert(blob.data.subrange(BLOB_HEADER_SIZE as int, BLOB_HEADER_SIZE + size) =~= block);
}

/// The coded blocks of a stored data blob and of a stored coding blob are those that were
/// coded.
proof fn lemma_stored_blocks(set: SetView, window: Seq<SlotView>, start: int)
    requires
        has_data(window, start),
        block_ready(window, start),
        sound_block(window, start),
        stored_from(set, code_block(window, start), start),
    ensures
        forall|j: int|
            0 <= j < NUM_DATA && set.data[j] is Some ==> #[trigger] set.data_blocks(
                block_size(window, start) as int,
            )[j] == coded_data(window, start)[j],
        forall|i: int|
            0 <= i < NUM_CODING && set.coding[i] is Some ==> #[trigger] set.coding_blocks(
                block_size(window, start) as int,
            )[i] == coded_coding(window, start)[i],
        forall|i: int|
            0 <= i < NUM_CODING && (#[trigger] set.coding[i]) is Some ==> set.coding[i]->0.len()
                == block_size(window, start) + BLOB_HEADER_SIZE,
{
    let size: nat = block_size(window, start);
    lemma_block_size(window, start);
    lemma_code_block(window, start);
    assert forall|j: int| 0 <= j < NUM_DATA && set.data[j] is Some implies #[trigger] set.data_blocks(
        size as int,
    )[j] == coded_data(window, start)[j] by {
        let blob: BlobView = slot_at(window, start + j).data->0;
        assert(slot_at(code_block(window, start), start + j).data == Some(
            coded_blob(window, start, j),
        ));
        assert(blob.data.len() == BLOB_SIZE);
        assert(set.data_blocks(size as int)[j] =~= coded_data(window, start)[j]);
    }
    assert forall|i: int| 0 <= i < NUM_CODING && (#[trigger] set.coding[i]) is Some implies {
        &&& set.coding[i]->0.len() == size + BLOB_HEADER_SIZE
        &&& set.coding_blocks(size as int)[i] == coded_coding(window, start)[i]
    } by {
        let first: int = first_coding(start);
        let blob: BlobView = coding_blob(window, start, i);
        assert(slot_at(code_block(window, start), first + i).coding == Some(blob));
        assert(slot_at(window, first + i).data->0.data.len() == BLOB_SIZE);
        lemma_coding_blob(window, start, i);
        assert(set.coding_blocks(size as int)[i] =~= blob.data.subrange(
            BLOB_HEADER_SIZE as int,
            BLOB_HEADER_SIZE + size,
        ));
    }
}

/// The size of the coded blocks is found in the first coding blob that is not missing.
pub proof fn lemma_coded_size(set: SetView, window: Seq<SlotView>, start: int)
    requires
        has_data(window, start),
        block_ready(window, start),
        sound_block(window, start),
        stored_from(set, code_block(window, start), start),
        missing_count(set.coding) < NUM_CODING,
    ensures
        set.coded_size() == block_size(window, start),
        set.coded_size() % JERASURE_ALIGN as int == 0,
{
    lemma_stored_blocks(set, window, start);
    lemma_block_size(window, start);
    let there: Seq<bool> = inverted(missing(set.coding));
    lemma_positions(there);
    lemma_positions_inverted(missing(set.coding));
    let i: int = positions(there)[0];
    assert(there[i]);
    assert(set.coding[i] is Some);
}

/// The blob that is recovered from the coded block of a data blob.
proof fn lemma_recovered_data_blob(blob: BlobView, size: nat)
    requires
        blob.data.len() == BLOB_SIZE,
        blob.data_size() == blob.size,
        BLOB_HEADER_SIZE <= blob.size <= size,
        size <= BLOB_SIZE - BLOB_HEADER_SIZE,
    ensures
        data_blob(zero_tail(blob, size).data.subrange(0, size as int)).data_size() == blob.size,
        recovered_data_blob(zero_tail(blob, size).data.subrange(0, size as int)) == reloaded(blob),
{
    let block: Seq<u8> = zero_tail(blob, size).data.subrange(0, size as int);
    let b: BlobView = data_blob(block);
    let field: Seq<u8> = blob.data.subrange(SIZE_OFFSET as int, SIZE_OFFSET + 8);
    assert(b.data.subrange(SIZE_OFFSET as int, SIZE_OFFSET + 8) =~= field);
    lemma_le_limits();
    lemma_le_value(field);
    assert(blob.size == le_value(field));
    let new: BlobView = recovered_data_blob(block);
    assert forall|i: int| 0 <= i < BLOB_SIZE implies #[trigger] new.data[i] == reloaded(blob).data[i] by {
        if SIZE_OFFSET <= i < SIZE_OFFSET + 8 {
            assert(field[i - SIZE_OFFSET] == blob.data[i]);
        }
    }
    assert(new.data =~= reloaded(blob).data);
}

/// Whatever blobs of a coded block go missing, as long as they are no more than coding
/// blobs, recovery gives back the missing data blobs, byte for byte up to their size, and
/// the coding blocks of the missing coding blobs.
pub proof fn lemma_coded_block_is_recovered(
    set: SetView,
    window: Seq<SlotView>,
    start: int,
    slot: u64,
    start_idx: u64,
    data: Seq<Seq<u8>>,
    coding: Seq<Seq<u8>>,
)
    requires
        has_data(window, start),
        block_ready(window, start),
        sound_block(window, start),
        stored_from(set, code_block(window, start), start),
        set.recoverable(),
        set.restored_to(data, coding),
    ensures
        recovery_of(set, slot, start_idx, data, coding) == lost_blobs(
            set,
            window,
            start,
            slot,
            start_idx,
        ),
{
    let size: nat = block_size(window, start);
    let d: Seq<Seq<u8>> = set.data_blocks(size as int);
    let c: Seq<Seq<u8>> = set.coding_blocks(size as int);
    let e: Seq<Seq<u8>> = coded_data(window, start);
    let f: Seq<Seq<u8>> = coded_coding(window, start);
    lemma_block_size(window, start);
    lemma_stored_blocks(set, window, start);
    lemma_coded_size(set, window, start);
    assert forall|j: int| 0 <= j < NUM_DATA implies (#[trigger] e[j]).len() == size by {
        assert(slot_at(window, start + j).data->0.data.len() == BLOB_SIZE);
    }
    assert(all_of_len(d, size));
    assert forall|i: int| 0 <= i < NUM_CODING implies (#[trigger] c[i]).len() == size by {
        if set.coding[i] is Some {
            assert(set.coding[i]->0.len() == size + BLOB_HEADER_SIZE);
        }
    }
    assert forall|i: int| 0 <= i < NUM_CODING implies is_coding_block(
        #[trigger] f[i],
        e,
        NUM_CODING as nat,
        i,
    ) by {
        lemma_encoded(f[i], e, NUM_CODING as nat, i);
    }
    assert(is_codeword(e, f));
    lemma_restored_is_encoded(
        d,
        c,
        missing(set.data),
        missing(set.coding),
        size,
        e,
        f,
        data,
        coding,
    );
    let lost_data: Seq<int> = positions(missing(set.data));
    lemma_positions(missing(set.data));
    lemma_positions(missing(set.coding));
    assert forall|p: int| 0 <= p < lost_data.len() implies {
        let j: int = #[trigger] lost_data[p];
        let blob: BlobView = slot_at(window, start + j).data->0;
        &&& 0 <= j < NUM_DATA
        &&& data_blob(data[j]).data_size() == blob.size
        &&& BLOB_HEADER_SIZE <= blob.size <= size
        &&& recovered_data_blob(data[j]) == reloaded(blob)
    } by {
        let j: int = lost_data[p];
        let blob: BlobView = slot_at(window, start + j).data->0;
        assert(blob.data.len() == BLOB_SIZE);
        lemma_recovered_data_blob(blob, size);
    }
    assert(!corrupt(set, data));
    let got: RecoveryView = recovery_of(set, slot, start_idx, data, coding);
    let want: RecoveryView = lost_blobs(set, window, start, slot, start_idx);
    assert(got.data =~= want.data);
    assert(got.coding =~= want.coding);
}

/// The blobs that recovery gives back are determined by the erasure set.
pub proof fn lemma_recovery_unique(
    set: SetView,
    slot: u64,
    start_idx: u64,
    data1: Seq<Seq<u8>>,
    coding1: Seq<Seq<u8>>,
    data2: Seq<Seq<u8>>,
    coding2: Seq<Seq<u8>>,
)
    requires
        set.data.len() == NUM_DATA,
        set.coding.len() == NUM_CODING,
        set.recoverable(),
        set.valid(),
        set.coded_size() % JERASURE_ALIGN as int == 0,
        set.restored_to(data1, coding1),
        set.restored_to(data2, coding2),
    ensures
        recovery_of(set, slot, start_idx, data1, coding1) == recovery_of(
            set,
            slot,
            start_idx,
            data2,
            coding2,
        ),
{
    let there: Seq<bool> = inverted(missing(set.coding));
    lemma_positions(there);
    lemma_positions_inverted(missing(set.coding));
    let i: int = positions(there)[0];
    assert(there[i]);
    assert(valid_entry(set.coding[i]));
    let size: int = set.coded_size();
    let d: Seq<Seq<u8>> = set.data_blocks(size);
    let c: Seq<Seq<u8>> = set.coding_blocks(size);
    assert(all_of_len(d, size as nat));
    assert(all_of_len(c, size as nat));
    lemma_restored_unique(
        d,
        c,
        missing(set.data),
        missing(set.coding),
        size as nat,
        data1,
        coding1,
        data2,
        coding2,
    );
}

/// Which index of a block is given to recovery does not matter: the bounds of the erasure set
/// and what a ledger holds of it are the same, and so is what comes of recovering it, be it
/// blobs, an error or coding blobs to delete.
pub proof fn lemma_recovery_depends_on_block(
    set: SetView,
    slot: u64,
    start_idx1: u64,
    start_idx2: u64,
    outcome1: Result<RecoveryView, ErasureError>,
    outcome2: Result<RecoveryView, ErasureError>,
)
    requires
        set.data.len() == NUM_DATA,
        set.coding.len() == NUM_CODING,
        set.recoverable() && set.valid() ==> set.coded_size() % JERASURE_ALIGN as int == 0,
        start_idx1 as int / NUM_DATA as int == start_idx2 as int / NUM_DATA as int,
        recovers_to(set, slot, start_idx1, outcome1),
        recovers_to(set, slot, start_idx2, outcome2),
    ensures
        block_start(start_idx1 as int) == block_start(start_idx2 as int),
        coding_start(start_idx1 as int) == coding_start(start_idx2 as int),
        block_end(start_idx1 as int) == block_end(start_idx2 as int),
        forall|ledger: LedgerView| #[trigger]
            ledger_set(ledger, slot, start_idx1) == ledger_set(ledger, slot, start_idx2),
        outcome1 == outcome2,
{
    assert(coding_start(start_idx1 as int) == coding_start(start_idx2 as int));
    if set.recoverable() && set.valid() {
        let (data1, coding1): (Seq<Seq<u8>>, Seq<Seq<u8>>) = choose|
            data: Seq<Seq<u8>>,
            coding: Seq<Seq<u8>>,
        | #[trigger]
            set.restored_to(data, coding) && outcome1 == Ok::<RecoveryView, ErasureError>(
                recovery_of(set, slot, start_idx1, data, coding),
            );
        let (data2, coding2): (Seq<Seq<u8>>, Seq<Seq<u8>>) = choose|
            data: Seq<Seq<u8>>,
            coding: Seq<Seq<u8>>,
        | #[trigger]
            set.restored_to(data, coding) && outcome2 == Ok::<RecoveryView, ErasureError>(
                recovery_of(set, slot, start_idx2, data, coding),
            );
        let view1: RecoveryView = recovery_of(set, slot, start_idx1, data1, coding1);
        let view2: RecoveryView = recovery_of(set, slot, start_idx2, data1, coding1);
        assert(view1 =~= view2);
        lemma_recovery_unique(set, slot, start_idx2, data1, coding1, data2, coding2);
    }
}

/// The contents of a ledger: the stored bytes of blobs, by slot and index.
#[verifier::ext_equal]
pub struct LedgerView {
    /// The data blobs.
    pub data: Map<(u64, u64), Seq<u8>>,
    /// The coding blobs.
    pub coding: Map<(u64, u64), Seq<u8>>,
}

/// What a column of a ledger holds of a blob.
pub open spec fn column_entry(
    column: Map<(u64, u64), Seq<u8>>,
    slot: u64,
    index: int,
) -> Option<Seq<u8>> {
    if column.contains_key((slot, index as u64)) {
        Some(column[(slot, index as u64)])
    } else {
        None
    }
}

/// What a ledger holds of the erasure set that `start_idx` lies in.
pub open spec fn ledger_set(ledger: LedgerView, slot: u64, start_idx: u64) -> SetView {
    SetView {
        data: Seq::new(
            NUM_DATA as nat,
            |j: int| column_entry(ledger.data, slot, block_start(start_idx as int) + j),
        ),
        coding: Seq::new(
            NUM_CODING as nat,
            |i: int| column_entry(ledger.coding, slot, coding_start(start_idx as int) + i),
        ),
    }
}

/// A column of a ledger after the blobs with the given indexes are deleted.
pub open spec fn without(
    column: Map<(u64, u64), Seq<u8>>,
    slot: u64,
    indexes: Seq<u64>,
) -> Map<(u64, u64), Seq<u8>>
    decreases indexes.len(),
{
    if indexes.len() == 0 {
        column
    } else {
        without(column, slot, indexes.drop_last()).remove((slot, indexes.last()))
    }
}

/// The ledger after the coding blobs that recovery found stale are deleted.
pub open spec fn ledger_after(
    ledger: LedgerView,
    slot: u64,
    outcome: Result<RecoveryView, ErasureError>,
) -> LedgerView {
    match outcome {
        Ok(recovery) => LedgerView {
            data: ledger.data,
            coding: without(ledger.coding, slot, recovery.stale_coding),
        },
        Err(_) => ledger,
    }
}

proof fn lemma_without(column: Map<(u64, u64), Seq<u8>>, slot: u64, indexes: Seq<u64>)
    ensures
        forall|key: (u64, u64)| #[trigger]
            without(column, slot, indexes).contains_key(key) <==> column.contains_key(key) && !(
            key.0 == slot && indexes.contains(key.1)),
        forall|key: (u64, u64)| #[trigger]
            without(column, slot, indexes).contains_key(key) ==> without(column, slot, indexes)[key]
                == column[key],
    decreases indexes.len(),
{
    if indexes.len() > 0 {
        let init: Seq<u64> = indexes.drop_last();
        lemma_without(column, slot, init);
        assert forall|index: u64| #[trigger] indexes.contains(index) <==> init.contains(index)
            || index == indexes.last() by {
            if indexes.contains(index) {
                let p: int = choose|p: int| 0 <= p < indexes.len() && indexes[p] == index;
                if p < init.len() {
                    assert(init[p] == index);
                }
            }
            if init.contains(index) {
                let p: int = choose|p: int| 0 <= p < init.len() && init[p] == index;
                assert(indexes[p] == index);
            }
            assert(indexes[indexes.len() - 1] == indexes.last());
        }
        let before: Map<(u64, u64), Seq<u8>> = without(column, slot, init);
        let after: Map<(u64, u64), Seq<u8>> = without(column, slot, indexes);
        assert forall|key: (u64, u64)| #[trigger] after.contains_key(key) <==> column.contains_key(
            key,
        ) && !(key.0 == slot && indexes.contains(key.1)) by {
            assert(before.contains_key(key) <==> column.contains_key(key) && !(key.0 == slot
                && init.contains(key.1)));
            assert(key == (slot, indexes.last()) <==> key.0 == slot && key.1 == indexes.last());
        }
        assert forall|key: (u64, u64)| #[trigger] after.contains_key(key) implies after[key]
            == column[key] by {
            assert(before.contains_key(key));
        }
    }
}

/// The only coding blobs that are found stale are those of the erasure set, all of them, and
/// only where something was restored that is corrupt. Then nothing is recovered.
proof fn lemma_stale_coding(
    set: SetView,
    slot: u64,
    start_idx: u64,
    outcome: Result<RecoveryView, ErasureError>,
)
    requires
        block_end(start_idx as int) <= u64::MAX,
        recovers_to(set, slot, start_idx, outcome),
        outcome is Ok,
        outcome->Ok_0.stale_coding.len() > 0,
    ensures
        outcome->Ok_0.data.len() == 0,
        outcome->Ok_0.coding.len() == 0,
        set.recoverable(),
        set.valid(),
        exists|data: Seq<Seq<u8>>, coding: Seq<Seq<u8>>| #[trigger]
            set.restored_to(data, coding) && corrupt(set, data),
        forall|index: u64| #[trigger]
            outcome->Ok_0.stale_coding.contains(index) <==> coding_start(start_idx as int) <= index
                < block_end(start_idx as int),
{
    let stale: Seq<u64> = outcome->Ok_0.stale_coding;
    let first: int = coding_start(start_idx as int);
    assert(stale == Seq::new(NUM_CODING as nat, |i: int| (first + i) as u64));
    assert forall|index: u64| #[trigger] stale.contains(index) <==> first <= index < block_end(
        start_idx as int,
    ) by {
        if first <= index < block_end(start_idx as int) {
            assert(stale[index - first] == index);
        }
    }
}

/// Recovery stores nothing. It deletes coding blobs of the erasure set, and only where
/// something was restored that is corrupt. In particular, the ledger stays as it is where an
/// error or a recovered blob is returned.
pub proof fn lemma_recovery_spares_ledger(
    ledger: LedgerView,
    slot: u64,
    start_idx: u64,
    outcome: Result<RecoveryView, ErasureError>,
)
    requires
        block_end(start_idx as int) <= u64::MAX,
        recovers_to(ledger_set(ledger, slot, start_idx), slot, start_idx, outcome),
    ensures
        ({
            let set: SetView = ledger_set(ledger, slot, start_idx);
            let after: LedgerView = ledger_after(ledger, slot, outcome);
            &&& after.data == ledger.data
            &&& outcome is Err ==> after == ledger
            &&& outcome is Ok && (outcome->Ok_0.data.len() > 0 || outcome->Ok_0.coding.len() > 0)
                ==> after == ledger
            &&& after != ledger ==> exists|data: Seq<Seq<u8>>, coding: Seq<Seq<u8>>| #[trigger]
                set.restored_to(data, coding) && corrupt(set, data)
            &&& forall|other: u64, index: u64|
                other != slot || !(coding_start(start_idx as int) <= index < block_end(
                    start_idx as int,
                )) ==> #[trigger] column_entry(after.coding, other, index as int) == column_entry(
                    ledger.coding,
                    other,
                    index as int,
                )
        }),
{
    if outcome is Ok {
        let stale: Seq<u64> = outcome->Ok_0.stale_coding;
        if stale.len() > 0 {
            lemma_stale_coding(
                ledger_set(ledger, slot, start_idx),
                slot,
                start_idx,
                outcome,
            );
            lemma_without(ledger.coding, slot, stale);
            let after: LedgerView = ledger_after(ledger, slot, outcome);
            assert forall|other: u64, index: u64|
                other != slot || !(coding_start(start_idx as int) <= index < block_end(
                    start_idx as int,
                )) implies #[trigger] column_entry(after.coding, other, index as int)
                == column_entry(ledger.coding, other, index as int) by {
                assert(!(other == slot && stale.contains(index)));
                assert(without(ledger.coding, slot, stale).contains_key((other, index))
                    <==> ledger.coding.contains_key((other, index)));
            }
        }
    }
}

/// An erasure set without coding blobs cannot be recovered.
pub proof fn lemma_no_coding(
    set: SetView,
    slot: u64,
    start_idx: u64,
    outcome: Result<RecoveryView, ErasureError>,
)
    requires
        set.coding.len() == NUM_CODING,
        forall|i: int| 0 <= i < NUM_CODING ==> (#[trigger] set.coding[i]) is None,
        missing_count(set.data) > 0,
        recovers_to(set, slot, start_idx, outcome),
    ensures
        outcome == Err::<RecoveryView, ErasureError>(ErasureError::NotEnoughBlocksToDecode),
{
    let there: Seq<bool> = inverted(missing(set.coding));
    lemma_positions(there);
    lemma_positions_inverted(missing(set.coding));
    if positions(there).len() > 0 {
        let i: int = positions(there)[0];
        assert(there[i]);
        assert(set.coding[i] is None);
    }
}

/// No effort is wasted on coding blobs that turned out to be corrupt: once they are deleted,
/// recovering any index of the same block is refused, without anything being restored.
pub proof fn lemma_corrupt_is_not_tried_again(
    ledger: LedgerView,
    slot: u64,
    start_idx1: u64,
    start_idx2: u64,
    outcome1: Result<RecoveryView, ErasureError>,
    outcome2: Result<RecoveryView, ErasureError>,
)
    requires
        block_end(start_idx1 as int) <= u64::MAX,
        start_idx1 as int / NUM_DATA as int == start_idx2 as int / NUM_DATA as int,
        recovers_to(ledger_set(ledger, slot, start_idx1), slot, start_idx1, outcome1),
        outcome1 is Ok,
        outcome1->Ok_0.stale_coding.len() > 0,
        recovers_to(
            ledger_set(ledger_after(ledger, slot, outcome1), slot, start_idx2),
            slot,
            start_idx2,
            outcome2,
        ),
    ensures
        outcome2 == Err::<RecoveryView, ErasureError>(ErasureError::NotEnoughBlocksToDecode),
{
    let set1: SetView = ledger_set(ledger, slot, start_idx1);
    let after: LedgerView = ledger_after(ledger, slot, outcome1);
    let set2: SetView = ledger_set(after, slot, start_idx2);
    let stale: Seq<u64> = outcome1->Ok_0.stale_coding;
    assert(block_start(start_idx1 as int) == block_start(start_idx2 as int));
    lemma_stale_coding(set1, slot, start_idx1, outcome1);
    lemma_without(ledger.coding, slot, stale);
    assert(set2.data =~= set1.data);
    assert forall|i: int| 0 <= i < NUM_CODING implies (#[trigger] set2.coding[i]) is None by {
        let index: u64 = (coding_start(start_idx2 as int) + i) as u64;
        assert(stale.contains(index));
        assert(!without(ledger.coding, slot, stale).contains_key((slot, index)));
    }
    lemma_no_coding(set2, slot, start_idx2, outcome2);
}

/// What is coded of a block depends only on what coding other blocks keeps.
proof fn lemma_kept_code(a: Seq<SlotView>, b: Seq<SlotView>, start: int)
    requires
        all_kept(a, b),
        a.len() > 0,
        has_data(a, start),
        whole_block(a, start),
        block_ready(b, start),
    ensures
        has_data(b, start),
        whole_block(b, start),
        block_ready(a, start),
        block_size(a, start) == block_size(b, start),
        coded_data(a, start) == coded_data(b, start),
        forall|j: int, c: int|
            0 <= j < NUM_DATA && 0 <= c < block_size(a, start) ==> #[trigger] coded_blob(
                a,
                start,
                j,
            ).data[c] == coded_blob(b, start, j).data[c],
{
    let len: int = a.len() as int;
    let first: int = first_coding(start);
    let size: nat = block_size(a, start);
    assert forall|i: int| start <= i < start + NUM_DATA implies kept(
        #[trigger] slot_at(a, i),
        slot_at(b, i),
    ) by {
        assert(0 <= place(i, len) < len);
    }
    assert forall|i: int| start <= i < start + NUM_DATA implies {
        let blob: BlobView = (#[trigger] slot_at(b, i)).data->0;
        &&& slot_at(b, i).data is Some
        &&& blob.data.len() == BLOB_SIZE
    } by {
        assert(kept(slot_at(a, i), slot_at(b, i)));
        assert(slot_at(a, i).data is Some);
    }
    lemma_kept_max_size(a, b, start, NUM_DATA as nat);
    assert forall|i: int| first <= i < start + NUM_DATA implies (#[trigger] slot_at(
        a,
        i,
    )).coding is None by {
        assert(kept(slot_at(a, i), slot_at(b, i)));
        assert(slot_at(b, i).coding is None);
    }
    lemma_block_size(a, start);
    assert forall|j: int, c: int|
        0 <= j < NUM_DATA && 0 <= c < size implies #[trigger] coded_blob(a, start, j).data[c]
        == coded_blob(b, start, j).data[c] by {
        assert(kept(slot_at(a, start + j), slot_at(b, start + j)));
        assert(slot_at(a, start + j).data is Some);
    }
    assert forall|j: int| 0 <= j < NUM_DATA implies #[trigger] coded_data(a, start)[j]
        == coded_data(b, start)[j] by {
        assert(slot_at(a, start + j).data is Some);
        assert(coded_data(a, start)[j] =~= coded_data(b, start)[j]);
    }
    assert(coded_data(a, start) =~= coded_data(b, start));
}

/// How a block is coded depends only on what coding other blocks keeps.
proof fn lemma_kept_block(a: Seq<SlotView>, b: Seq<SlotView>, start: int)
    requires
        all_kept(a, b),
        a.len() > 0,
        has_data(a, start),
        headers_coded(a, start),
        block_ready(b, start),
    ensures
        has_data(b, start),
        headers_coded(b, start),
        block_ready(a, start),
        forall|r: int|
            0 <= r < NUM_CODING ==> #[trigger] coding_blob(a, start, r) == coding_blob(b, start, r),
{
    let size: nat = block_size(a, start);
    lemma_kept_code(a, b, start);
    assert forall|r: int| 0 <= r < NUM_CODING implies #[trigger] coding_blob(a, start, r)
        == coding_blob(b, start, r) by {
        let j: int = NUM_DATA - NUM_CODING + r;
        let (x, y): (BlobView, BlobView) = (
            coded_blob(a, start, j),
            coded_blob(b, start, j),
        );
        assert(slot_at(a, start + j).data->0.data.len() == BLOB_SIZE);
        assert(slot_at(b, start + j).data->0.data.len() == BLOB_SIZE);
        assert forall|from: int, to: int|
            0 <= from <= to <= BLOB_HEADER_SIZE implies #[trigger] x.data.subrange(from, to)
            == y.data.subrange(from, to) by {
            assert(x.data.subrange(from, to) =~= y.data.subrange(from, to));
        }
        assert(coding_header(x, size) == coding_header(y, size));
    }
}

/// What a coding blob holds behind its header, and its size.
proof fn lemma_code_of_blob(window: Seq<SlotView>, start: int, r: int)
    requires
        block_ready(window, start),
        0 <= r < NUM_CODING,
    ensures
        coding_blob(window, start, r).size == block_size(window, start) + BLOB_HEADER_SIZE,
        coding_blob(window, start, r).data.subrange(
            BLOB_HEADER_SIZE as int,
            BLOB_HEADER_SIZE + block_size(window, start),
        ) == coded_coding(window, start)[r],
{
    lemma_block_size(window, start);
    assert(coding_blob(window, start, r).data.subrange(
        BLOB_HEADER_SIZE as int,
        BLOB_HEADER_SIZE + block_size(window, start),
    ) =~= coded_coding(window, start)[r]);
}

/// Each block of the range, up to the first with data missing, ends up with coding blobs that
/// hold, behind their header, the coding blocks of the data blobs that were in the window at
/// the start. What is coded of a data blob are its first bytes, header included, with zeros
/// behind those in use.
pub proof fn lemma_generated_code(window: Seq<SlotView>, start: int, limit: int, block: int)
    requires
        window.len() > 0,
        codable(window, start, limit),
        start <= block,
        block + NUM_DATA <= limit,
        (block - start) % NUM_DATA as int == 0,
        forall|i: int|
            start <= i < block + NUM_DATA ==> (#[trigger] slot_at(window, i)).data is Some,
        whole_block(window, block),
    ensures
        block_ready(window, block),
        forall|i: int|
            first_coding(block) <= i < block + NUM_DATA ==> {
                let coding: Option<BlobView> = (#[trigger] slot_at(
                    generated(window, start, limit),
                    i,
                )).coding;
                let size: nat = block_size(window, block);
                let code: Seq<u8> = coding->0.data.subrange(
                    BLOB_HEADER_SIZE as int,
                    BLOB_HEADER_SIZE + size,
                );
                &&& coding is Some
                &&& coding->0.size == size + BLOB_HEADER_SIZE
                &&& code.len() == size
                &&& is_coding_block(
                    code,
                    coded_data(window, block),
                    NUM_CODING as nat,
                    i - first_coding(block),
                )
            },
    decreases block - start,
{
    let len: int = window.len() as int;
    assert(has_data(window, start));
    assert(codes_block(window, start, limit));
    let next: Seq<SlotView> = code_block(window, start);
    let g: Seq<SlotView> = generated(window, start, limit);
    lemma_code_block_keeps(window, start);
    lemma_generated_keeps(next, start + NUM_DATA, limit);
    if block == start {
        lemma_code_block(window, start);
        lemma_block_size(window, start);
        assert forall|i: int| first_coding(block) <= i < block + NUM_DATA implies {
            let coding: Option<BlobView> = (#[trigger] slot_at(g, i)).coding;
            let r: int = i - first_coding(block);
            &&& coding == Some(coding_blob(window, block, r))
            &&& coding->0.size == block_size(window, block) + BLOB_HEADER_SIZE
            &&& coding->0.data.subrange(
                BLOB_HEADER_SIZE as int,
                BLOB_HEADER_SIZE + block_size(window, block),
            ) == coded_coding(window, block)[r]
            &&& is_coding_block(
                coded_coding(window, block)[r],
                coded_data(window, block),
                NUM_CODING as nat,
                r,
            )
        } by {
            let r: int = i - first_coding(block);
            assert(0 <= place(i, len) < len);
            assert(slot_at(next, i).coding is Some);
            assert(kept(slot_at(next, i), slot_at(g, i)));
            lemma_code_of_blob(window, block, r);
            lemma_encoded(
                coded_coding(window, block)[r],
                coded_data(window, block),
                NUM_CODING as nat,
                r,
            );
        }
    } else {
        assert forall|i: int| start + NUM_DATA <= i < block + NUM_DATA implies (#[trigger] slot_at(
            next,
            i,
        )).data is Some by {
            assert(slot_at(window, i).data is Some);
            assert(0 <= place(i, len) < len);
            assert(kept(slot_at(window, i), slot_at(next, i)));
        }
        assert forall|i: int| block <= i < block + NUM_DATA implies (#[trigger] slot_at(
            next,
            i,
        )).data->0.data.len() == BLOB_SIZE by {
            assert(slot_at(window, i).data is Some);
            assert(0 <= place(i, len) < len);
            assert(kept(slot_at(window, i), slot_at(next, i)));
        }
        assert((block - (start + NUM_DATA)) % NUM_DATA as int == 0);
        assert(block >= start + NUM_DATA);
        lemma_generated_code(next, start + NUM_DATA, limit, block);
        assert(has_data(window, block));
        lemma_kept_code(window, next, block);
    }
}

/// Each block of the range, up to the first with data missing, ends up with the coding blobs
/// of the data blobs that were in the window at the start.
pub proof fn lemma_generated_block(window: Seq<SlotView>, start: int, limit: int, block: int)
    requires
        window.len() > 0,
        codable(window, start, limit),
        start <= block,
        block + NUM_DATA <= limit,
        (block - start) % NUM_DATA as int == 0,
        forall|i: int|
            start <= i < block + NUM_DATA ==> (#[trigger] slot_at(window, i)).data is Some,
        headers_coded(window, block),
    ensures
        block_ready(window, block),
        forall|i: int|
            first_coding(block) <= i < block + NUM_DATA ==> (#[trigger] slot_at(
                generated(window, start, limit),
                i,
            )).coding == Some(coding_blob(window, block, i - first_coding(block))),
    decreases block - start,
{
    let len: int = window.len() as int;
    assert(has_data(window, start));
    assert(codes_block(window, start, limit));
    let next: Seq<SlotView> = code_block(window, start);
    let g: Seq<SlotView> = generated(window, start, limit);
    lemma_code_block_keeps(window, start);
    lemma_generated_keeps(next, start + NUM_DATA, limit);
    if block == start {
        lemma_code_block(window, start);
        assert forall|i: int| first_coding(block) <= i < block + NUM_DATA implies (
        #[trigger] slot_at(g, i)).coding == Some(
            coding_blob(window, block, i - first_coding(block)),
        ) by {
            assert(0 <= place(i, len) < len);
            assert(slot_at(next, i).coding is Some);
            assert(kept(slot_at(next, i), slot_at(g, i)));
        }
    } else {
        assert forall|i: int| start + NUM_DATA <= i < block + NUM_DATA implies (#[trigger] slot_at(
            next,
            i,
        )).data is Some by {
            assert(slot_at(window, i).data is Some);
            assert(0 <= place(i, len) < len);
            assert(kept(slot_at(window, i), slot_at(next, i)));
        }
        assert forall|i: int| block <= i < block + NUM_DATA implies (#[trigger] slot_at(
            next,
            i,
        )).data->0.data.len() == BLOB_SIZE by {
            assert(slot_at(window, i).data is Some);
            assert(0 <= place(i, len) < len);
            assert(kept(slot_at(window, i), slot_at(next, i)));
        }
        assert((block - (start + NUM_DATA)) % NUM_DATA as int == 0);
        assert(block >= start + NUM_DATA);
        lemma_kept_max_size(window, next, block, NUM_DATA as nat);
        lemma_generated_block(next, start + NUM_DATA, limit, block);
        assert(has_data(window, block));
        lemma_kept_block(window, next, block);
        assert forall|i: int| first_coding(block) <= i < block + NUM_DATA implies (
        #[trigger] slot_at(g, i)).coding == Some(
            coding_blob(window, block, i - first_coding(block)),
        ) by {
            let r: int = i - first_coding(block);
            assert(coding_blob(window, block, r) == coding_blob(next, block, r));
            assert(slot_at(generated(next, start + NUM_DATA, limit), i).coding == Some(
                coding_blob(next, block, r),
            ));
        }
    }
}

/// Coding the same block of two windows that hold the same gives windows that hold the same.
proof fn lemma_tails_of_block(a: Seq<SlotView>, b: Seq<SlotView>, start: int)
    requires
        all_kept(a, b),
        all_kept(b, a),
        a.len() > 0,
        has_data(a, start),
        headers_coded(a, start),
        block_ready(a, start),
    ensures
        has_data(b, start),
        block_ready(b, start),
        all_kept(code_block(a, start), code_block(b, start)),
        all_kept(code_block(b, start), code_block(a, start)),
{
    let len: int = a.len() as int;
    let first: int = first_coding(start);
    lemma_kept_max_size(a, b, start, NUM_DATA as nat);
    assert forall|i: int| start <= i < start + NUM_DATA implies {
        &&& (#[trigger] slot_at(b, i)).data is Some
        &&& slot_at(b, i).data->0.data.len() == BLOB_SIZE
    } by {
        let p: int = place(i, len);
        assert(0 <= p < len);
        assert(kept(a[p], b[p]));
        assert(slot_at(a, i).data is Some);
        assert(slot_at(a, i).data->0.data.len() == BLOB_SIZE);
    }
    assert(has_data(b, start));
    assert(headers_coded(b, start));
    lemma_kept_block(b, a, start);
    let (x, y): (Seq<SlotView>, Seq<SlotView>) = (code_block(a, start), code_block(b, start));
    assert forall|p: int| 0 <= p < len implies kept(x[p], #[trigger] y[p]) && kept(y[p], x[p]) by {
        assert(kept(a[p], b[p]));
        assert(kept(b[p], a[p]));
        if covers(start, start + NUM_DATA, len, p) {
            let i: int = choose|i: int|
                start <= i < start + NUM_DATA && #[trigger] place(i, len) == p;
            assert(slot_at(a, i).data is Some);
        }
        if covers(first, start + NUM_DATA, len, p) {
            let c: int = coding_index(start, len, p);
            assert(first <= c < start + NUM_DATA && place(c, len) == p);
            assert(coding_blob(b, start, c - first) == coding_blob(a, start, c - first));
        }
    }
    assert forall|p: int| 0 <= p < len implies kept(y[p], #[trigger] x[p]) by {
        assert(kept(x[p], y[p]) && kept(y[p], x[p]));
    }
}

/// The bytes behind those in use do not matter to coding: in two windows that differ in
/// nothing else, the same blocks are coded, and the coding blobs are the same. The headers of
/// the data blobs have to lie within the coded blocks, which they do where a header is in use.
pub proof fn lemma_tails_do_not_matter(
    a: Seq<SlotView>,
    b: Seq<SlotView>,
    start: int,
    limit: int,
)
    requires
        a.len() > 0,
        all_kept(a, b),
        all_kept(b, a),
        codable(a, start, limit),
        forall|block: int|
            start <= block && block + NUM_DATA <= limit && (block - start) % NUM_DATA as int == 0
                && #[trigger] has_data(a, block) ==> headers_coded(a, block),
    ensures
        codable(b, start, limit),
        codes_block(b, start, limit) == codes_block(a, start, limit),
        generated(b, start, limit).len() == generated(a, start, limit).len(),
        forall|p: int|
            0 <= p < a.len() ==> (#[trigger] generated(b, start, limit)[p]).coding == generated(
                a,
                start,
                limit,
            )[p].coding,
        all_kept(generated(a, start, limit), generated(b, start, limit)),
        all_kept(generated(b, start, limit), generated(a, start, limit)),
    decreases limit - start,
{
    let len: int = a.len() as int;
    assert(has_data(a, start) == has_data(b, start)) by {
        assert forall|i: int| start <= i < start + NUM_DATA implies ((#[trigger] slot_at(
            a,
            i,
        )).data is Some <==> slot_at(b, i).data is Some) by {
            assert(0 <= place(i, len) < len);
            assert(kept(a[place(i, len)], b[place(i, len)]));
        }
        if has_data(b, start) {
            assert forall|i: int| start <= i < start + NUM_DATA implies (#[trigger] slot_at(
                a,
                i,
            )).data is Some by {
                assert(slot_at(b, i).data is Some);
            }
        }
        if has_data(a, start) {
            assert forall|i: int| start <= i < start + NUM_DATA implies (#[trigger] slot_at(
                b,
                i,
            )).data is Some by {
                assert(slot_at(a, i).data is Some);
            }
        }
    }
    if codes_block(a, start, limit) {
        assert((start - start) % NUM_DATA as int == 0);
        lemma_tails_of_block(a, b, start);
        let (x, y): (Seq<SlotView>, Seq<SlotView>) = (code_block(a, start), code_block(b, start));
        lemma_code_block_keeps(a, start);
        assert forall|block: int|
            start + NUM_DATA <= block && block + NUM_DATA <= limit && (block - (start
                + NUM_DATA)) % NUM_DATA as int == 0 && #[trigger] has_data(
                x,
                block,
            ) implies headers_coded(x, block) by {
            assert((block - start) % NUM_DATA as int == 0);
            assert forall|i: int| block <= i < block + NUM_DATA implies (#[trigger] slot_at(
                a,
                i,
            )).data is Some by {
                assert(0 <= place(i, len) < len);
                assert(kept(a[place(i, len)], x[place(i, len)]));
                assert(slot_at(x, i).data is Some);
            }
            assert(has_data(a, block));
            assert(headers_coded(a, block));
            assert(all_kept(a, x));
            lemma_kept_max_size(a, x, block, NUM_DATA as nat);
            assert forall|i: int| block <= i < block + NUM_DATA implies (#[trigger] slot_at(
                x,
                i,
            )).data->0.data.len() == BLOB_SIZE by {
                assert(0 <= place(i, len) < len);
                assert(kept(a[place(i, len)], x[place(i, len)]));
                assert(slot_at(a, i).data is Some);
                assert(slot_at(a, i).data->0.data.len() == BLOB_SIZE);
            }
        }
        lemma_tails_do_not_matter(x, y, start + NUM_DATA, limit);
    } else {
        assert forall|p: int| 0 <= p < len implies (#[trigger] b[p]).coding == a[p].coding by {
            assert(kept(a[p], b[p]));
            assert(kept(b[p], a[p]));
        }
    }
}

/// Recovery undoes the loss of blobs of a window whose coding blobs were generated: for any
/// coded block, whatever blobs of it go missing, as long as they are no more than coding
/// blobs, the missing data blobs come back byte for byte up to their size, and the missing
/// coding blobs with their coding blocks.
pub proof fn lemma_generated_is_recovered(
    set: SetView,
    window: Seq<SlotView>,
    start: int,
    limit: int,
    block: int,
    slot: u64,
    start_idx: u64,
)
    requires
        window.len() > 0,
        codable(window, start, limit),
        start <= block,
        block + NUM_DATA <= limit,
        (block - start) % NUM_DATA as int == 0,
        forall|i: int|
            start <= i < block + NUM_DATA ==> (#[trigger] slot_at(window, i)).data is Some,
        sound_block(window, block),
        stored_from(set, generated(window, start, limit), block),
        set.recoverable(),
    ensures
        set.coded_size() % JERASURE_ALIGN as int == 0,
        forall|data: Seq<Seq<u8>>, coding: Seq<Seq<u8>>| #[trigger]
            set.restored_to(data, coding) ==> recovery_of(set, slot, start_idx, data, coding)
                == lost_blobs(set, window, block, slot, start_idx),
        forall|outcome: Result<RecoveryView, ErasureError>|
            set.valid() && #[trigger] recovers_to(set, slot, start_idx, outcome) ==> outcome
                == Ok::<RecoveryView, ErasureError>(
                lost_blobs(set, window, block, slot, start_idx),
            ),
{
    let len: int = window.len() as int;
    let g: Seq<SlotView> = generated(window, start, limit);
    let coded: Seq<SlotView> = code_block(window, block);
    assert(has_data(window, block));
    lemma_headers_coded(window, block);
    lemma_generated_block(window, start, limit, block);
    lemma_generated_keeps(window, start, limit);
    lemma_code_block(window, block);
    lemma_block_size(window, block);
    assert forall|j: int| 0 <= j < NUM_DATA && (#[trigger] set.data[j]) is Some implies set.data[j]->0
        == in_use(slot_at(coded, block + j).data->0) by {
        let i: int = block + j;
        assert(0 <= place(i, len) < len);
        assert(kept(slot_at(window, i), slot_at(g, i)));
        assert(slot_at(window, i).data is Some);
        assert(slot_at(window, i).data->0.size <= block_size(window, block));
        assert(slot_at(coded, i).data == Some(coded_blob(window, block, j)));
        assert(in_use(slot_at(g, i).data->0) =~= in_use(slot_at(coded, i).data->0));
    }
    assert forall|i: int| 0 <= i < NUM_CODING && (#[trigger] set.coding[i]) is Some implies
        set.coding[i]->0 == in_use(slot_at(coded, first_coding(block) + i).coding->0) by {
        let n: int = first_coding(block) + i;
        assert(slot_at(g, n).coding == slot_at(coded, n).coding);
    }
    assert(stored_from(set, coded, block));
    lemma_coded_size(set, window, block);
    assert forall|data: Seq<Seq<u8>>, coding: Seq<Seq<u8>>| #[trigger]
        set.restored_to(data, coding) implies recovery_of(set, slot, start_idx, data, coding)
        == lost_blobs(set, window, block, slot, start_idx) by {
        lemma_coded_block_is_recovered(set, window, block, slot, start_idx, data, coding);
    }
}

} // verus!
