//! Recovery of the missing blobs of an erasure set.
use vstd::prelude::*;

use crate::blocks::{equal_sized, mut_contents, JERASURE_ALIGN};
use crate::decode::{decode_blocks, listed, lost_count, lost_flags, restored, valid_erasures};
use crate::error::ErasureError;
use crate::layout::{block_end, coding_start, ERASURE_SET_SIZE, NUM_CODING, NUM_DATA};
use crate::packet::{
    blob_slices, loaded, Blob, BlobView, BLOB_DATA_SIZE, BLOB_HEADER_SIZE, BLOB_SIZE,
};
use crate::positions::{inverted, lemma_positions, lemma_positions_inverted, positions};

verus! {

/// What the ledger holds of one erasure set: the stored bytes of each blob, or `None` for
/// a blob that is missing.
#[derive(Debug)]
pub struct ErasureSet {
    /// The data blobs, in the order of their indexes.
    pub data: Vec<Option<Vec<u8>>>,
    /// The coding blobs, in the order of their indexes.
    pub coding: Vec<Option<Vec<u8>>>,
}

/// The contents of an erasure set.
#[verifier::ext_equal]
pub struct SetView {
    /// The data blobs.
    pub data: Seq<Option<Seq<u8>>>,
    /// The coding blobs.
    pub coding: Seq<Option<Seq<u8>>>,
}

/// The contents of stored blobs.
pub open spec fn stored(entries: Seq<Option<Vec<u8>>>) -> Seq<Option<Seq<u8>>> {
    Seq::new(
        entries.len(),
        |j: int|
            match entries[j] {
                Some(bytes) => Some(bytes@),
                None => None,
            },
    )
}

/// Which blobs are missing.
pub open spec fn missing(entries: Seq<Option<Seq<u8>>>) -> Seq<bool> {
    Seq::new(entries.len(), |j: int| entries[j] is None)
}

/// How many blobs are missing.
pub open spec fn missing_count(entries: Seq<Option<Seq<u8>>>) -> nat {
    positions(missing(entries)).len()
}

/// A stored blob holds more than a header and no more than a buffer.
pub open spec fn valid_entry(entry: Option<Seq<u8>>) -> bool {
    entry matches Some(bytes) ==> BLOB_HEADER_SIZE < bytes.len() <= BLOB_SIZE
}

/// All stored blobs are valid.
pub open spec fn valid_entries(entries: Seq<Option<Seq<u8>>>) -> bool {
    forall|j: int| 0 <= j < entries.len() ==> valid_entry(#[trigger] entries[j])
}

/// The buffer for a stored blob, or the blank buffer for a missing one.
pub open spec fn buffer(entry: Option<Seq<u8>>) -> Seq<u8> {
    match entry {
        Some(bytes) => loaded(bytes),
        None => BlobView::blank().data,
    }
}

impl ErasureSet {
    /// There is an entry for each blob of the set.
    pub open spec fn wf(self) -> bool {
        &&& self.data.len() == NUM_DATA
        &&& self.coding.len() == NUM_CODING
    }
}

impl View for ErasureSet {
    type V = SetView;

    open spec fn view(&self) -> SetView {
        SetView { data: stored(self.data@), coding: stored(self.coding@) }
    }
}

impl SetView {
    /// Data are missing, and no more blobs than coding blobs can make up for.
    pub open spec fn recoverable(self) -> bool {
        0 < missing_count(self.data) && missing_count(self.data) + missing_count(self.coding)
            <= NUM_CODING
    }

    /// All stored blobs are valid.
    pub open spec fn valid(self) -> bool {
        valid_entries(self.data) && valid_entries(self.coding)
    }

    /// The size of the coded blocks: what the first stored coding blob holds behind its
    /// header.
    pub open spec fn coded_size(self) -> int {
        self.coding[positions(inverted(missing(self.coding)))[0]]->0.len() - BLOB_HEADER_SIZE
    }

    /// The coded blocks of the data blobs: the first bytes, header included.
    pub open spec fn data_blocks(self, size: int) -> Seq<Seq<u8>> {
        Seq::new(self.data.len(), |j: int| buffer(self.data[j]).subrange(0, size))
    }

    /// The coded blocks of the coding blobs: the first bytes behind the header.
    pub open spec fn coding_blocks(self, size: int) -> Seq<Seq<u8>> {
        Seq::new(
            self.coding.len(),
            |i: int|
                buffer(self.coding[i]).subrange(
                    BLOB_HEADER_SIZE as int,
                    BLOB_HEADER_SIZE + size,
                ),
        )
    }

    /// `data` and `coding` are the coded blocks with the missing ones restored.
    pub open spec fn restored_to(self, data: Seq<Seq<u8>>, coding: Seq<Seq<u8>>) -> bool {
        restored(
            self.data_blocks(self.coded_size()),
            self.coding_blocks(self.coded_size()),
            missing(self.data),
            missing(self.coding),
            data,
            coding,
        )
    }
}

/// What became of an erasure set.
#[derive(Debug)]
pub struct Recovery {
    /// The recovered data blobs, in the order of their indexes.
    pub data: Vec<Blob>,
    /// The recovered coding blobs, in the order of their indexes.
    pub coding: Vec<Blob>,
    /// The indexes of coding blobs that turned out to be corrupt and are to be deleted from
    /// the ledger, so that no effort is wasted on reconstructing from them again.
    pub stale_coding: Vec<u64>,
}

/// The contents of a recovery.
#[verifier::ext_equal]
pub struct RecoveryView {
    /// The recovered data blobs.
    pub data: Seq<BlobView>,
    /// The recovered coding blobs.
    pub coding: Seq<BlobView>,
    /// The indexes of coding blobs to delete.
    pub stale_coding: Seq<u64>,
}

/// The contents of blobs.
pub open spec fn blob_views(blobs: Seq<Blob>) -> Seq<BlobView> {
    Seq::new(blobs.len(), |j: int| blobs[j]@)
}

impl View for Recovery {
    type V = RecoveryView;

    open spec fn view(&self) -> RecoveryView {
        RecoveryView {
            data: blob_views(self.data@),
            coding: blob_views(self.coding@),
            stale_coding: self.stale_coding@,
        }
    }
}

/// The data blob with a restored block, before its size is set.
pub open spec fn data_blob(block: Seq<u8>) -> BlobView {
    BlobView::blank().with_bytes(0, block)
}

/// A size that the header of a data blob cannot have.
pub open spec fn corrupt_size(data_size: int) -> bool {
    data_size < BLOB_HEADER_SIZE || data_size - BLOB_HEADER_SIZE > BLOB_DATA_SIZE
}

/// The data blob recovered from a restored block.
pub open spec fn recovered_data_blob(block: Seq<u8>) -> BlobView {
    data_blob(block).with_size((data_blob(block).data_size() - BLOB_HEADER_SIZE) as nat)
}

/// The coding blob recovered from a restored block.
pub open spec fn recovered_coding_blob(block: Seq<u8>, slot: u64, index: u64) -> BlobView {
    BlobView::blank().with_bytes(BLOB_HEADER_SIZE as int, block).with_slot(slot).with_index(
        index,
    ).with_size(block.len())
}

/// A recovered data blob has an impossible size, or a coding blob is recovered from blocks
/// of an impossible size.
pub open spec fn corrupt(set: SetView, data: Seq<Seq<u8>>) -> bool {
    ||| exists|p: int|
        0 <= p < positions(missing(set.data)).len() && corrupt_size(
            data_blob(data[#[trigger] positions(missing(set.data))[p]]).data_size() as int,
        )
    ||| missing_count(set.coding) > 0 && corrupt_size(set.coded_size())
}

/// What is returned for an erasure set with the restored blocks `data` and `coding`.
pub open spec fn recovery_of(
    set: SetView,
    slot: u64,
    start_idx: u64,
    data: Seq<Seq<u8>>,
    coding: Seq<Seq<u8>>,
) -> RecoveryView {
    if corrupt(set, data) {
        RecoveryView {
            data: Seq::empty(),
            coding: Seq::empty(),
            stale_coding: Seq::new(
                NUM_CODING as nat,
                |i: int| (coding_start(start_idx as int) + i) as u64,
            ),
        }
    } else {
        RecoveryView {
            data: Seq::new(
                missing_count(set.data),
                |p: int| recovered_data_blob(data[positions(missing(set.data))[p]]),
            ),
            coding: Seq::new(
                missing_count(set.coding),
                |p: int|
                    {
                        let i: int = positions(missing(set.coding))[p];
                        recovered_coding_blob(
                            coding[i],
                            slot,
                            (coding_start(start_idx as int) + i) as u64,
                        )
                    },
            ),
            stale_coding: Seq::empty(),
        }
    }
}

/// The contents of what `recover` returns.
pub open spec fn outcome(result: Result<Recovery, ErasureError>) -> Result<
    RecoveryView,
    ErasureError,
> {
    match result {
        Ok(recovery) => Ok(recovery@),
        Err(error) => Err(error),
    }
}

/// What is to come of recovering an erasure set. Nothing is recovered where no data are
/// missing. Where more blobs are missing than coding blobs can make up for, or where a stored
/// blob is not valid, that is an error. Else the missing blobs come from the restored blocks.
pub open spec fn recovers_to(
    set: SetView,
    slot: u64,
    start_idx: u64,
    outcome: Result<RecoveryView, ErasureError>,
) -> bool {
    if missing_count(set.data) == 0 {
        outcome == Ok::<RecoveryView, ErasureError>(
            RecoveryView {
                data: Seq::empty(),
                coding: Seq::empty(),
                stale_coding: Seq::empty(),
            },
        )
    } else if !set.recoverable() {
        outcome == Err::<RecoveryView, ErasureError>(ErasureError::NotEnoughBlocksToDecode)
    } else if !set.valid() {
        outcome == Err::<RecoveryView, ErasureError>(ErasureError::InvalidBlobData)
    } else {
        exists|data: Seq<Seq<u8>>, coding: Seq<Seq<u8>>| #[trigger]
            set.restored_to(data, coding) && outcome == Ok::<RecoveryView, ErasureError>(
                recovery_of(set, slot, start_idx, data, coding),
            )
    }
}

/// Takes up one entry of the ledger: the blob goes to `blobs`. For a missing entry that is
/// a blank blob, whose position goes to `missing` and whose number goes to `erasures`.
pub fn categorize_blob(
    get_blob_result: &Option<Vec<u8>>,
    blobs: &mut Vec<Blob>,
    missing: &mut Vec<usize>,
    erasures: &mut Vec<i32>,
    erasure_index: i32,
) -> (result: Result<(), ErasureError>)
    ensures
        match get_blob_result {
            Some(b) => {
                &&& final(missing)@ == old(missing)@
                &&& final(erasures)@ == old(erasures)@
                &&& if b.len() <= BLOB_HEADER_SIZE || b.len() > BLOB_SIZE {
                    &&& result == Err::<(), ErasureError>(ErasureError::InvalidBlobData)
                    &&& final(blobs)@ == old(blobs)@
                } else {
                    &&& result is Ok
                    &&& final(blobs).len() == old(blobs).len() + 1
                    &&& final(blobs)@.drop_last() == old(blobs)@
                    &&& final(blobs)@.last().wf()
                    &&& final(blobs)@.last().data@ == loaded(b@)
                    &&& final(blobs)@.last().meta.size == final(blobs)@.last()@.data_size() as usize
                }
            },
            None => {
                &&& result is Ok
                &&& final(erasures)@ == old(erasures)@.push(erasure_index)
                &&& final(missing)@ == old(missing)@.push(old(blobs).len())
                &&& final(blobs).len() == old(blobs).len() + 1
                &&& final(blobs)@.drop_last() == old(blobs)@
                &&& final(blobs)@.last().wf()
                &&& final(blobs)@.last()@ == BlobView::blank()
            },
        },
{
    match get_blob_result {
        Some(b) => {
            if b.len() <= BLOB_HEADER_SIZE || b.len() > BLOB_SIZE {
                return Err(ErasureError::InvalidBlobData);
            }
            let ghost before: Seq<Blob> = blobs@;
            blobs.push(Blob::new(b.as_slice()));
            assert(blobs@.drop_last() =~= before);
        },
        None => {
            let ghost before: Seq<Blob> = blobs@;
            erasures.push(erasure_index);
            missing.push(blobs.len());
            blobs.push(Blob::default());
            assert(blobs@.drop_last() =~= before);
        },
    }
    Ok(())
}

/// Takes up the entries of the blobs from number `first` on.
fn load_entries(
    entries: &Vec<Option<Vec<u8>>>,
    first: usize,
    blobs: &mut Vec<Blob>,
    lost: &mut Vec<usize>,
    erasures: &mut Vec<i32>,
) -> (result: Result<(), ErasureError>)
    requires
        first + entries.len() <= ERASURE_SET_SIZE,
        old(blobs).len() == first,
        old(lost).len() == 0,
    ensures
        match result {
            Ok(_) => {
                let e: Seq<Option<Seq<u8>>> = stored(entries@);
                let ps: Seq<int> = positions(missing(e));
                &&& valid_entries(e)
                &&& final(blobs).len() == first + e.len()
                &&& forall|j: int| 0 <= j < first ==> #[trigger] final(blobs)@[j] == old(blobs)@[j]
                &&& forall|j: int|
                    0 <= j < e.len() ==> {
                        &&& (#[trigger] final(blobs)@[first + j]).wf()
                        &&& final(blobs)@[first + j].data@ == buffer(e[j])
                        &&& e[j] is None ==> final(blobs)@[first + j]@ == BlobView::blank()
                    }
                &&& final(lost).len() == ps.len()
                &&& forall|p: int| 0 <= p < ps.len() ==> #[trigger] final(lost)@[p] == first + ps[p]
                &&& final(erasures).len() == old(erasures).len() + ps.len()
                &&& forall|q: int|
                    0 <= q < old(erasures).len() ==> #[trigger] final(erasures)@[q] == old(
                        erasures,
                    )@[q]
                &&& forall|p: int|
                    0 <= p < ps.len() ==> #[trigger] final(erasures)@[old(erasures).len() + p]
                        == first + ps[p]
            },
            Err(error) => {
                &&& error == ErasureError::InvalidBlobData
                &&& !valid_entries(stored(entries@))
            },
        },
{
    let ghost e: Seq<Option<Seq<u8>>> = stored(entries@);
    let ghost flags: Seq<bool> = missing(e);
    let mut j: usize = 0;
    while j < entries.len()
        invariant
            j <= entries.len(),
            first + entries.len() <= ERASURE_SET_SIZE,
            e == stored(entries@),
            flags == missing(e),
            old(blobs).len() == first,
            forall|k: int| 0 <= k < j ==> valid_entry(#[trigger] e[k]),
            blobs.len() == first + j,
            forall|k: int| 0 <= k < first ==> #[trigger] blobs@[k] == old(blobs)@[k],
            forall|k: int|
                0 <= k < j ==> {
                    &&& (#[trigger] blobs@[first + k]).wf()
                    &&& blobs@[first + k].data@ == buffer(e[k])
                    &&& e[k] is None ==> blobs@[first + k]@ == BlobView::blank()
                },
            lost.len() == positions(flags.take(j as int)).len(),
            forall|p: int|
                0 <= p < lost.len() ==> #[trigger] lost@[p] == first + positions(
                    flags.take(j as int),
                )[p],
            erasures.len() == old(erasures).len() + lost.len(),
            forall|q: int|
                0 <= q < old(erasures).len() ==> #[trigger] erasures@[q] == old(erasures)@[q],
            forall|p: int|
                0 <= p < lost.len() ==> #[trigger] erasures@[old(erasures).len() + p] == first
                    + positions(flags.take(j as int))[p],
        decreases entries.len() - j,
    {
        let ghost blobs_before: Seq<Blob> = blobs@;
        let ghost lost_before: Seq<usize> = lost@;
        let ghost erasures_before: Seq<i32> = erasures@;
        proof {
            assert(flags.take(j + 1).drop_last() =~= flags.take(j as int));
            assert(flags.take(j + 1).last() == flags[j as int]);
        }
        let taken: Result<(), ErasureError> = categorize_blob(
            &entries[j],
            blobs,
            lost,
            erasures,
            (first + j) as i32,
        );
        match taken {
            Err(error) => {
                assert(!valid_entry(e[j as int]));
                return Err(error);
            },
            Ok(_) => {},
        }
        proof {
            assert(valid_entry(e[j as int]));
            assert forall|k: int| 0 <= k < first + j implies #[trigger] blobs@[k]
                == blobs_before[k] by {
                assert(blobs@.drop_last()[k] == blobs_before[k]);
            }
            assert forall|k: int| 0 <= k < j + 1 implies {
                &&& (#[trigger] blobs@[first + k]).wf()
                &&& blobs@[first + k].data@ == buffer(e[k])
                &&& e[k] is None ==> blobs@[first + k]@ == BlobView::blank()
            } by {
                if k < j {
                    assert(blobs@[first + k] == blobs_before[first + k]);
                } else {
                    assert(blobs@[first + k] == blobs@.last());
                    if e[k] is None {
                        assert(blobs@.last().data@ == blobs@.last()@.data);
                    }
                }
            }
            let ps: Seq<int> = positions(flags.take(j + 1));
            assert forall|p: int| 0 <= p < ps.len() implies #[trigger] lost@[p] == first + ps[p] by {
                if p < lost_before.len() {
                    assert(lost_before[p] == first + positions(flags.take(j as int))[p]);
                }
            }
            assert forall|p: int| 0 <= p < ps.len() implies #[trigger] erasures@[old(erasures).len()
                + p] == first + ps[p] by {
                if p < lost_before.len() {
                    assert(erasures_before[old(erasures).len() + p] == first + positions(
                        flags.take(j as int),
                    )[p]);
                }
            }
            assert forall|q: int| 0 <= q < old(erasures).len() implies #[trigger] erasures@[q] == old(
                erasures,
            )@[q] by {
                assert(erasures_before[q] == old(erasures)@[q]);
            }
        }
        j = j + 1;
    }
    assert(flags.take(j as int) =~= flags);
    Ok(())
}

/// The first `size` bytes of each data blob.
spec fn data_parts(blobs: Seq<Blob>, size: int) -> Seq<Seq<u8>> {
    Seq::new(NUM_DATA as nat, |j: int| blobs[j].data@.subrange(0, size))
}

/// The first `size` bytes behind the header of each coding blob.
spec fn coding_parts(blobs: Seq<Blob>, size: int) -> Seq<Seq<u8>> {
    Seq::new(
        NUM_CODING as nat,
        |i: int|
            blobs[NUM_DATA + i].data@.subrange(BLOB_HEADER_SIZE as int, BLOB_HEADER_SIZE + size),
    )
}

/// Restores the listed blobs, and returns what the restored blocks are.
fn decode_blobs(blobs: &mut Vec<Blob>, erasures: &Vec<i32>, size: usize) -> (result: Result<
    (Ghost<Seq<Seq<u8>>>, Ghost<Seq<Seq<u8>>>),
    ErasureError,
>)
    requires
        old(blobs).len() == ERASURE_SET_SIZE,
        forall|j: int| 0 <= j < ERASURE_SET_SIZE ==> #[trigger] old(blobs)@[j].wf(),
        size + BLOB_HEADER_SIZE <= BLOB_SIZE,
        size % JERASURE_ALIGN == 0,
        valid_erasures(erasures@, ERASURE_SET_SIZE as nat),
        lost_count(erasures@, NUM_DATA as nat, NUM_CODING as nat) <= NUM_CODING,
    ensures
        result is Ok,
        restored(
            data_parts(old(blobs)@, size as int),
            coding_parts(old(blobs)@, size as int),
            lost_flags(erasures@, 0, NUM_DATA as nat),
            lost_flags(erasures@, NUM_DATA as int, NUM_CODING as nat),
            result->Ok_0.0@,
            result->Ok_0.1@,
        ),
        final(blobs).len() == ERASURE_SET_SIZE,
        forall|j: int| 0 <= j < ERASURE_SET_SIZE ==> #[trigger] final(blobs)@[j].wf(),
        forall|j: int|
            0 <= j < NUM_DATA ==> #[trigger] final(blobs)@[j]@ == old(blobs)@[j]@.with_bytes(
                0,
                result->Ok_0.0@[j],
            ),
        forall|i: int|
            0 <= i < NUM_CODING ==> #[trigger] final(blobs)@[NUM_DATA + i]@ == old(
                blobs,
            )@[NUM_DATA + i]@.with_bytes(BLOB_HEADER_SIZE as int, result->Ok_0.1@[i]),
{
    let ghost before: Seq<Blob> = blobs@;
    let ghost d: Seq<Seq<u8>> = data_parts(before, size as int);
    let ghost c: Seq<Seq<u8>> = coding_parts(before, size as int);
    let slice: &mut [Blob] = blobs.as_mut_slice();
    assert(slice.len() == slice@.len());
    let (data_blobs, coding_blobs): (&mut [Blob], &mut [Blob]) = slice.split_at_mut(NUM_DATA);
    proof {
        assert forall|j: int| 0 <= j < NUM_DATA implies #[trigger] data_blobs@[j].wf() by {
            assert(before[j].wf());
        }
        assert forall|i: int| 0 <= i < NUM_CODING implies #[trigger] coding_blobs@[i].wf() by {
            assert(before[NUM_DATA + i].wf());
        }
    }
    let mut data_ptrs: Vec<&mut [u8]> = blob_slices(data_blobs, 0, size);
    let mut coding_ptrs: Vec<&mut [u8]> = blob_slices(coding_blobs, BLOB_HEADER_SIZE, size);
    proof {
        assert(mut_contents(data_ptrs@) =~= d);
        assert(mut_contents(coding_ptrs@) =~= c);
        assert forall|j: int| 0 <= j < NUM_DATA implies (#[trigger] d[j]).len() == size by {
            assert(before[j].wf());
        }
        assert forall|i: int| 0 <= i < NUM_CODING implies (#[trigger] c[i]).len() == size by {
            assert(before[NUM_DATA + i].wf());
        }
        assert(data_ptrs@[0]@ == d[0]);
        assert(equal_sized(d, c));
    }
    let decoded: Result<(), ErasureError> = decode_blocks(
        data_ptrs.as_mut_slice(),
        coding_ptrs.as_mut_slice(),
        erasures.as_slice(),
    );
    let ghost new_data: Seq<Seq<u8>> = mut_contents(data_ptrs@);
    let ghost new_coding: Seq<Seq<u8>> = mut_contents(coding_ptrs@);
    proof {
        assert forall|j: int| 0 <= j < NUM_DATA implies (#[trigger] new_data[j]).len() == size by {
            assert(d[j].len() == size);
        }
        assert forall|i: int| 0 <= i < NUM_CODING implies (#[trigger] new_coding[i]).len() == size by {
            assert(c[i].len() == size);
        }
        assert forall|j: int| 0 <= j < ERASURE_SET_SIZE implies #[trigger] blobs@[j].wf() by {
            if j < NUM_DATA {
                assert(new_data[j].len() == size);
                assert(blobs@[j]@ == before[j]@.with_bytes(0, new_data[j]));
            } else {
                let i: int = j - NUM_DATA;
                assert(new_coding[i].len() == size);
                assert(blobs@[NUM_DATA + i]@ == before[NUM_DATA + i]@.with_bytes(
                    BLOB_HEADER_SIZE as int,
                    new_coding[i],
                ));
            }
        }
    }
    match decoded {
        Ok(_) => Ok((Ghost(new_data), Ghost(new_coding))),
        Err(error) => Err(error),
    }
}

/// Returns whether blobs are to be recovered where so many data and coding blobs are missing.
/// That is an error where they are more than coding blobs can make up for.
pub fn needs_recovery(data_missing: usize, coding_missing: usize) -> (needed: Result<
    bool,
    ErasureError,
>)
    ensures
        match needed {
            Ok(needed) => {
                &&& needed == (data_missing > 0)
                &&& needed ==> data_missing + coding_missing <= NUM_CODING
            },
            Err(error) => {
                &&& error == ErasureError::NotEnoughBlocksToDecode
                &&& data_missing > 0
                &&& data_missing + coding_missing > NUM_CODING
            },
        },
{
    if data_missing == 0 {
        Ok(false)
    } else if data_missing > NUM_CODING || coding_missing > NUM_CODING - data_missing {
        Err(ErasureError::NotEnoughBlocksToDecode)
    } else {
        Ok(true)
    }
}

/// Returns how many blobs are missing.
fn count_missing(entries: &Vec<Option<Vec<u8>>>) -> (count: usize)
    ensures
        count == missing_count(stored(entries@)),
        count <= entries.len(),
{
    let ghost flags: Seq<bool> = missing(stored(entries@));
    let mut count: usize = 0;
    let mut j: usize = 0;
    while j < entries.len()
        invariant
            j <= entries.len(),
            flags == missing(stored(entries@)),
            count <= j,
            count == positions(flags.take(j as int)).len(),
        decreases entries.len() - j,
    {
        proof {
            assert(flags.take(j + 1).drop_last() =~= flags.take(j as int));
            assert(flags.take(j + 1).last() == flags[j as int]);
        }
        if entries[j].is_none() {
            count = count + 1;
        }
        j = j + 1;
    }
    assert(flags.take(j as int) =~= flags);
    count
}

/// Returns what the first stored coding blob holds behind its header.
fn find_coded_size(set: &ErasureSet) -> (size: usize)
    requires
        set.wf(),
        missing_count(set@.coding) < NUM_CODING,
        valid_entries(set@.coding),
    ensures
        size == set@.coded_size(),
        size + BLOB_HEADER_SIZE <= BLOB_SIZE,
{
    let ghost e: Seq<Option<Seq<u8>>> = set@.coding;
    let ghost there: Seq<bool> = inverted(missing(e));
    proof {
        lemma_positions(there);
        lemma_positions_inverted(missing(e));
        assert(there[positions(there)[0]]);
    }
    let mut i: usize = 0;
    while set.coding[i].is_none()
        invariant
            set.wf(),
            e == set@.coding,
            there == inverted(missing(e)),
            positions(there).len() > 0,
            0 <= positions(there)[0] < NUM_CODING,
            there[positions(there)[0]],
            i <= positions(there)[0],
        decreases NUM_CODING - i,
    {
        i = i + 1;
    }
    proof {
        assert(there[i as int]);
        let p: int = choose|p: int| 0 <= p < positions(there).len() && positions(there)[p] == i;
        if p > 0 {
            assert(positions(there)[0] < positions(there)[p]);
        }
        assert(valid_entry(e[i as int]));
    }
    match &set.coding[i] {
        Some(bytes) => bytes.len() - BLOB_HEADER_SIZE,
        None => 0,
    }
}

/// The terminated list of the missing blobs.
spec fn lists_missing(erasures: Seq<i32>, set: SetView) -> bool {
    let d: Seq<int> = positions(missing(set.data));
    let c: Seq<int> = positions(missing(set.coding));
    &&& erasures.len() == d.len() + c.len() + 1
    &&& forall|p: int| 0 <= p < d.len() ==> #[trigger] erasures[p] == d[p]
    &&& forall|p: int| 0 <= p < c.len() ==> #[trigger] erasures[d.len() + p] == NUM_DATA + c[p]
    &&& erasures[erasures.len() - 1] == -1
}

/// The terminated list of the missing blobs flags just them.
proof fn lemma_lists_missing(erasures: Seq<i32>, set: SetView)
    requires
        set.data.len() == NUM_DATA,
        set.coding.len() == NUM_CODING,
        lists_missing(erasures, set),
    ensures
        valid_erasures(erasures, ERASURE_SET_SIZE as nat),
        lost_flags(erasures, 0, NUM_DATA as nat) == missing(set.data),
        lost_flags(erasures, NUM_DATA as int, NUM_CODING as nat) == missing(set.coding),
{
    let d: Seq<int> = positions(missing(set.data));
    let c: Seq<int> = positions(missing(set.coding));
    let end: int = erasures.len() - 1;
    lemma_positions(missing(set.data));
    lemma_positions(missing(set.coding));
    assert forall|p: int| 0 <= p < end implies 0 <= #[trigger] erasures[p] < ERASURE_SET_SIZE && (p
        < d.len() ==> erasures[p] == d[p] && erasures[p] < NUM_DATA) && (p >= d.len() ==> erasures[p]
        == NUM_DATA + c[p - d.len()] && erasures[p] >= NUM_DATA) by {
        if p < d.len() {
            assert(erasures[p] == d[p]);
        } else {
            let q: int = p - d.len();
            assert(erasures[d.len() + q] == NUM_DATA + c[q]);
        }
    }
    assert(erasures[end] == -1);
    assert forall|n: int| 0 <= n < ERASURE_SET_SIZE implies #[trigger] listed(erasures, n) == (exists|
        p: int,
    |
        0 <= p < end && #[trigger] erasures[p] == n) by {
        if listed(erasures, n) {
            let p: int = choose|p: int|
                0 <= p < erasures.len() && #[trigger] erasures[p] == n && forall|q: int|
                    0 <= q <= p ==> erasures[q] != -1;
            assert(p < end);
            assert(erasures[p] == n);
        }
        if exists|p: int| 0 <= p < end && #[trigger] erasures[p] == n {
            let p: int = choose|p: int| 0 <= p < end && #[trigger] erasures[p] == n;
            assert forall|q: int| 0 <= q <= p implies erasures[q] != -1 by {
                assert(0 <= erasures[q]);
            }
            assert(erasures[p] == n);
        }
    }
    assert forall|j: int| 0 <= j < NUM_DATA implies listed(erasures, j) == missing(set.data)[j] by {
        if missing(set.data)[j] {
            let p: int = choose|p: int| 0 <= p < d.len() && d[p] == j;
            assert(erasures[p] == j);
        }
        if listed(erasures, j) {
            let p: int = choose|p: int| 0 <= p < end && #[trigger] erasures[p] == j;
            assert(p < d.len());
            assert(d[p] == j);
        }
    }
    assert(lost_flags(erasures, 0, NUM_DATA as nat) =~= missing(set.data));
    assert forall|i: int| 0 <= i < NUM_CODING implies listed(erasures, NUM_DATA + i) == missing(
        set.coding,
    )[i] by {
        if missing(set.coding)[i] {
            let p: int = choose|p: int| 0 <= p < c.len() && c[p] == i;
            assert(erasures[d.len() + p] == NUM_DATA + i);
        }
        if listed(erasures, NUM_DATA + i) {
            let p: int = choose|p: int| 0 <= p < end && #[trigger] erasures[p] == NUM_DATA + i;
            assert(p >= d.len());
            assert(c[p - d.len()] == i);
        }
    }
    assert(lost_flags(erasures, NUM_DATA as int, NUM_CODING as nat) =~= missing(set.coding));
}

/// Returns the recovery of a set whose coding blobs are corrupt.
fn discard_coding(start_idx: u64) -> (recovery: Recovery)
    requires
        block_end(start_idx as int) <= u64::MAX,
    ensures
        recovery.data.len() == 0,
        recovery.coding.len() == 0,
        recovery.stale_coding@ == Seq::new(
            NUM_CODING as nat,
            |i: int| (coding_start(start_idx as int) + i) as u64,
        ),
{
    let first: u64 = start_idx - (start_idx % NUM_DATA as u64) + NUM_DATA as u64 - NUM_CODING as u64;
    let mut stale_coding: Vec<u64> = Vec::with_capacity(NUM_CODING);
    let mut i: usize = 0;
    while i < NUM_CODING
        invariant
            i <= NUM_CODING,
            first == coding_start(start_idx as int),
            block_end(start_idx as int) <= u64::MAX,
            stale_coding.len() == i,
            forall|k: int| 0 <= k < i ==> #[trigger] stale_coding@[k] == first + k,
        decreases NUM_CODING - i,
    {
        stale_coding.push(first + i as u64);
        i = i + 1;
    }
    assert(stale_coding@ =~= Seq::new(
        NUM_CODING as nat,
        |i: int| (coding_start(start_idx as int) + i) as u64,
    ));
    Recovery { data: Vec::new(), coding: Vec::new(), stale_coding }
}

/// Returns whether all stored blobs are valid.
fn are_valid(entries: &Vec<Option<Vec<u8>>>) -> (valid: bool)
    ensures
        valid == valid_entries(stored(entries@)),
{
    let mut j: usize = 0;
    while j < entries.len()
        invariant
            j <= entries.len(),
            forall|l: int| 0 <= l < j ==> valid_entry(#[trigger] stored(entries@)[l]),
        decreases entries.len() - j,
    {
        assert(stored(entries@)[j as int] == match entries@[j as int] {
            Some(bytes) => Some(bytes@),
            None => None,
        });
        if let Some(bytes) = &entries[j] {
            if bytes.len() <= BLOB_HEADER_SIZE || bytes.len() > BLOB_SIZE {
                return false;
            }
        }
        j = j + 1;
    }
    true
}

/// Returns whether the coded blocks are aligned, where blobs of the erasure set can be
/// recovered.
pub fn is_aligned(set: &ErasureSet) -> (aligned: bool)
    requires
        set.wf(),
    ensures
        aligned == (set@.recoverable() && set@.valid() ==> set@.coded_size() % JERASURE_ALIGN as int
            == 0),
{
    let data_missing: usize = count_missing(&set.data);
    let coding_missing: usize = count_missing(&set.coding);
    if data_missing == 0 || data_missing + coding_missing > NUM_CODING {
        return true;
    }
    if !are_valid(&set.data) || !are_valid(&set.coding) {
        return true;
    }
    find_coded_size(set) % JERASURE_ALIGN == 0
}

/// Recovers the missing data and coding blobs of the erasure set that `start_idx` lies in.
///
/// Nothing is recovered where no data are missing. Where more blobs are missing than coding
/// blobs can make up for, that is the error `NotEnoughBlocksToDecode`. Where blobs could be
/// recovered, but a stored blob holds no more than a header or more than a buffer, that is the
/// error `InvalidBlobData`. Where recovered blobs make no sense, the stored coding blobs are
/// returned as stale.
///
/// What the first stored coding blob holds behind its header has to be a multiple of
/// `JERASURE_ALIGN` bytes long, if it comes to recovering: see [`is_aligned`].
pub fn recover(set: &ErasureSet, slot: u64, start_idx: u64) -> (result: Result<
    Recovery,
    ErasureError,
>)
    requires
        set.wf(),
        block_end(start_idx as int) <= u64::MAX,
        set@.recoverable() && set@.valid() ==> set@.coded_size() % JERASURE_ALIGN as int == 0,
    ensures
        recovers_to(set@, slot, start_idx, outcome(result)),
        result matches Ok(recovery) ==> {
            &&& forall|p: int| 0 <= p < recovery.data.len() ==> #[trigger] recovery.data@[p].wf()
            &&& forall|p: int|
                0 <= p < recovery.coding.len() ==> #[trigger] recovery.coding@[p].wf()
        },
{
    let data_missing: usize = count_missing(&set.data);
    let coding_missing: usize = count_missing(&set.coding);
    let needed: bool = match needs_recovery(data_missing, coding_missing) {
        Ok(needed) => needed,
        Err(error) => {
            return Err(error);
        },
    };
    if !needed {
        let recovery: Recovery = Recovery {
            data: Vec::new(),
            coding: Vec::new(),
            stale_coding: Vec::new(),
        };
        assert(recovery@ =~= (RecoveryView {
            data: Seq::empty(),
            coding: Seq::empty(),
            stale_coding: Seq::empty(),
        }));
        return Ok(recovery);
    }
    let mut blobs: Vec<Blob> = Vec::with_capacity(ERASURE_SET_SIZE);
    let mut erasures: Vec<i32> = Vec::with_capacity(NUM_CODING);
    let mut missing_data: Vec<usize> = Vec::new();
    let mut missing_coding: Vec<usize> = Vec::new();
    match load_entries(&set.data, 0, &mut blobs, &mut missing_data, &mut erasures) {
        Err(error) => {
            return Err(error);
        },
        Ok(_) => {},
    }
    let ghost data_loaded: Seq<Blob> = blobs@;
    let ghost data_listed: Seq<i32> = erasures@;
    match load_entries(&set.coding, NUM_DATA, &mut blobs, &mut missing_coding, &mut erasures) {
        Err(error) => {
            return Err(error);
        },
        Ok(_) => {},
    }
    let ghost both_listed: Seq<i32> = erasures@;
    // marks the end of the list
    erasures.push(-1);
    let size: usize = find_coded_size(set);
    let ghost before: Seq<Blob> = blobs@;
    let ghost d: Seq<int> = positions(missing(set@.data));
    let ghost c: Seq<int> = positions(missing(set@.coding));
    proof {
        assert forall|p: int| 0 <= p < d.len() implies #[trigger] erasures@[p] == d[p] by {
            assert(data_listed[0 + p] == 0 + d[p]);
            assert(both_listed[p] == data_listed[p]);
        }
        assert forall|p: int| 0 <= p < c.len() implies #[trigger] erasures@[d.len() + p] == NUM_DATA
            + c[p] by {
            assert(both_listed[d.len() + p] == NUM_DATA + c[p]);
        }
        lemma_lists_missing(erasures@, set@);
        lemma_positions(missing(set@.data));
        lemma_positions(missing(set@.coding));
        assert forall|j: int| 0 <= j < NUM_DATA implies #[trigger] before[j].wf() && before[j].data@
            == buffer(set@.data[j]) && (set@.data[j] is None ==> before[j]@ == BlobView::blank()) by {
            assert(data_loaded[0 + j].wf());
            assert(before[j] == data_loaded[j]);
        }
        assert forall|i: int| 0 <= i < NUM_CODING implies #[trigger] before[NUM_DATA + i].wf()
            && before[NUM_DATA + i].data@ == buffer(set@.coding[i]) && (set@.coding[i] is None
            ==> before[NUM_DATA + i]@ == BlobView::blank()) by {}
        assert forall|j: int| 0 <= j < ERASURE_SET_SIZE implies #[trigger] before[j].wf() by {
            if j >= NUM_DATA {
                assert(before[NUM_DATA + (j - NUM_DATA)].wf());
            }
        }
        assert forall|j: int| 0 <= j < NUM_DATA implies data_parts(before, size as int)[j]
            == set@.data_blocks(size as int)[j] by {
            assert(before[j].wf() && before[j].data@ == buffer(set@.data[j]));
        }
        assert(data_parts(before, size as int) =~= set@.data_blocks(size as int));
        assert(coding_parts(before, size as int) =~= set@.coding_blocks(size as int));
    }
    let (Ghost(new_data), Ghost(new_coding)): (Ghost<Seq<Seq<u8>>>, Ghost<Seq<Seq<u8>>>) =
        match decode_blobs(&mut blobs, &erasures, size) {
        Err(error) => {
            return Err(error);
        },
        Ok(blocks) => blocks,
    };
    assert(set@.restored_to(new_data, new_coding));
    // create the missing blobs from the restored blocks
    let mut data: Vec<Blob> = Vec::with_capacity(NUM_CODING);
    let mut p: usize = 0;
    while p < missing_data.len()
        invariant
            p <= missing_data.len(),
            block_end(start_idx as int) <= u64::MAX,
            set.wf(),
            d == positions(missing(set@.data)),
            set@.recoverable(),
            set@.valid(),
            missing_data.len() == d.len(),
            blobs.len() == ERASURE_SET_SIZE,
            forall|q: int| 0 <= q < d.len() ==> #[trigger] missing_data@[q] == d[q],
            forall|q: int|
                0 <= q < d.len() ==> 0 <= #[trigger] d[q] < NUM_DATA && set@.data[d[q]] is None,
            forall|j: int| 0 <= j < NUM_DATA ==> #[trigger] blobs@[j].wf(),
            forall|j: int|
                0 <= j < NUM_DATA && set@.data[j] is None ==> #[trigger] blobs@[j]@ == data_blob(
                    new_data[j],
                ),
            set@.restored_to(new_data, new_coding),
            data.len() == p,
            forall|q: int| 0 <= q < p ==> #[trigger] data@[q].wf(),
            forall|q: int|
                0 <= q < p ==> {
                    &&& #[trigger] data@[q]@ == recovered_data_blob(new_data[d[q]])
                    &&& !corrupt_size(data_blob(new_data[d[q]]).data_size() as int)
                },
        decreases missing_data.len() - p,
    {
        let n: usize = missing_data[p];
        assert(n == d[p as int]);
        assert(blobs@[n as int].wf());
        assert(blobs@[n as int]@ == data_blob(new_data[n as int]));
        let data_size: u64 = blobs[n].data_size();
        if data_size < BLOB_HEADER_SIZE as u64 || data_size - BLOB_HEADER_SIZE as u64
            > BLOB_DATA_SIZE as u64 {
            let recovery: Recovery = discard_coding(start_idx);
            proof {
                assert(corrupt_size(data_blob(new_data[d[p as int]]).data_size() as int));
                assert(corrupt(set@, new_data));
                assert(recovery@ =~= recovery_of(set@, slot, start_idx, new_data, new_coding));
            }
            return Ok(recovery);
        }
        let mut blob: Blob = blobs[n].clone();
        blob.set_size((data_size - BLOB_HEADER_SIZE as u64) as usize);
        assert(blob@ == recovered_data_blob(new_data[d[p as int]]));
        data.push(blob);
        p = p + 1;
    }
    let mut coding: Vec<Blob> = Vec::with_capacity(NUM_CODING);
    p = 0;
    while p < missing_coding.len()
        invariant
            p <= missing_coding.len(),
            block_end(start_idx as int) <= u64::MAX,
            set.wf(),
            c == positions(missing(set@.coding)),
            set@.recoverable(),
            set@.valid(),
            missing_coding.len() == c.len(),
            blobs.len() == ERASURE_SET_SIZE,
            size == set@.coded_size(),
            size + BLOB_HEADER_SIZE <= BLOB_SIZE,
            forall|q: int| 0 <= q < c.len() ==> #[trigger] missing_coding@[q] == NUM_DATA + c[q],
            forall|q: int|
                0 <= q < c.len() ==> 0 <= #[trigger] c[q] < NUM_CODING && set@.coding[c[q]] is None,
            forall|i: int| 0 <= i < NUM_CODING ==> #[trigger] blobs@[NUM_DATA + i].wf(),
            forall|i: int|
                0 <= i < NUM_CODING ==> (#[trigger] new_coding[i]).len() == size,
            forall|i: int|
                0 <= i < NUM_CODING && set@.coding[i] is None ==> #[trigger] blobs@[NUM_DATA + i]@
                    == BlobView::blank().with_bytes(BLOB_HEADER_SIZE as int, new_coding[i]),
            set@.restored_to(new_data, new_coding),
            p > 0 ==> !corrupt_size(set@.coded_size()),
            coding.len() == p,
            forall|q: int| 0 <= q < p ==> #[trigger] coding@[q].wf(),
            forall|q: int|
                0 <= q < p ==> #[trigger] coding@[q]@ == recovered_coding_blob(
                    new_coding[c[q]],
                    slot,
                    (coding_start(start_idx as int) + c[q]) as u64,
                ),
        decreases missing_coding.len() - p,
    {
        let n: usize = missing_coding[p];
        let ghost i: int = c[p as int];
        assert(n == NUM_DATA + i);
        assert(blobs@[NUM_DATA + i].wf());
        assert(new_coding[i].len() == size);
        let mut blob: Blob = blobs[n].clone();
        let idx: u64 = start_idx - (start_idx % NUM_DATA as u64) + n as u64 - NUM_CODING as u64;
        blob.set_slot(slot);
        blob.set_index(idx);
        if size < BLOB_HEADER_SIZE || size - BLOB_HEADER_SIZE > BLOB_DATA_SIZE {
            let recovery: Recovery = discard_coding(start_idx);
            proof {
                assert(corrupt(set@, new_data));
                assert(recovery@ =~= recovery_of(set@, slot, start_idx, new_data, new_coding));
            }
            return Ok(recovery);
        }
        blob.set_size(size);
        coding.push(blob);
        p = p + 1;
    }
    let recovery: Recovery = Recovery { data, coding, stale_coding: Vec::new() };
    proof {
        assert(!corrupt(set@, new_data)) by {
            assert forall|q: int| 0 <= q < d.len() implies !corrupt_size(
                data_blob(new_data[#[trigger] d[q]]).data_size() as int,
            ) by {
                assert(recovery.data@[q]@ == recovered_data_blob(new_data[d[q]]));
            }
        }
        let expected: RecoveryView = recovery_of(set@, slot, start_idx, new_data, new_coding);
        assert(recovery@.data =~= expected.data);
        assert(recovery@.coding =~= expected.coding);
        assert(recovery@ =~= expected);
    }
    Ok(recovery)
}

} // verus!
