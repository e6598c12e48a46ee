use erasure::error::ErasureError;
use erasure::layout::{set_bounds, ERASURE_SET_SIZE, NUM_CODING, NUM_DATA};
use erasure::packet::{
    Blob, BLOB_DATA_SIZE, BLOB_FLAG_IS_CODING, BLOB_HEADER_SIZE, BLOB_SIZE, SIZE_OFFSET,
};
use erasure::blocks::generate_coding_blocks;
use erasure::recovery::{categorize_blob, is_aligned, needs_recovery, recover, ErasureSet};
use erasure::window::{can_generate_coding, generate_coding, WindowSlot};
use rand::{thread_rng, Rng};

const WINDOW_SIZE: usize = 64;
const DEFAULT_SLOT_HEIGHT: u64 = 0;

fn empty_window(len: usize) -> Vec<WindowSlot> {
    (0..len)
        .map(|_| WindowSlot {
            data: None,
            coding: None,
            leader_unknown: false,
        })
        .collect()
}

// Gives the blobs consecutive indexes
fn index_blobs(blobs: &mut [Blob], id: &[u8; 32], slot: u64, start_index: u64) {
    let mut index = start_index;
    for b in blobs.iter_mut() {
        b.set_index(index);
        b.set_slot(slot);
        b.set_id(id);
        index += 1;
    }
}

fn generate_window(offset: usize, num_blobs: usize, slot: u64) -> Vec<WindowSlot> {
    let mut window = empty_window(WINDOW_SIZE);
    let mut blobs = Vec::with_capacity(num_blobs);
    for i in 0..num_blobs {
        let mut w = Blob::default();
        // generate a random length, multiple of 4 between 8 and 32
        let data_len = if i == 3 {
            BLOB_DATA_SIZE
        } else {
            (thread_rng().gen_range(2, 8) * 4) + 1
        };

        println!("data_len of {} is {}", i, data_len);
        w.set_size(data_len);

        for k in 0..data_len {
            w.data[BLOB_HEADER_SIZE + k] = (k + i) as u8;
        }

        // overfill, simulates re-used blobs
        for i in BLOB_HEADER_SIZE + data_len..BLOB_SIZE {
            w.data[i] = thread_rng().gen();
        }

        blobs.push(w);
    }

    index_blobs(&mut blobs, &thread_rng().gen(), slot, offset as u64);
    for b in blobs {
        let idx = b.index() as usize % WINDOW_SIZE;

        window[idx].data = Some(b);
    }
    window
}

fn scramble_window_tails(window: &mut [WindowSlot], num_blobs: usize) {
    for i in 0..num_blobs {
        if let Some(b) = &mut window[i].data {
            let size = b.meta.size;
            for i in size..BLOB_SIZE {
                b.data[i] = thread_rng().gen();
            }
        }
    }
}

fn setup_window_ledger(offset: usize, num_blobs: usize, slot: u64) -> Vec<WindowSlot> {
    // Generate a window
    let mut window = generate_window(offset, num_blobs, slot);

    for slot in &window {
        if let Some(blob) = &slot.data {
            assert!(!blob.is_coding());
        }
    }

    // Generate the coding blocks
    let mut index = (NUM_DATA + 2) as u64;
    assert!(generate_coding(&mut window, offset as u64, num_blobs, &mut index).is_ok());
    assert_eq!(index, (NUM_DATA - NUM_CODING) as u64);

    // put junk in the tails, simulates re-used blobs
    scramble_window_tails(&mut window, num_blobs);

    window
}

// What a ledger that was filled from the window holds of an erasure set
fn stored_set(window: &[WindowSlot], slot: u64, start_idx: u64) -> ErasureSet {
    let block_start = start_idx - start_idx % NUM_DATA as u64;
    let mut set = ErasureSet {
        data: (0..NUM_DATA).map(|_| None).collect(),
        coding: (0..NUM_CODING).map(|_| None).collect(),
    };
    for s in window {
        if let Some(b) = &s.data {
            if b.slot() == slot && b.index() / NUM_DATA as u64 == start_idx / NUM_DATA as u64 {
                let j = (b.index() - block_start) as usize;
                set.data[j] = Some(b.data[..b.data_size() as usize].to_vec());
            }
        }
        if let Some(b) = &s.coding {
            if b.slot() == slot && b.index() / NUM_DATA as u64 == start_idx / NUM_DATA as u64 {
                let i = (b.index() - block_start) as usize - (NUM_DATA - NUM_CODING);
                let data_size = b
                    .size()
                    .expect("Expected coding blob to have valid data size");
                set.coding[i] = Some(b.data[..data_size + BLOB_HEADER_SIZE].to_vec());
            }
        }
    }
    set
}

// Remove a data block, test for successful recovery
#[test]
pub fn test_window_recover_basic() {
    // Setup the window
    let offset = 0;
    let num_blobs = NUM_DATA + 2;
    let mut window = setup_window_ledger(offset, num_blobs, DEFAULT_SLOT_HEIGHT);

    println!("** whack data block:");
    // Test erasing a data block
    let erase_offset = offset % window.len();

    // Create a hole in the window
    let refwindow = window[erase_offset].data.take();

    let set = stored_set(&window, 0, offset as u64);

    // Recover it from coding
    let recovery =
        recover(&set, 0, offset as u64).expect("Expected successful recovery of erased blobs");

    assert!(recovery.coding.is_empty());
    {
        let result = recovery
            .data
            .first()
            .expect("Expected recovered data blob to exist");
        let ref_l2 = refwindow.unwrap();

        assert_eq!(result.size().unwrap(), ref_l2.size().unwrap());
        assert_eq!(
            result.data[..ref_l2.data_size() as usize],
            ref_l2.data[..ref_l2.data_size() as usize]
        );
        assert_eq!(result.index(), offset as u64);
        assert_eq!(result.slot(), DEFAULT_SLOT_HEIGHT as u64);
    }
    assert_eq!(recovery.data.len(), 1);
    assert!(recovery.stale_coding.is_empty());
}

// Remove a data and coding block, test for successful recovery
#[test]
pub fn test_window_recover_basic2() {
    // Setup the window
    let offset = 0;
    let num_blobs = NUM_DATA + 2;
    let mut window = setup_window_ledger(offset, num_blobs, DEFAULT_SLOT_HEIGHT);

    println!("** whack coding block and data block");
    // Tests erasing a coding block and a data block
    let coding_start = offset - (offset % NUM_DATA) + (NUM_DATA - NUM_CODING);
    let erase_offset = coding_start % window.len();

    // Create a hole in the window
    let refwindowdata = window[erase_offset].data.take();
    let refwindowcoding = window[erase_offset].coding.take();

    let set = stored_set(&window, 0, offset as u64);

    // Recover it from coding
    let recovery =
        recover(&set, 0, offset as u64).expect("Expected successful recovery of erased blobs");

    {
        let recovered_data_blob = recovery
            .data
            .first()
            .expect("Expected recovered data blob to exist");

        let recovered_coding_blob = recovery
            .coding
            .first()
            .expect("Expected recovered coding blob to exist");

        // Check the recovered data result
        let ref_l2 = refwindowdata.unwrap();
        let result = recovered_data_blob;

        assert_eq!(result.size().unwrap(), ref_l2.size().unwrap());
        assert_eq!(
            result.data[..ref_l2.data_size() as usize],
            ref_l2.data[..ref_l2.data_size() as usize]
        );
        assert_eq!(result.index(), coding_start as u64);
        assert_eq!(result.slot(), DEFAULT_SLOT_HEIGHT as u64);

        // Check the recovered erasure result
        let ref_l2 = refwindowcoding.unwrap();
        let result = recovered_coding_blob;

        assert_eq!(result.size().unwrap(), ref_l2.size().unwrap());
        assert_eq!(
            result.data()[..ref_l2.size().unwrap() as usize],
            ref_l2.data()[..ref_l2.size().unwrap() as usize]
        );
        assert_eq!(result.index(), coding_start as u64);
        assert_eq!(result.slot(), DEFAULT_SLOT_HEIGHT as u64);
    }
}

// A window of small blobs of the given size of data, indexed from `offset` on
fn small_window(len: usize, offset: usize, num_blobs: usize, slot: u64) -> Vec<WindowSlot> {
    let mut window = empty_window(len);
    for i in offset..offset + num_blobs {
        let mut b = Blob::default();
        let size = 10 + i % 7;
        b.set_size(size);
        b.set_slot(slot);
        b.set_index(i as u64);
        b.set_id(&[i as u8; 32]);
        for k in 0..200 {
            b.data[BLOB_HEADER_SIZE + k] = (3 * i + k) as u8;
        }
        window[i % len].data = Some(b);
    }
    window
}

#[test]
fn coding_goes_block_by_block() {
    let mut window = small_window(40, 32, 40, 5);
    let mut index = 100;
    assert_eq!(generate_coding(&mut window, 45, 19, &mut index), Ok(()));
    // slot 5 is where the index 45 lies; the blocks of the window start at multiples of the
    // block size, so the slots 0..16 are coded, and 16..24 are not a whole block
    for (p, s) in window.iter().enumerate() {
        assert_eq!(s.coding.is_some(), (12..16).contains(&p), "slot {}", p);
    }
    assert_eq!(index, 44);
}

#[test]
fn transmit_index_only_goes_back() {
    let mut window = small_window(64, 0, 32, 0);
    let mut index = 3;
    assert_eq!(generate_coding(&mut window, 17, 15, &mut index), Ok(()));
    assert_eq!(index, 3);
    let mut window = small_window(64, 0, 32, 0);
    let mut index = 50;
    assert_eq!(generate_coding(&mut window, 17, 15, &mut index), Ok(()));
    assert_eq!(index, 28);
}

#[test]
fn nothing_is_coded_without_all_data() {
    let mut window = small_window(64, 0, 32, 0);
    window[7].data = None;
    let mut index = 50;
    assert_eq!(generate_coding(&mut window, 0, 32, &mut index), Ok(()));
    assert_eq!(index, 50);
    assert!(window.iter().all(|s| s.coding.is_none()));
}

#[test]
fn coding_stops_at_the_first_block_with_missing_data() {
    let mut window = small_window(64, 0, 48, 0);
    window[20].data = None;
    let mut index = 50;
    assert_eq!(generate_coding(&mut window, 0, 48, &mut index), Ok(()));
    assert_eq!(index, 12);
    for (p, s) in window.iter().enumerate() {
        assert_eq!(s.coding.is_some(), (12..16).contains(&p));
    }
}

#[test]
fn coding_too_few_blobs_changes_nothing() {
    let mut window = small_window(64, 0, 32, 0);
    let mut index = 50;
    assert_eq!(generate_coding(&mut window, 0, 15, &mut index), Ok(()));
    assert_eq!(index, 50);
    assert!(window.iter().all(|s| s.coding.is_none()));
    assert_eq!(window[3].data.as_ref().unwrap().data[BLOB_HEADER_SIZE + 150], 159);
}

#[test]
fn coding_keeps_what_is_in_use() {
    let before = small_window(64, 0, 34, 0);
    let mut window = small_window(64, 0, 34, 0);
    window[40].coding = Some(Blob::default());
    window[50].leader_unknown = true;
    let mut index = 50;
    assert_eq!(generate_coding(&mut window, 0, 34, &mut index), Ok(()));
    for (p, (s, t)) in before.iter().zip(window.iter()).enumerate() {
        match (&s.data, &t.data) {
            (Some(a), Some(b)) => {
                assert_eq!(a.meta.size, b.meta.size);
                assert_eq!(a.data[..a.meta.size], b.data[..b.meta.size]);
                if p < 32 {
                    // the largest blob holds 16 bytes of data
                    assert!(b.data[b.meta.size..80].iter().all(|x| *x == 0));
                    assert_eq!(a.data[80..], b.data[80..]);
                } else {
                    assert_eq!(a.data, b.data);
                }
            }
            (None, None) => {}
            _ => panic!("blob {} came or went", p),
        }
        assert_eq!(t.leader_unknown, p == 50);
        assert_eq!(
            t.coding.is_some(),
            (12..16).contains(&p) || (28..32).contains(&p) || p == 40
        );
    }
}

#[test]
fn coding_blobs_carry_the_header_of_their_data_blob() {
    let mut window = small_window(64, 16, 16, 9);
    let mut index = 50;
    assert_eq!(generate_coding(&mut window, 16, 16, &mut index), Ok(()));
    for p in 28..32 {
        let b = window[p].coding.as_ref().unwrap();
        assert!(b.is_coding());
        assert_eq!(b.flags(), BLOB_FLAG_IS_CODING);
        assert_eq!(b.index(), p as u64);
        assert_eq!(b.slot(), 9);
        assert_eq!(b.id(), [p as u8; 32]);
        // header and 16 bytes of data, a multiple of four
        assert_eq!(b.size(), Some(80));
        assert_eq!(b.meta.size, 144);
        assert!(!window[p].data.as_ref().unwrap().is_coding());
    }
}

#[test]
fn lost_blobs_of_any_coded_block_are_recovered() {
    let reference = small_window(64, 0, 48, 2);
    let mut window = small_window(64, 0, 48, 2);
    let mut index = 50;
    assert_eq!(generate_coding(&mut window, 0, 48, &mut index), Ok(()));
    for block in 0..3 {
        for first in 0..NUM_DATA {
            let start = block * NUM_DATA;
            let mut set = stored_set(&window, 2, start as u64);
            let mut lost = vec![first, (first + 5) % NUM_DATA, (first + 11) % NUM_DATA];
            lost.sort();
            for j in &lost {
                set.data[*j] = None;
            }
            let c = first % NUM_CODING;
            let coding = set.coding[c].take().unwrap();
            let recovery = recover(&set, 2, (start + first) as u64).unwrap();
            assert_eq!(recovery.data.len(), 3);
            for (j, b) in lost.iter().zip(recovery.data.iter()) {
                let a = reference[start + *j].data.as_ref().unwrap();
                assert_eq!(b.meta.size, a.meta.size);
                assert_eq!(b.data[..b.meta.size], a.data[..a.meta.size]);
                assert!(b.data[b.meta.size..].iter().all(|x| *x == 0));
                assert_eq!(b.index(), (start + *j) as u64);
            }
            assert_eq!(recovery.coding.len(), 1);
            let b = &recovery.coding[0];
            assert_eq!(b.data()[..80], coding[BLOB_HEADER_SIZE..]);
            assert_eq!(b.index(), (start + NUM_DATA - NUM_CODING + c) as u64);
            assert_eq!(b.slot(), 2);
            assert_eq!(b.size(), Some(80));
            assert!(recovery.stale_coding.is_empty());
        }
    }
}

fn coded_set() -> ErasureSet {
    let mut window = small_window(64, 0, 16, 0);
    let mut index = 50;
    assert_eq!(generate_coding(&mut window, 0, 16, &mut index), Ok(()));
    stored_set(&window, 0, 0)
}

#[test]
fn recovering_twice_gives_the_same() {
    let mut set = coded_set();
    set.data[4] = None;
    set.coding[2] = None;
    let a = recover(&set, 0, 0).unwrap();
    let b = recover(&set, 0, 0).unwrap();
    assert_eq!(a.data[0].data, b.data[0].data);
    assert_eq!(a.coding[0].data, b.coding[0].data);
}

#[test]
fn nothing_is_recovered_where_no_data_are_missing() {
    let mut set = coded_set();
    set.coding[0] = None;
    set.coding[3] = None;
    let recovery = recover(&set, 0, 0).unwrap();
    assert!(recovery.data.is_empty());
    assert!(recovery.coding.is_empty());
    assert!(recovery.stale_coding.is_empty());
}

#[test]
fn recovery_needs_enough_blobs() {
    let mut set = coded_set();
    for j in 0..3 {
        set.data[j] = None;
    }
    set.coding[1] = None;
    assert!(recover(&set, 0, 0).is_ok());
    set.coding[2] = None;
    assert_eq!(
        recover(&set, 0, 0).err(),
        Some(ErasureError::NotEnoughBlocksToDecode)
    );
}

#[test]
fn stored_blobs_of_a_wrong_size_are_refused() {
    let mut set = coded_set();
    set.data[0] = None;
    set.data[9] = Some(vec![1; BLOB_HEADER_SIZE]);
    assert_eq!(
        recover(&set, 0, 0).err(),
        Some(ErasureError::InvalidBlobData)
    );
    let mut set = coded_set();
    set.data[0] = None;
    set.coding[3] = Some(vec![1; BLOB_SIZE + 1]);
    assert_eq!(
        recover(&set, 0, 0).err(),
        Some(ErasureError::InvalidBlobData)
    );
}

#[test]
fn corrupt_coding_is_given_up() {
    let mut set = coded_set();
    set.data[0] = None;
    // changes the size in the header of the blob to be recovered
    let coding = set.coding[0].as_mut().unwrap();
    for b in 0..8 {
        coding[BLOB_HEADER_SIZE + SIZE_OFFSET + b] ^= 0x55;
    }
    let recovery = recover(&set, 0, 21).unwrap();
    assert!(recovery.data.is_empty());
    assert!(recovery.coding.is_empty());
    assert_eq!(recovery.stale_coding, vec![28, 29, 30, 31]);
}

#[test]
fn coding_blobs_are_not_recovered_from_less_than_a_header() {
    // all zero blocks: the size in the recovered header is smaller than the header
    let mut set = ErasureSet {
        data: (0..NUM_DATA).map(|_| Some(vec![0; 68])).collect(),
        coding: (0..NUM_CODING).map(|_| Some(vec![0; 68])).collect(),
    };
    set.data[1] = None;
    let recovery = recover(&set, 0, 0).unwrap();
    assert!(recovery.data.is_empty());
    assert_eq!(recovery.stale_coding, vec![12, 13, 14, 15]);
}

#[test]
fn entries_are_categorized() {
    let mut blobs: Vec<Blob> = Vec::new();
    let mut missing: Vec<usize> = Vec::new();
    let mut erasures: Vec<i32> = Vec::new();
    let mut bytes = vec![7u8; BLOB_HEADER_SIZE + 1];
    bytes[SIZE_OFFSET..SIZE_OFFSET + 8].copy_from_slice(&[65, 0, 0, 0, 0, 0, 0, 0]);
    assert_eq!(
        categorize_blob(&Some(bytes), &mut blobs, &mut missing, &mut erasures, 0),
        Ok(())
    );
    assert_eq!(blobs[0].data[64], 7);
    assert_eq!(blobs[0].data[65], 0);
    assert_eq!(blobs[0].meta.size, 65);
    assert_eq!(
        categorize_blob(&None, &mut blobs, &mut missing, &mut erasures, 17),
        Ok(())
    );
    assert_eq!(missing, vec![1]);
    assert_eq!(erasures, vec![17]);
    assert_eq!(blobs[1].meta.size, 0);
    assert_eq!(
        categorize_blob(
            &Some(vec![0; BLOB_HEADER_SIZE]),
            &mut blobs,
            &mut missing,
            &mut erasures,
            2
        ),
        Err(ErasureError::InvalidBlobData)
    );
    assert_eq!(blobs.len(), 2);
    assert_eq!(ERASURE_SET_SIZE, 20);
}

#[test]
fn windows_that_cannot_be_coded_are_told_apart() {
    let window = small_window(64, 0, 32, 0);
    assert!(can_generate_coding(&window, 0, 32));
    // the place of a coding blob is occupied
    let mut window = small_window(64, 0, 32, 0);
    window[30].coding = Some(Blob::default());
    assert!(can_generate_coding(&window, 0, 31));
    assert!(!can_generate_coding(&window, 0, 32));
    // the second block is not reached
    window[2].data = None;
    assert!(can_generate_coding(&window, 0, 32));
    // a blob leaves no room for the header of a coding blob
    let mut window = small_window(64, 0, 32, 0);
    window[1].data.as_mut().unwrap().set_size(BLOB_DATA_SIZE + 1);
    assert!(!can_generate_coding(&window, 0, 32));
    // a ring that is shorter than its blocks: the coding blobs meet in the second round
    let window = small_window(16, 0, 16, 0);
    assert!(can_generate_coding(&window, 0, 16));
    assert!(!can_generate_coding(&window, 0, 32));
    let window = small_window(3, 0, 3, 0);
    assert!(!can_generate_coding(&window, 0, 16));
}

#[test]
fn alignment_of_erasure_sets() {
    let mut set = coded_set();
    assert!(is_aligned(&set));
    set.coding[0].as_mut().unwrap().push(0);
    // nothing to recover
    assert!(is_aligned(&set));
    set.data[5] = None;
    assert!(!is_aligned(&set));
    // an invalid blob is found first
    set.data[6] = Some(vec![0; 3]);
    assert!(is_aligned(&set));
}

#[test]
fn short_rings_are_coded() {
    let reference = small_window(8, 0, 8, 0);
    let mut window = small_window(8, 0, 8, 0);
    let mut index = 50;
    assert_eq!(generate_coding(&mut window, 0, 16, &mut index), Ok(()));
    assert_eq!(index, 12);
    for (p, s) in window.iter().enumerate() {
        assert_eq!(s.coding.is_some(), p >= 4);
        let (a, b) = (
            reference[p].data.as_ref().unwrap(),
            s.data.as_ref().unwrap(),
        );
        assert_eq!(a.data[..a.meta.size], b.data[..b.meta.size]);
    }
}

#[test]
fn bounds_of_erasure_sets() {
    assert_eq!(set_bounds(0), Some((0, 12, 16)));
    assert_eq!(set_bounds(15), Some((0, 12, 16)));
    assert_eq!(set_bounds(16), Some((16, 28, 32)));
    assert_eq!(
        set_bounds(u64::MAX - 16),
        Some((u64::MAX - 31, u64::MAX - 19, u64::MAX - 15))
    );
    assert_eq!(set_bounds(u64::MAX - 15), None);
    assert_eq!(set_bounds(u64::MAX), None);
}

#[test]
fn junk_behind_the_data_does_not_reach_the_coding_blobs() {
    let mut a = small_window(64, 0, 34, 3);
    let mut b = small_window(64, 0, 34, 3);
    scramble_window_tails(&mut a, 34);
    scramble_window_tails(&mut b, 34);
    let (mut index_a, mut index_b): (u64, u64) = (50, 50);
    assert_eq!(generate_coding(&mut a, 0, 34, &mut index_a), Ok(()));
    assert_eq!(generate_coding(&mut b, 0, 34, &mut index_b), Ok(()));
    assert_eq!(index_a, index_b);
    for (s, t) in a.iter().zip(b.iter()) {
        match (&s.coding, &t.coding) {
            (Some(x), Some(y)) => {
                assert_eq!(x.data, y.data);
                assert_eq!(x.meta, y.meta);
            }
            (None, None) => {}
            _ => panic!("only one window has the coding blob"),
        }
    }
    assert!(a[12].coding.is_some() && a[31].coding.is_some());
}

#[test]
fn any_index_of_a_block_recovers_the_same() {
    let mut set = coded_set();
    set.data[4] = None;
    set.coding[2] = None;
    let a = recover(&set, 7, 32).unwrap();
    for index in 33..48 {
        let b = recover(&set, 7, index).unwrap();
        assert_eq!(a.data.len(), b.data.len());
        assert_eq!(a.data[0].data, b.data[0].data);
        assert_eq!(a.data[0].meta, b.data[0].meta);
        assert_eq!(a.coding.len(), b.coding.len());
        assert_eq!(a.coding[0].data, b.coding[0].data);
        assert_eq!(b.coding[0].index(), 46);
        assert_eq!(a.stale_coding, b.stale_coding);
    }
}

#[test]
fn recovery_is_needed_where_data_are_missing() {
    assert_eq!(needs_recovery(0, 0), Ok(false));
    assert_eq!(needs_recovery(0, 4), Ok(false));
    assert_eq!(needs_recovery(1, 0), Ok(true));
    assert_eq!(needs_recovery(1, 3), Ok(true));
    assert_eq!(needs_recovery(4, 0), Ok(true));
    for (d, c) in [(1, 4), (2, 3), (5, 0), (usize::MAX, usize::MAX)] {
        assert_eq!(
            needs_recovery(d, c),
            Err(ErasureError::NotEnoughBlocksToDecode)
        );
    }
}

#[test]
fn corrupt_coding_is_not_tried_again() {
    let mut set = coded_set();
    set.data[0] = None;
    for b in 0..8 {
        set.coding[0].as_mut().unwrap()[BLOB_HEADER_SIZE + SIZE_OFFSET + b] ^= 0x55;
    }
    let recovery = recover(&set, 0, 3).unwrap();
    for i in recovery.stale_coding {
        set.coding[i as usize - (NUM_DATA - NUM_CODING)] = None;
    }
    assert!(set.coding.iter().all(|c| c.is_none()));
    for t in 0..16 {
        assert_eq!(
            recover(&set, 0, t).err(),
            Some(ErasureError::NotEnoughBlocksToDecode)
        );
    }
}

#[test]
fn coding_blobs_hold_the_coding_blocks_of_the_padded_data() {
    let reference = small_window(64, 0, 32, 0);
    let mut window = small_window(64, 0, 32, 0);
    // a blob whose header is not all in use
    window[20].data.as_mut().unwrap().meta.size = 30;
    let mut index = 50;
    assert_eq!(generate_coding(&mut window, 0, 32, &mut index), Ok(()));
    for block in 0..2 {
        let z = 80;
        let data: Vec<Vec<u8>> = (block * 16..block * 16 + 16)
            .map(|i| {
                let b = reference[i].data.as_ref().unwrap();
                let size = if i == 20 { 30 } else { b.meta.size };
                let mut bytes = b.data[..size].to_vec();
                bytes.resize(z, 0);
                bytes
            })
            .collect();
        let mut coding: Vec<Vec<u8>> = (0..NUM_CODING).map(|_| vec![0; z]).collect();
        {
            let data_slices: Vec<&[u8]> = data.iter().map(|d| d.as_slice()).collect();
            let mut slices: Vec<&mut [u8]> = coding.iter_mut().map(|c| c.as_mut_slice()).collect();
            assert_eq!(generate_coding_blocks(&mut slices, &data_slices), Ok(()));
        }
        for i in 0..NUM_CODING {
            let b = window[block * 16 + 12 + i].coding.as_ref().unwrap();
            assert_eq!(b.data()[..z], coding[i][..]);
            assert_eq!(b.meta.size, z + BLOB_HEADER_SIZE);
        }
    }
}
