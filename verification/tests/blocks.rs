use erasure::blocks::{generate_coding_blocks, get_matrix, ERASURE_W, JERASURE_ALIGN};
use erasure::cauchy::solve;
use erasure::decode::{decode_blocks, restore};
use erasure::error::ErasureError;
use erasure::galois::{divide, multiply};
use erasure::positions::find_positions;

fn encode(data: &[Vec<u8>], m: usize) -> Vec<Vec<u8>> {
    let len = data[0].len();
    let mut coding: Vec<Vec<u8>> = (0..m).map(|_| vec![0u8; len]).collect();
    {
        let mut coding_slices: Vec<&mut [u8]> =
            coding.iter_mut().map(|x| x.as_mut_slice()).collect();
        let data_slices: Vec<&[u8]> = data.iter().map(|x| x.as_slice()).collect();
        assert_eq!(
            generate_coding_blocks(coding_slices.as_mut_slice(), data_slices.as_slice()),
            Ok(())
        );
    }
    coding
}

fn decode(
    data: &mut [Vec<u8>],
    coding: &mut [Vec<u8>],
    erasures: &[i32],
) -> Result<(), ErasureError> {
    let mut data_slices: Vec<&mut [u8]> = data.iter_mut().map(|x| x.as_mut_slice()).collect();
    let mut coding_slices: Vec<&mut [u8]> = coding.iter_mut().map(|x| x.as_mut_slice()).collect();
    decode_blocks(
        data_slices.as_mut_slice(),
        coding_slices.as_mut_slice(),
        erasures,
    )
}

fn sample(k: usize, len: usize) -> Vec<Vec<u8>> {
    (0..k)
        .map(|j| (0..len).map(|b| (31 * j + 7 * b + 1) as u8).collect())
        .collect()
}

#[test]
pub fn test_coding() {
    let zero_vec = vec![0; 16];
    let mut vs: Vec<Vec<u8>> = (0..4).map(|i| (i..(16 + i)).collect()).collect();
    let v_orig: Vec<u8> = vs[0].clone();

    let m = 2;
    let mut coding_blocks: Vec<_> = (0..m).map(|_| vec![0u8; 16]).collect();

    {
        let mut coding_blocks_slices: Vec<_> =
            coding_blocks.iter_mut().map(|x| x.as_mut_slice()).collect();
        let v_slices: Vec<_> = vs.iter().map(|x| x.as_slice()).collect();

        assert!(generate_coding_blocks(
            coding_blocks_slices.as_mut_slice(),
            v_slices.as_slice(),
        )
        .is_ok());
    }
    println!("coding blocks:");
    for b in &coding_blocks {
        println!("{:?}", b);
    }
    let erasure: i32 = 1;
    let erasures = vec![erasure, -1];
    // clear an entry
    vs[erasure as usize].copy_from_slice(zero_vec.as_slice());

    {
        let mut coding_blocks_slices: Vec<_> =
            coding_blocks.iter_mut().map(|x| x.as_mut_slice()).collect();
        let mut v_slices: Vec<_> = vs.iter_mut().map(|x| x.as_mut_slice()).collect();

        assert!(decode_blocks(
            v_slices.as_mut_slice(),
            coding_blocks_slices.as_mut_slice(),
            erasures.as_slice(),
        )
        .is_ok());
    }

    println!("vs:");
    for v in &vs {
        println!("{:?}", v);
    }
    assert_eq!(v_orig, vs[0]);
    // the cleared entry is back
    assert_eq!(vs[1], (1..17).collect::<Vec<u8>>());
}

#[test]
fn coding_blocks_have_the_expected_bytes() {
    let data: Vec<Vec<u8>> = (0..4).map(|i| (i..(16 + i)).collect()).collect();
    let coding = encode(&data, 2);
    assert_eq!(
        coding[0],
        vec![232, 0, 160, 215, 21, 252, 222, 123, 190, 3, 246, 212, 232, 5, 99, 35]
    );
    assert_eq!(
        coding[1],
        vec![168, 106, 176, 195, 3, 105, 177, 198, 254, 105, 230, 192, 85, 110, 179, 204]
    );
}

#[test]
fn field_products_and_quotients() {
    assert_eq!(multiply(2, 0x8000_0000), 0x0040_0007);
    assert_eq!(multiply(0xdead_beef, 0x1234_5678), 0x9f14_ad51);
    assert_eq!(multiply(0xffff_ffff, 0xffff_ffff), 0xaad5_4ffe);
    assert_eq!(multiply(0, 77), 0);
    assert_eq!(multiply(1, 77), 77);
    assert_eq!(divide(1, 2), 0x8020_0003);
    assert_eq!(divide(1, 3), 0xffc0_0002);
    assert_eq!(divide(0xdead_beef, 0x1234_5678), 0x5bf0_1c58);
    assert_eq!(divide(0, 5), 0);
}

#[test]
fn field_laws_on_values() {
    let (a, b, c): (u32, u32, u32) = (0x8765_4321, 0x0bad_cafe, 0xc001_d00d);
    assert_eq!(multiply(a, b), multiply(b, a));
    assert_eq!(multiply(a, multiply(b, c)), multiply(multiply(a, b), c));
    assert_eq!(multiply(a, b ^ c), multiply(a, b) ^ multiply(a, c));
    assert_eq!(multiply(divide(a, b), b), a);
    assert_eq!(divide(multiply(a, b), b), a);
}

#[test]
fn matrix_is_a_cauchy_matrix() {
    assert_eq!(
        get_matrix(2, 4),
        vec![
            0x8020_0003,
            0xffc0_0002,
            0xc030_0002,
            0xaa80_0003,
            0xffc0_0002,
            0x8020_0003,
            0xaa80_0003,
            0xc030_0002,
        ]
    );
    assert_eq!(get_matrix(1, 1), vec![1]);
    assert_eq!(get_matrix(0, 3), Vec::<u32>::new());
    assert_eq!(ERASURE_W, 32);
    assert_eq!(JERASURE_ALIGN, 4);
}

#[test]
fn cauchy_systems_are_solved() {
    let xs: Vec<u32> = vec![0, 1, 2];
    let ys: Vec<u32> = vec![5, 9, 12];
    let d: Vec<u32> = vec![0x1111, 0xdead_beef, 7];
    let rhs: Vec<u32> = xs
        .iter()
        .map(|x| {
            (0..3)
                .map(|a| divide(d[a], *x ^ ys[a]))
                .fold(0, |sum, t| sum ^ t)
        })
        .collect();
    assert_eq!(solve(&xs, &ys, &rhs, 3), d);
}

#[test]
fn positions_of_flags() {
    let flags = vec![true, false, true, true, false];
    assert_eq!(find_positions(&flags, true), vec![0, 2, 3]);
    assert_eq!(find_positions(&flags, false), vec![1, 4]);
    assert_eq!(find_positions(&Vec::new(), true), Vec::<usize>::new());
}

#[test]
fn nothing_to_code_or_decode() {
    let mut block = vec![1u8, 2, 3];
    {
        let mut coding: Vec<&mut [u8]> = vec![block.as_mut_slice()];
        assert_eq!(generate_coding_blocks(coding.as_mut_slice(), &[]), Ok(()));
    }
    assert_eq!(block, vec![1, 2, 3]);
    assert_eq!(decode(&mut [], &mut [block.clone()], &[0, -1]), Ok(()));
}

#[test]
fn blocks_of_different_sizes_are_refused_for_coding() {
    let long = vec![1u8; 8];
    let short = vec![1u8; 4];
    let mut out = vec![9u8; 8];
    {
        let mut coding: Vec<&mut [u8]> = vec![out.as_mut_slice()];
        let data: Vec<&[u8]> = vec![&long, &short];
        assert_eq!(
            generate_coding_blocks(coding.as_mut_slice(), &data),
            Err(ErasureError::InvalidBlockSize)
        );
    }
    assert_eq!(out, vec![9u8; 8]);
    {
        let mut coding: Vec<&mut [u8]> = vec![out.as_mut_slice()];
        let data: Vec<&[u8]> = vec![&short, &short];
        assert_eq!(
            generate_coding_blocks(coding.as_mut_slice(), &data),
            Err(ErasureError::InvalidBlockSize)
        );
    }
    assert_eq!(out, vec![9u8; 8]);
}

#[test]
fn blocks_of_different_sizes_are_refused_for_decoding() {
    let mut data = vec![vec![1u8; 8], vec![2u8; 4]];
    let mut coding = vec![vec![3u8; 8]];
    assert_eq!(
        decode(&mut data, &mut coding, &[0, -1]),
        Err(ErasureError::InvalidBlockSize)
    );
    assert_eq!(data, vec![vec![1u8; 8], vec![2u8; 4]]);
    let mut data = vec![vec![1u8; 8], vec![2u8; 8]];
    let mut coding = vec![vec![3u8; 4]];
    assert_eq!(
        decode(&mut data, &mut coding, &[0, -1]),
        Err(ErasureError::InvalidBlockSize)
    );
    assert_eq!(coding, vec![vec![3u8; 4]]);
}

#[test]
fn too_many_losses_cannot_be_decoded() {
    let data = sample(4, 16);
    let coding = encode(&data, 2);
    let mut d = data.clone();
    let mut c = coding.clone();
    assert_eq!(
        decode(&mut d, &mut c, &[0, 1, 5, -1]),
        Err(ErasureError::DecodeError)
    );
    assert_eq!(d, data);
    assert_eq!(c, coding);
}

#[test]
fn every_loss_that_can_be_made_up_for_is_restored() {
    let (k, m): (usize, usize) = (5, 3);
    let data = sample(k, 24);
    let coding = encode(&data, m);
    for lost in 0u32..(1 << (k + m)) {
        if lost.count_ones() > m as u32 {
            continue;
        }
        let mut d = data.clone();
        let mut c = coding.clone();
        let mut erasures: Vec<i32> = Vec::new();
        for n in 0..(k + m) {
            if lost >> n & 1 == 1 {
                erasures.push(n as i32);
                if n < k {
                    d[n] = vec![0xa5; 24];
                } else {
                    c[n - k] = vec![0x5a; 24];
                }
            }
        }
        erasures.push(-1);
        assert_eq!(decode(&mut d, &mut c, &erasures), Ok(()));
        assert_eq!(d, data);
        assert_eq!(c, coding);
    }
}

#[test]
fn decoding_does_not_depend_on_what_lost_blocks_hold() {
    let data = sample(6, 8);
    let coding = encode(&data, 2);
    let mut d1 = data.clone();
    let mut c1 = coding.clone();
    d1[2] = vec![1; 8];
    c1[1] = vec![2; 8];
    let mut d2 = data.clone();
    let mut c2 = coding.clone();
    d2[2] = vec![3; 8];
    c2[1] = vec![4; 8];
    assert_eq!(decode(&mut d1, &mut c1, &[2, 7, -1]), Ok(()));
    assert_eq!(decode(&mut d2, &mut c2, &[7, 2, 2, -1, 0]), Ok(()));
    assert_eq!(d1, d2);
    assert_eq!(c1, c2);
}

#[test]
fn coding_blocks_that_are_not_used_stay_as_they_are() {
    let data = sample(3, 4);
    let coding = encode(&data, 2);
    let mut d = data.clone();
    let mut c = coding.clone();
    d[0] = vec![0; 4];
    c[1] = vec![77; 4];
    assert_eq!(decode(&mut d, &mut c, &[0, -1]), Ok(()));
    assert_eq!(d, data);
    assert_eq!(c[0], coding[0]);
    assert_eq!(c[1], vec![77; 4]);
}

#[test]
fn restore_gives_the_whole_set() {
    let data = sample(3, 8);
    let coding = encode(&data, 2);
    let mut d = data.clone();
    d[1] = vec![0; 8];
    let data_slices: Vec<&[u8]> = d.iter().map(|x| x.as_slice()).collect();
    let coding_slices: Vec<&[u8]> = coding.iter().map(|x| x.as_slice()).collect();
    let (new_data, new_coding) = restore(
        &data_slices,
        &coding_slices,
        &vec![false, true, false],
        &vec![false, false],
    );
    assert_eq!(new_data, data);
    assert_eq!(new_coding, coding);
}

#[test]
fn square_submatrices_are_invertible() {
    let (m, k): (usize, usize) = (4, 6);
    let matrix = get_matrix(m, k);
    for i in 0..m {
        for j in 0..k {
            assert_ne!(matrix[i * k + j], 0);
            for p in 0..i {
                for q in 0..j {
                    let determinant = multiply(matrix[i * k + j], matrix[p * k + q])
                        ^ multiply(matrix[i * k + q], matrix[p * k + j]);
                    assert_ne!(determinant, 0);
                }
            }
        }
    }
    // rows 3, 0, 2 and columns 5, 1, 4
    let (rows, cols): ([usize; 3], [usize; 3]) = ([3, 0, 2], [5, 1, 4]);
    let rhs: Vec<u32> = vec![0xdead_beef, 1, 0x8000_0001];
    let xs: Vec<u32> = rows.iter().map(|i| *i as u32).collect();
    let ys: Vec<u32> = cols.iter().map(|j| (m + *j) as u32).collect();
    let d = solve(&xs, &ys, &rhs, 3);
    for p in 0..3 {
        let sum = (0..3)
            .map(|q| multiply(matrix[rows[p] * k + cols[q]], d[q]))
            .fold(0, |sum, t| sum ^ t);
        assert_eq!(sum, rhs[p]);
    }
}

#[test]
fn unlisted_blocks_stay_where_nothing_fits_together() {
    let data = sample(4, 12);
    let coding = vec![vec![1u8; 12], vec![2u8; 12], vec![3u8; 12]];
    let mut d = data.clone();
    let mut c = coding.clone();
    assert_eq!(decode(&mut d, &mut c, &[3, 5, -1]), Ok(()));
    assert_eq!(d[..3], data[..3]);
    assert_eq!(c[0], coding[0]);
    assert_eq!(c[2], coding[2]);
    assert!(d.iter().chain(c.iter()).all(|b| b.len() == 12));
}
