use fermat_chunks::error::ConfigError;
use fermat_chunks::modulus::{fermat_chunk_count, pow2_u64, Modulus};
use fermat_chunks::number::{minus_one, number_size, read_number_in_chunks, write_number_in_chunks};
use fermat_chunks::reduce::{
    borrow_at, classify, fold_large, fold_one, fold_one_boundary, modulo, propagate_borrow,
    sub_at, ReduceCase,
};
use fermat_chunks::store::ChunkStore;
use num_bigint::BigUint;

fn big(v: u128) -> BigUint {
    BigUint::from(v)
}

fn store_of_chunks(width: usize, chunks: &[u128]) -> ChunkStore {
    let mut store = ChunkStore::new(width).unwrap();
    for (i, c) in chunks.iter().enumerate() {
        store.write_chunk(i, &big(*c));
    }
    store
}

fn chunks_of(store: &ChunkStore, size: usize) -> Vec<u128> {
    (0..size)
        .map(|i| {
            let digits = store.read_chunk(i).to_u64_digits();
            match digits.len() {
                0 => 0u128,
                1 => digits[0] as u128,
                _ => (digits[0] as u128) | ((digits[1] as u128) << 64),
            }
        })
        .collect()
}

fn modulus_of(width: usize, max_size: usize) -> BigUint {
    (BigUint::from(1u32) << (8 * width * max_size)) + BigUint::from(1u32)
}

fn check_modulo(width: usize, max_size: usize, num: &BigUint, size: usize) {
    let mut store = ChunkStore::new(width).unwrap();
    write_number_in_chunks(num, 0, &mut store);
    store.write_chunk(size, &big(0x5A));
    let image = store.as_bytes().clone();
    let fill = minus_one(width);
    let r = modulo(max_size, &fill, &mut store, size);
    let m = modulus_of(width, max_size);
    if size <= max_size {
        assert_eq!(r, size);
        assert_eq!(store.as_bytes(), &image);
        return;
    }
    let expected = num % &m;
    assert_eq!(read_number_in_chunks(0, r, &store), expected);
    assert!(store.byte_len() >= image.len());
    assert!(store.byte_len() <= image.len().max(size * width));
    if expected == &m - BigUint::from(1u32) {
        assert_eq!(r, max_size + 1);
    } else {
        assert_eq!(r, max_size);
    }
    for j in r..size {
        assert_eq!(store.read_chunk(j), big(0));
    }
    assert_eq!(store.read_chunk(size), big(0x5A));
}

#[test]
fn classify_tells_the_cases_apart() {
    assert_eq!(classify(&big(0), 5, 2), ReduceCase::MscZero);
    assert_eq!(classify(&big(0), 3, 2), ReduceCase::MscZero);
    assert_eq!(classify(&big(1), 3, 2), ReduceCase::MscOneBoundary);
    assert_eq!(classify(&big(1), 4, 2), ReduceCase::MscOneGeneral);
    assert_eq!(classify(&big(1), 9, 2), ReduceCase::MscOneGeneral);
    assert_eq!(classify(&big(2), 3, 2), ReduceCase::MscLarge);
    assert_eq!(classify(&big(255), 4, 2), ReduceCase::MscLarge);
    assert_eq!(classify(&big(1), 1, 0), ReduceCase::MscOneBoundary);
}

#[test]
fn sub_at_without_borrow() {
    let mut store = store_of_chunks(1, &[10, 20, 30]);
    let borrow = sub_at(&mut store, 1, &big(5));
    assert!(!borrow);
    assert_eq!(chunks_of(&store, 3), vec![10, 15, 30]);
    let borrow = sub_at(&mut store, 1, &big(15));
    assert!(!borrow);
    assert_eq!(chunks_of(&store, 3), vec![10, 0, 30]);
}

#[test]
fn sub_at_with_borrow() {
    let mut store = store_of_chunks(1, &[10, 20, 30]);
    let borrow = sub_at(&mut store, 0, &big(11));
    assert!(borrow);
    assert_eq!(chunks_of(&store, 3), vec![255, 20, 30]);
    let borrow = sub_at(&mut store, 2, &big(256));
    assert!(borrow);
    assert_eq!(chunks_of(&store, 3), vec![255, 20, 30]);
    let borrow = sub_at(&mut store, 1, &big(0));
    assert!(!borrow);
    assert_eq!(chunks_of(&store, 3), vec![255, 20, 30]);
}

#[test]
fn borrow_at_a_zero_chunk_fills_it() {
    let mut store = store_of_chunks(2, &[0, 7]);
    let fill = minus_one(2);
    assert!(borrow_at(&mut store, 0, &fill));
    assert_eq!(chunks_of(&store, 2), vec![0xFFFF, 7]);
    assert!(!borrow_at(&mut store, 1, &fill));
    assert_eq!(chunks_of(&store, 2), vec![0xFFFF, 6]);
    assert!(borrow_at(&mut store, 5, &fill));
    assert_eq!(chunks_of(&store, 6), vec![0xFFFF, 6, 0, 0, 0, 0xFFFF]);
}

#[test]
fn propagate_borrow_runs_through_zero_chunks() {
    let fill = minus_one(1);
    let mut store = store_of_chunks(1, &[9, 0, 0, 0, 4, 8]);
    let last = propagate_borrow(&mut store, 1, 5, &fill);
    assert_eq!(last, 4);
    assert_eq!(chunks_of(&store, 6), vec![9, 255, 255, 255, 3, 8]);
    let last = propagate_borrow(&mut store, 0, 0, &fill);
    assert_eq!(last, 0);
    assert_eq!(chunks_of(&store, 6), vec![8, 255, 255, 255, 3, 8]);
    let mut store = store_of_chunks(1, &[0, 0, 1]);
    let last = propagate_borrow(&mut store, 0, 2, &fill);
    assert_eq!(last, 2);
    assert_eq!(chunks_of(&store, 3), vec![255, 255, 0]);
}

#[test]
fn fold_large_subtracts_below() {
    let fill = minus_one(1);
    let mut store = store_of_chunks(1, &[0xA1, 0x19]);
    let r = fold_large(&mut store, 1, 2, &big(0x19), &fill);
    assert_eq!(r, 2);
    assert_eq!(chunks_of(&store, 2), vec![137, 1]);
}

#[test]
fn fold_large_borrow_reaches_the_top() {
    let fill = minus_one(1);
    let mut store = store_of_chunks(1, &[0, 2]);
    let r = fold_large(&mut store, 1, 2, &big(2), &fill);
    assert_eq!(r, 1);
    assert_eq!(chunks_of(&store, 2), vec![255, 0]);
    let mut store = store_of_chunks(1, &[7, 3, 0, 0, 9]);
    let r = fold_large(&mut store, 3, 5, &big(9), &fill);
    assert_eq!(r, 4);
    assert_eq!(chunks_of(&store, 5), vec![7, 251, 255, 255, 0]);
}

#[test]
fn fold_large_equal_chunk_leaves_zero() {
    let fill = minus_one(1);
    let mut store = store_of_chunks(1, &[4, 5]);
    let r = fold_large(&mut store, 1, 2, &big(5), &fill);
    assert_eq!(r, 2);
    assert_eq!(chunks_of(&store, 2), vec![0, 1]);
}

#[test]
fn fold_large_borrow_stops_in_between() {
    let fill = minus_one(1);
    let mut store = store_of_chunks(1, &[1, 0, 6, 200]);
    let r = fold_large(&mut store, 3, 4, &big(200), &fill);
    assert_eq!(r, 4);
    assert_eq!(chunks_of(&store, 4), vec![58, 255, 5, 1]);
}

#[test]
fn fold_one_general() {
    let fill = minus_one(1);
    let mut store = store_of_chunks(1, &[5, 7, 1]);
    let r = fold_one(&mut store, 1, 3, &fill);
    assert_eq!(r, 2);
    assert_eq!(chunks_of(&store, 3), vec![253, 254, 0]);
    let mut store = store_of_chunks(1, &[9, 7, 1]);
    let r = fold_one(&mut store, 1, 3, &fill);
    assert_eq!(r, 2);
    assert_eq!(chunks_of(&store, 3), vec![1, 255, 0]);
}

#[test]
fn fold_one_general_with_a_maximal_chunk_below() {
    let fill = minus_one(1);
    let mut store = store_of_chunks(1, &[3, 4, 255, 1]);
    let r = fold_one(&mut store, 2, 4, &fill);
    assert_eq!(r, 3);
    assert_eq!(chunks_of(&store, 4), vec![3, 3, 255, 0]);
    let mut store = store_of_chunks(1, &[3, 0, 0, 255, 1]);
    let r = fold_one(&mut store, 2, 5, &fill);
    assert_eq!(r, 4);
    assert_eq!(chunks_of(&store, 5), vec![3, 0, 255, 254, 0]);
}

#[test]
fn fold_one_boundary_all_zero_stays() {
    let fill = minus_one(1);
    let mut store = store_of_chunks(1, &[0, 1]);
    let r = fold_one_boundary(&mut store, 1, 2, &fill);
    assert_eq!(r, 2);
    assert_eq!(chunks_of(&store, 2), vec![0, 1]);
    let mut store = store_of_chunks(1, &[0, 0, 0, 1]);
    let r = fold_one_boundary(&mut store, 3, 4, &fill);
    assert_eq!(r, 4);
    assert_eq!(chunks_of(&store, 4), vec![0, 0, 0, 1]);
}

#[test]
fn fold_one_boundary_subtracts_one() {
    let fill = minus_one(1);
    let mut store = store_of_chunks(1, &[3, 1]);
    let r = fold_one_boundary(&mut store, 1, 2, &fill);
    assert_eq!(r, 1);
    assert_eq!(chunks_of(&store, 2), vec![2, 0]);
    let mut store = store_of_chunks(1, &[0, 5, 1]);
    let r = fold_one_boundary(&mut store, 2, 3, &fill);
    assert_eq!(r, 2);
    assert_eq!(chunks_of(&store, 3), vec![255, 4, 0]);
    let mut store = store_of_chunks(1, &[0, 0, 1, 1]);
    let r = fold_one_boundary(&mut store, 3, 4, &fill);
    assert_eq!(r, 3);
    assert_eq!(chunks_of(&store, 4), vec![255, 255, 0, 0]);
}

#[test]
fn modulo_drops_zero_chunks() {
    let fill = minus_one(1);
    let mut store = store_of_chunks(1, &[7, 0, 0, 0]);
    let r = modulo(1, &fill, &mut store, 4);
    assert_eq!(r, 1);
    assert_eq!(chunks_of(&store, 4), vec![7, 0, 0, 0]);
}

#[test]
fn modulo_of_a_reduced_value_is_a_no_op() {
    let fill = minus_one(1);
    for size in 0..=3usize {
        let mut store = store_of_chunks(1, &[0xFF, 0xFF, 0xFF, 0x77]);
        let image = store.as_bytes().clone();
        let r = modulo(3, &fill, &mut store, size);
        assert_eq!(r, size);
        assert_eq!(store.as_bytes(), &image);
    }
    let mut store = store_of_chunks(4, &[12345]);
    let r = modulo(1, &minus_one(4), &mut store, 1);
    assert_eq!(r, 1);
    assert_eq!(store.as_bytes(), &vec![0x39, 0x30, 0, 0]);
}

#[test]
fn modulo_twice_is_modulo_once() {
    let fill = minus_one(1);
    let mut store = store_of_chunks(1, &[0x12, 0x34, 0x56, 0x78, 0x9A]);
    let r = modulo(2, &fill, &mut store, 5);
    let image = store.as_bytes().clone();
    let again = modulo(2, &fill, &mut store, r);
    assert_eq!(again, r);
    assert_eq!(store.as_bytes(), &image);
}

#[test]
fn modulo_keeps_the_largest_residue_in_one_more_chunk() {
    let fill = minus_one(1);
    let mut store = store_of_chunks(1, &[0, 1]);
    assert_eq!(modulo(1, &fill, &mut store, 2), 2);
    assert_eq!(chunks_of(&store, 2), vec![0, 1]);
    assert_eq!(modulo(1, &fill, &mut store, 2), 2);
    assert_eq!(chunks_of(&store, 2), vec![0, 1]);
    let mut store = store_of_chunks(1, &[255, 1]);
    assert_eq!(modulo(1, &fill, &mut store, 2), 1);
    assert_eq!(chunks_of(&store, 2), vec![254, 0]);
}

#[test]
fn modulo_example_with_two_chunks() {
    let fill = minus_one(1);
    let mut store = store_of_chunks(1, &[0xA1, 0x19]);
    let r = modulo(1, &fill, &mut store, 2);
    assert_eq!(r, 1);
    assert_eq!(chunks_of(&store, 2), vec![136, 0]);
}

#[test]
fn modulo_of_all_two_byte_numbers() {
    for v in 0..65536u128 {
        check_modulo(1, 1, &big(v), 2);
    }
}

#[test]
fn modulo_of_three_byte_numbers() {
    let mut v: u128 = 0;
    while v < (1 << 24) {
        check_modulo(1, 1, &big(v), 3);
        check_modulo(1, 2, &big(v), 3);
        v += 251;
    }
    for v in (0xFF_FF00u128..=0xFF_FFFF).chain(0x01_0000..=0x01_0200) {
        check_modulo(1, 1, &big(v), 3);
        check_modulo(1, 2, &big(v), 3);
    }
}

#[test]
fn modulo_of_many_numbers() {
    let mut seed: u128 = 0x243F6A8885A308D313198A2E03707344;
    for round in 0..400usize {
        seed = seed.wrapping_mul(0x2545F4914F6CDD1D2545F4914F6CDD1D).wrapping_add(round as u128 + 7);
        let bits = (round % 128) as u32 + 1;
        let v = if bits == 128 { seed } else { seed & ((1u128 << bits) - 1) };
        let num = big(v);
        for width in [1usize, 2, 3] {
            let size = number_size(&num, width);
            for max_size in 1..=4usize {
                check_modulo(width, max_size, &num, size);
                check_modulo(width, max_size, &num, size + 2);
            }
        }
    }
}

#[test]
fn modulo_of_special_numbers() {
    for width in [1usize, 2, 5] {
        for max_size in 1..=3usize {
            let m = modulus_of(width, max_size);
            let one = BigUint::from(1u32);
            let base = BigUint::from(1u32) << (8 * width);
            let mut specials: Vec<BigUint> = Vec::new();
            for k in 1..=5u32 {
                let mk = &m * BigUint::from(k);
                specials.push(mk.clone());
                specials.push(&mk - &one);
                specials.push(&mk + &one);
                let mp = m.pow(k);
                specials.push(mp.clone());
                specials.push(&mp - &one);
                specials.push(&mp + &one);
            }
            for e in 0..=8u32 {
                let p = base.pow(e);
                specials.push(p.clone());
                specials.push(&p - &one);
                specials.push(&p + &one);
                specials.push(&p * BigUint::from(2u32));
                specials.push(&p * (&base - &one));
            }
            for num in specials.iter() {
                let size = number_size(num, width);
                check_modulo(width, max_size, num, size);
                check_modulo(width, max_size, num, size + 1);
            }
        }
    }
}

#[test]
fn modulo_of_large_numbers() {
    let mut num = BigUint::from(3u32);
    for _ in 0..11 {
        for (width, max_size) in [(1usize, 1usize), (1, 4), (2, 8), (4, 3), (16, 2), (64, 1)] {
            let size = number_size(&num, width);
            check_modulo(width, max_size, &num, size);
        }
        num = &num * &num + BigUint::from(98765u32);
    }
}

#[test]
fn modulus_new_checks_the_configuration() {
    assert!(matches!(Modulus::new(0, 1), Err(ConfigError::ZeroMaxSize)));
    assert!(matches!(Modulus::new(3, 0), Err(ConfigError::ZeroChunkWidth)));
    assert!(matches!(Modulus::new(0, 0), Err(ConfigError::ZeroChunkWidth)));
    assert!(matches!(Modulus::new(1, usize::MAX), Err(ConfigError::TooLarge)));
    let m = Modulus::new(3, 2).unwrap();
    assert_eq!(m.max_chunks(), 3);
    assert_eq!(m.chunk_width(), 2);
    assert_eq!(m.borrow_fill(), &big(0xFFFF));
}

#[test]
fn modulus_fermat_rounds_the_chunk_count_up() {
    assert_eq!(Modulus::fermat(0, 1).unwrap().max_chunks(), 1);
    assert_eq!(Modulus::fermat(2, 1).unwrap().max_chunks(), 1);
    assert_eq!(Modulus::fermat(3, 1).unwrap().max_chunks(), 1);
    assert_eq!(Modulus::fermat(4, 1).unwrap().max_chunks(), 2);
    assert_eq!(Modulus::fermat(4, 2).unwrap().max_chunks(), 1);
    assert_eq!(Modulus::fermat(5, 3).unwrap().max_chunks(), 2);
    assert_eq!(Modulus::fermat(10, 16).unwrap().max_chunks(), 8);
    assert_eq!(Modulus::fermat(10, 17).unwrap().max_chunks(), 8);
    assert_eq!(Modulus::fermat(10, 128).unwrap().max_chunks(), 1);
    assert_eq!(Modulus::fermat(10, 1000).unwrap().max_chunks(), 1);
    assert_eq!(Modulus::fermat(24, 1 << 20).unwrap().max_chunks(), 2);
    assert_eq!(Modulus::fermat(23, 1 << 20).unwrap().max_chunks(), 1);
    assert_eq!(Modulus::fermat(33, 1 << 20).unwrap().max_chunks(), 1024);
    assert_eq!(Modulus::fermat(5, 3).unwrap().borrow_fill(), &big(0xFF_FFFF));
}

#[test]
fn modulus_fermat_checks_the_configuration() {
    assert!(matches!(Modulus::fermat(64, 1), Err(ConfigError::ExponentTooLarge)));
    assert!(matches!(Modulus::fermat(u32::MAX, 1), Err(ConfigError::ExponentTooLarge)));
    assert!(matches!(Modulus::fermat(64, 0), Err(ConfigError::ZeroChunkWidth)));
    assert!(matches!(Modulus::fermat(3, usize::MAX / 2), Err(ConfigError::TooLarge)));
    assert!(Modulus::fermat(63, 1).is_ok());
}

#[test]
fn fermat_chunk_count_rounds_up() {
    assert_eq!(fermat_chunk_count(0, 1), Ok(1));
    assert_eq!(fermat_chunk_count(3, 1), Ok(1));
    assert_eq!(fermat_chunk_count(4, 1), Ok(2));
    assert_eq!(fermat_chunk_count(5, 3), Ok(2));
    assert_eq!(fermat_chunk_count(63, 1), Ok(1 << 60));
    assert_eq!(fermat_chunk_count(63, usize::MAX / 8), Ok(1));
    assert_eq!(fermat_chunk_count(64, 1), Err(ConfigError::ExponentTooLarge));
    assert_eq!(fermat_chunk_count(1, 0), Err(ConfigError::ZeroChunkWidth));
    assert_eq!(fermat_chunk_count(1, usize::MAX / 8 + 1), Err(ConfigError::TooLarge));
}

#[test]
fn modulus_reduce_is_modulo() {
    let m = Modulus::fermat(4, 1).unwrap();
    let num = big(0xDEADBEEFCAFE);
    let mut store = ChunkStore::new(1).unwrap();
    write_number_in_chunks(&num, 0, &mut store);
    let r = m.reduce(&mut store, 6);
    assert_eq!(r, 2);
    assert_eq!(read_number_in_chunks(0, r, &store), big(0xDEADBEEFCAFE % 65537));
}

#[test]
fn pow2_u64_is_a_power_of_two() {
    assert_eq!(pow2_u64(0), 1);
    assert_eq!(pow2_u64(1), 2);
    assert_eq!(pow2_u64(10), 1024);
    assert_eq!(pow2_u64(63), 1u64 << 63);
}

#[test]
fn folds_extend_a_short_image_to_whole_chunks() {
    let fill = minus_one(2);
    let mut store = ChunkStore::from_bytes(2, vec![7, 0, 5]).unwrap();
    let r = fold_large(&mut store, 1, 2, &big(5), &fill);
    assert_eq!(r, 2);
    assert_eq!(store.as_bytes(), &vec![3, 0, 1, 0]);
    let mut store = ChunkStore::from_bytes(2, vec![7, 0, 2, 0, 1]).unwrap();
    let r = fold_one(&mut store, 1, 3, &fill);
    assert_eq!(r, 2);
    assert_eq!(store.as_bytes(), &vec![4, 0, 0xFF, 0xFF, 0, 0]);
    let mut store = ChunkStore::from_bytes(2, vec![7, 0, 1]).unwrap();
    let r = fold_one_boundary(&mut store, 1, 2, &fill);
    assert_eq!(r, 1);
    assert_eq!(store.as_bytes(), &vec![6, 0, 0, 0]);
    let mut store = ChunkStore::from_bytes(2, vec![0, 0, 1]).unwrap();
    let r = fold_one_boundary(&mut store, 1, 2, &fill);
    assert_eq!(r, 2);
    assert_eq!(store.as_bytes(), &vec![0, 0, 1]);
}
