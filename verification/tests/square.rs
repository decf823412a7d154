use fermat_chunks::number::{number_size, read_number_in_chunks, write_number_in_chunks};
use fermat_chunks::square::square_number;
use fermat_chunks::store::ChunkStore;
use num_bigint::BigUint;

fn big(v: u128) -> BigUint {
    BigUint::from(v)
}

fn store_of_chunks(width: usize, start: usize, chunks: &[u128]) -> ChunkStore {
    let mut store = ChunkStore::new(width).unwrap();
    for (i, c) in chunks.iter().enumerate() {
        store.write_chunk(start + i, &big(*c));
    }
    store
}

fn chunks_of(store: &ChunkStore, start: usize, size: usize) -> Vec<BigUint> {
    (0..size).map(|i| store.read_chunk(start + i)).collect()
}

fn check_square(width: usize, start: usize, num: &BigUint, size: usize) {
    let mut src = ChunkStore::new(width).unwrap();
    write_number_in_chunks(num, start, &mut src);
    let mut dst = ChunkStore::from_bytes(width, vec![0xAB; 5 * width]).unwrap();
    let r = square_number(&src, start, size, &mut dst);
    let expected = num * num;
    assert_eq!(read_number_in_chunks(start, r, &dst), expected);
    assert_eq!(read_number_in_chunks(0, start + r + 3, &dst), &expected << (8 * width * start));
    assert_eq!(dst.byte_len(), if size == 0 { 0 } else { (start + r) * width });
    if size > 0 {
        assert!(r == 2 * size || r == 2 * size - 1);
        assert_eq!(r == 2 * size, dst.read_chunk(start + 2 * size - 1) != big(0));
        let reach = BigUint::from(1u32) << (8 * width * (2 * size - 1));
        assert_eq!(r == 2 * size, expected >= reach);
    } else {
        assert_eq!(r, 1);
    }
}

#[test]
fn square_of_zero() {
    let src = store_of_chunks(1, 0, &[0]);
    let mut dst = ChunkStore::new(1).unwrap();
    let r = square_number(&src, 0, 1, &mut dst);
    assert_eq!(r, 1);
    assert_eq!(chunks_of(&dst, 0, 3), vec![big(0), big(0), big(0)]);
}

#[test]
fn square_of_one() {
    let src = store_of_chunks(2, 0, &[1]);
    let mut dst = ChunkStore::new(2).unwrap();
    let r = square_number(&src, 0, 1, &mut dst);
    assert_eq!(r, 1);
    assert_eq!(chunks_of(&dst, 0, 3), vec![big(1), big(0), big(0)]);
}

#[test]
fn square_of_three() {
    let src = store_of_chunks(1, 0, &[3]);
    let mut dst = ChunkStore::new(1).unwrap();
    let r = square_number(&src, 0, 1, &mut dst);
    assert_eq!(r, 1);
    assert_eq!(dst.read_chunk(0), big(9));
}

#[test]
fn square_of_a_maximal_chunk_carries() {
    for width in [1usize, 2, 3, 8] {
        let base = 1u128 << (8 * width);
        let src = store_of_chunks(width, 0, &[base - 1]);
        let mut dst = ChunkStore::new(width).unwrap();
        let r = square_number(&src, 0, 1, &mut dst);
        assert_eq!(r, 2);
        assert_eq!(dst.read_chunk(0), big(1));
        assert_eq!(dst.read_chunk(1), big(base - 2));
        assert_eq!(dst.read_chunk(2), big(0));
    }
}

#[test]
fn square_of_two_maximal_chunks() {
    let src = store_of_chunks(1, 0, &[255, 255]);
    let mut dst = ChunkStore::new(1).unwrap();
    let r = square_number(&src, 0, 2, &mut dst);
    assert_eq!(r, 4);
    assert_eq!(chunks_of(&dst, 0, 5), vec![big(1), big(0), big(254), big(255), big(0)]);
}

#[test]
fn square_of_three_maximal_chunks() {
    let src = store_of_chunks(1, 0, &[255, 255, 255]);
    let mut dst = ChunkStore::new(1).unwrap();
    let r = square_number(&src, 0, 3, &mut dst);
    assert_eq!(r, 6);
    assert_eq!(
        chunks_of(&dst, 0, 7),
        vec![big(1), big(0), big(0), big(254), big(255), big(255), big(0)]
    );
}

#[test]
fn square_of_two_chunks() {
    let src = store_of_chunks(1, 0, &[0x34, 0x12]);
    let mut dst = ChunkStore::new(1).unwrap();
    let r = square_number(&src, 0, 2, &mut dst);
    assert_eq!(r, 4);
    assert_eq!(read_number_in_chunks(0, r, &dst), big(0x1234 * 0x1234));
    assert_eq!(chunks_of(&dst, 0, 4), vec![big(0x90), big(0x5A), big(0x4B), big(0x01)]);
}

#[test]
fn square_with_a_zero_top_chunk() {
    let src = store_of_chunks(1, 0, &[5, 0]);
    let mut dst = ChunkStore::new(1).unwrap();
    let r = square_number(&src, 0, 2, &mut dst);
    assert_eq!(r, 3);
    assert_eq!(chunks_of(&dst, 0, 4), vec![big(25), big(0), big(0), big(0)]);
}

#[test]
fn square_of_no_chunks() {
    let src = store_of_chunks(1, 0, &[7]);
    let mut dst = ChunkStore::from_bytes(1, vec![1, 2, 3]).unwrap();
    let r = square_number(&src, 0, 0, &mut dst);
    assert_eq!(r, 1);
    assert_eq!(dst.byte_len(), 0);
    assert_eq!(dst.read_chunk(0), big(0));
}

#[test]
fn square_clears_the_destination() {
    let src = store_of_chunks(1, 0, &[2]);
    let mut dst = ChunkStore::from_bytes(1, vec![9, 9, 9, 9, 9, 9]).unwrap();
    let r = square_number(&src, 0, 1, &mut dst);
    assert_eq!(r, 1);
    assert_eq!(chunks_of(&dst, 0, 6), vec![big(4), big(0), big(0), big(0), big(0), big(0)]);
}

#[test]
fn square_from_a_start_index() {
    let src = store_of_chunks(1, 2, &[0xFF, 0xFF]);
    let mut dst = ChunkStore::new(1).unwrap();
    let r = square_number(&src, 2, 2, &mut dst);
    assert_eq!(r, 4);
    assert_eq!(
        chunks_of(&dst, 0, 7),
        vec![big(0), big(0), big(1), big(0), big(254), big(255), big(0)]
    );
}

#[test]
fn square_reads_only_its_window() {
    let src = store_of_chunks(1, 0, &[9, 3, 9]);
    let mut dst = ChunkStore::new(1).unwrap();
    let r = square_number(&src, 1, 1, &mut dst);
    assert_eq!(r, 1);
    assert_eq!(chunks_of(&dst, 0, 3), vec![big(0), big(9), big(0)]);
}

#[test]
fn square_of_all_two_byte_numbers_on_one_byte_chunks() {
    for v in 0..65536u128 {
        let src = store_of_chunks(1, 0, &[v & 0xFF, v >> 8]);
        let mut dst = ChunkStore::new(1).unwrap();
        let r = square_number(&src, 0, 2, &mut dst);
        assert_eq!(read_number_in_chunks(0, r, &dst), big(v * v));
        assert!(r == 3 || r == 4);
        assert_eq!(r == 4, v * v >= 1 << 24);
    }
}

#[test]
fn square_of_many_numbers() {
    let mut seed: u128 = 0x9E3779B97F4A7C15F39CC0605CEDC834;
    for round in 0..300usize {
        seed = seed.wrapping_mul(0x2545F4914F6CDD1D2545F4914F6CDD1D).wrapping_add(round as u128 + 1);
        let bits = (round % 128) as u32 + 1;
        let v = if bits == 128 { seed } else { seed & ((1u128 << bits) - 1) };
        let num = big(v);
        for width in [1usize, 2, 3, 5, 16] {
            let size = number_size(&num, width);
            check_square(width, 0, &num, size);
            check_square(width, round % 3, &num, size + round % 2);
        }
    }
}

#[test]
fn square_of_large_numbers() {
    let mut num = BigUint::from(3u32);
    for _ in 0..9 {
        for width in [1usize, 4, 32] {
            let size = number_size(&num, width);
            check_square(width, 0, &num, size);
        }
        num = &num * &num + BigUint::from(12345u32);
    }
    let ones = (BigUint::from(1u32) << 800usize) - BigUint::from(1u32);
    for width in [1usize, 4, 10, 25, 100] {
        check_square(width, 0, &ones, 800 / (8 * width));
        check_square(width, 1, &ones, 800 / (8 * width));
    }
}
