use fermat_chunks::error::ConfigError;
use fermat_chunks::number::{
    chunk_base, chunkify_number, minus_one, number_size, read_number_in_chunks, split_biguint,
    write_number_in_chunks,
};
use fermat_chunks::store::{check_width, ChunkStore};
use num_bigint::BigUint;

fn big(v: u128) -> BigUint {
    BigUint::from(v)
}

#[test]
fn new_store_is_empty() {
    let store = ChunkStore::new(4).unwrap();
    assert_eq!(store.chunk_width(), 4);
    assert_eq!(store.byte_len(), 0);
    assert_eq!(store.read_chunk(0), big(0));
    assert_eq!(store.read_chunk(17), big(0));
}

#[test]
fn zero_width_is_refused() {
    assert_eq!(check_width(0), Err(ConfigError::ZeroChunkWidth));
    assert!(matches!(ChunkStore::new(0), Err(ConfigError::ZeroChunkWidth)));
    assert!(matches!(ChunkStore::from_bytes(0, vec![1, 2]), Err(ConfigError::ZeroChunkWidth)));
}

#[test]
fn too_wide_is_refused() {
    let width = usize::MAX / 8 + 1;
    assert_eq!(check_width(width), Err(ConfigError::TooLarge));
    assert!(matches!(ChunkStore::new(width), Err(ConfigError::TooLarge)));
    assert_eq!(check_width(usize::MAX / 8), Ok(()));
    assert_eq!(check_width(1), Ok(()));
}

#[test]
fn write_pads_each_chunk_to_the_width() {
    let mut store = ChunkStore::new(4).unwrap();
    store.write_chunk(0, &big(0x0102));
    assert_eq!(store.as_bytes(), &vec![0x02, 0x01, 0, 0]);
    store.write_chunk(1, &big(0xAABBCCDD));
    assert_eq!(store.as_bytes(), &vec![0x02, 0x01, 0, 0, 0xDD, 0xCC, 0xBB, 0xAA]);
    assert_eq!(store.byte_len(), 8);
}

#[test]
fn write_behind_the_end_fills_with_zero() {
    let mut store = ChunkStore::new(2).unwrap();
    store.write_chunk(3, &big(0x1234));
    assert_eq!(store.as_bytes(), &vec![0, 0, 0, 0, 0, 0, 0x34, 0x12]);
    assert_eq!(store.read_chunk(0), big(0));
    assert_eq!(store.read_chunk(2), big(0));
    assert_eq!(store.read_chunk(3), big(0x1234));
    assert_eq!(store.read_chunk(4), big(0));
}

#[test]
fn write_overwrites_in_place() {
    let mut store = ChunkStore::new(2).unwrap();
    store.write_chunk(0, &big(0xFFFF));
    store.write_chunk(1, &big(0xEEEE));
    store.write_chunk(0, &big(1));
    assert_eq!(store.as_bytes(), &vec![1, 0, 0xEE, 0xEE]);
    assert_eq!(store.read_chunk(0), big(1));
    assert_eq!(store.read_chunk(1), big(0xEEEE));
}

#[test]
fn read_of_a_short_last_chunk_extends_with_zero() {
    let store = ChunkStore::from_bytes(4, vec![1, 2, 3, 4, 5, 6]).unwrap();
    assert_eq!(store.read_chunk(0), big(0x04030201));
    assert_eq!(store.read_chunk(1), big(0x0605));
    assert_eq!(store.read_chunk(2), big(0));
    assert_eq!(store.read_chunk(usize::MAX), big(0));
}

#[test]
fn clear_truncates() {
    let mut store = ChunkStore::from_bytes(2, vec![9, 9, 9, 9]).unwrap();
    store.clear();
    assert_eq!(store.byte_len(), 0);
    assert_eq!(store.chunk_width(), 2);
    assert_eq!(store.read_chunk(0), big(0));
    assert_eq!(store.read_chunk(1), big(0));
}

#[test]
fn into_bytes_gives_the_image() {
    let mut store = ChunkStore::new(1).unwrap();
    store.write_chunk(2, &big(7));
    assert_eq!(store.into_bytes(), vec![0, 0, 7]);
}

#[test]
fn chunk_base_is_256_to_the_width() {
    assert_eq!(chunk_base(1), big(256));
    assert_eq!(chunk_base(2), big(65536));
    assert_eq!(chunk_base(4), big(1u128 << 32));
    assert_eq!(chunk_base(9), big(1u128 << 72));
    assert_eq!(chunk_base(0), big(1));
}

#[test]
fn minus_one_is_all_ones() {
    assert_eq!(minus_one(1), big(255));
    assert_eq!(minus_one(2), big(65535));
    assert_eq!(minus_one(8), big(u64::MAX as u128));
    assert_eq!(minus_one(3).to_bytes_le(), vec![0xFF, 0xFF, 0xFF]);
}

#[test]
fn split_biguint_splits_at_the_base() {
    let (lower, upper) = split_biguint(&big(0x123456), 1);
    assert_eq!(lower, big(0x56));
    assert_eq!(upper, big(0x1234));
    let (lower, upper) = split_biguint(&big(0x123456), 2);
    assert_eq!(lower, big(0x3456));
    assert_eq!(upper, big(0x12));
    let (lower, upper) = split_biguint(&big(0x123456), 4);
    assert_eq!(lower, big(0x123456));
    assert_eq!(upper, big(0));
    let (lower, upper) = split_biguint(&big(0), 2);
    assert_eq!(lower, big(0));
    assert_eq!(upper, big(0));
    let (lower, upper) = split_biguint(&big(65536), 2);
    assert_eq!(lower, big(0));
    assert_eq!(upper, big(1));
}

#[test]
fn number_size_rounds_up() {
    assert_eq!(number_size(&big(0), 1), 1);
    assert_eq!(number_size(&big(0), 1024), 1);
    assert_eq!(number_size(&big(255), 1), 1);
    assert_eq!(number_size(&big(256), 1), 2);
    assert_eq!(number_size(&big(0xFFFF), 2), 1);
    assert_eq!(number_size(&big(0x10000), 2), 2);
    assert_eq!(number_size(&big(0x1_0000_0000), 2), 3);
    assert_eq!(number_size(&big(0x1_0000_0000), 3), 2);
    assert_eq!(number_size(&big(u128::MAX), 5), 4);
}

#[test]
fn chunkify_number_takes_one_digit() {
    let num = big(0x0807060504030201);
    assert_eq!(chunkify_number(&num, 0, 1), big(1));
    assert_eq!(chunkify_number(&num, 7, 1), big(8));
    assert_eq!(chunkify_number(&num, 8, 1), big(0));
    assert_eq!(chunkify_number(&num, 0, 3), big(0x030201));
    assert_eq!(chunkify_number(&num, 1, 3), big(0x060504));
    assert_eq!(chunkify_number(&num, 2, 3), big(0x0807));
    assert_eq!(chunkify_number(&num, 3, 3), big(0));
    assert_eq!(chunkify_number(&num, usize::MAX / 8, 3), big(0));
    assert_eq!(chunkify_number(&num, 0, 8), num);
    assert_eq!(chunkify_number(&big(0), 0, 2), big(0));
}

#[test]
fn write_number_in_chunks_lays_out_the_digits() {
    let mut store = ChunkStore::new(2).unwrap();
    write_number_in_chunks(&big(0x0102030405), 1, &mut store);
    assert_eq!(store.as_bytes(), &vec![0, 0, 0x05, 0x04, 0x03, 0x02, 0x01, 0]);
    assert_eq!(store.read_chunk(1), big(0x0405));
    assert_eq!(store.read_chunk(2), big(0x0203));
    assert_eq!(store.read_chunk(3), big(0x01));
}

#[test]
fn write_number_extends_the_image_to_whole_chunks() {
    let mut store = ChunkStore::from_bytes(4, vec![1, 2, 3]).unwrap();
    write_number_in_chunks(&big(0x0A), 0, &mut store);
    assert_eq!(store.as_bytes(), &vec![0x0A, 0, 0, 0]);
    let mut store = ChunkStore::from_bytes(1, vec![1, 2, 3, 4, 5, 6]).unwrap();
    write_number_in_chunks(&big(0x0B0A), 3, &mut store);
    assert_eq!(store.as_bytes(), &vec![1, 2, 3, 0x0A, 0x0B, 6]);
    let mut store = ChunkStore::new(2).unwrap();
    write_number_in_chunks(&big(0), 2, &mut store);
    assert_eq!(store.as_bytes(), &vec![0, 0, 0, 0, 0, 0]);
}

#[test]
fn write_number_leaves_other_chunks() {
    let mut store = ChunkStore::from_bytes(1, vec![1, 2, 3, 4, 5]).unwrap();
    write_number_in_chunks(&big(0xBBAA), 1, &mut store);
    assert_eq!(store.as_bytes(), &vec![1, 0xAA, 0xBB, 4, 5]);
}

#[test]
fn read_number_in_chunks_sums_the_chunks() {
    let store = ChunkStore::from_bytes(2, vec![1, 0, 2, 0, 3, 0, 4]).unwrap();
    assert_eq!(read_number_in_chunks(0, 0, &store), big(0));
    assert_eq!(read_number_in_chunks(0, 1, &store), big(1));
    assert_eq!(read_number_in_chunks(0, 2, &store), big(0x0002_0001));
    assert_eq!(read_number_in_chunks(1, 2, &store), big(0x0003_0002));
    assert_eq!(read_number_in_chunks(1, 3, &store), big(0x0004_0003_0002));
    assert_eq!(read_number_in_chunks(2, 5, &store), big(0x0004_0003));
    assert_eq!(read_number_in_chunks(9, 2, &store), big(0));
}

#[test]
fn round_trip_through_chunks() {
    let values: Vec<u128> = vec![
        0,
        1,
        3,
        255,
        256,
        257,
        65535,
        65536,
        0xDEADBEEF,
        u64::MAX as u128,
        (u64::MAX as u128) + 1,
        u128::MAX,
        1u128 << 127,
    ];
    for width in 1..=9usize {
        for start in 0..3usize {
            for v in values.iter() {
                let num = big(*v);
                let size = number_size(&num, width);
                for extra in 0..3usize {
                    let mut store = ChunkStore::new(width).unwrap();
                    write_number_in_chunks(&num, start, &mut store);
                    let back = read_number_in_chunks(start, size + extra, &store);
                    assert_eq!(back, num);
                }
            }
        }
    }
}

#[test]
fn round_trip_of_a_large_number() {
    let num = BigUint::from(3u32).pow(5000);
    for width in [1usize, 2, 3, 4, 7, 16, 1000, 2000] {
        let mut store = ChunkStore::new(width).unwrap();
        write_number_in_chunks(&num, 0, &mut store);
        let size = number_size(&num, width);
        assert_eq!(store.byte_len(), size * width);
        assert_eq!(read_number_in_chunks(0, size, &store), num);
        assert_eq!(read_number_in_chunks(0, size + 5, &store), num);
    }
}

#[test]
fn try_write_chunk_refuses_what_does_not_fit() {
    let mut store = ChunkStore::from_bytes(2, vec![1, 2, 3, 4]).unwrap();
    assert!(!store.try_write_chunk(0, &big(0x1_0000)));
    assert_eq!(store.as_bytes(), &vec![1, 2, 3, 4]);
    assert!(!store.try_write_chunk(usize::MAX, &big(5)));
    assert!(!store.try_write_chunk(usize::MAX / 2, &big(5)));
    assert_eq!(store.as_bytes(), &vec![1, 2, 3, 4]);
    assert!(store.try_write_chunk(0, &big(0xFFFF)));
    assert_eq!(store.as_bytes(), &vec![0xFF, 0xFF, 3, 4]);
    assert!(store.try_write_chunk(2, &big(0)));
    assert_eq!(store.as_bytes(), &vec![0xFF, 0xFF, 3, 4, 0, 0]);
}
