use fermat_chunks::arithmetic::{
    add_blocks, add_huge_uints, number_from_bytes, number_to_bytes, HugeUint,
};
use fermat_chunks::block_iterator::{
    block_of_read, iter_file_blocks, BlockIterator, ByteReader, BLOCK_SIZE,
};

#[test]
fn test_128bit_number_addition() {
    let num1: u64 = 0x123456789ABCDEF0;
    let num2: u64 = 0xFEDCBA9876543210;
    let expected_sum: u128 = (num1 as u128).wrapping_add(num2 as u128);
    println!("Expected sum: {:x}", expected_sum);

    let image1 = number_to_bytes(num1 as u128);
    let image2 = number_to_bytes(num2 as u128);

    let huge1 = HugeUint::new("numbers/test_large_number1.bin", 4);
    let huge2 = HugeUint::new("numbers/test_large_number2.bin", 4);

    let (sum, image) = add_huge_uints(&huge1, image1, &huge2, image2, "numbers/test_sum.bin");

    let result = number_from_bytes(&image);
    println!("Result: {:x}", result);

    assert_eq!(result, expected_sum);
    assert_eq!(sum.file_path, "numbers/test_sum.bin");
    assert_eq!(sum.num_blocks, 4);
    assert_eq!(image.len(), 16);
}

#[test]
fn huge_uint_new_keeps_its_arguments() {
    let h = HugeUint::new("a/b.bin", 7);
    assert_eq!(h.file_path, "a/b.bin");
    assert_eq!(h.num_blocks, 7);
    let h = HugeUint::new(String::from("other"), 0);
    assert_eq!(h.file_path, "other");
    assert_eq!(h.num_blocks, 0);
}

#[test]
fn add_blocks_without_carry() {
    assert_eq!(add_blocks(&vec![1, 2], &vec![3, 4], 0), (vec![4, 6], 0));
    assert_eq!(add_blocks(&vec![1, 2], &vec![3, 4], 1), (vec![5, 6], 0));
    assert_eq!(add_blocks(&vec![], &vec![], 0), (vec![], 0));
    assert_eq!(add_blocks(&vec![], &vec![], 1), (vec![], 1));
}

#[test]
fn add_blocks_with_carry() {
    assert_eq!(add_blocks(&vec![0xFF, 0xFF], &vec![1, 0], 0), (vec![0, 0], 1));
    assert_eq!(add_blocks(&vec![0xFF, 0xFF], &vec![0xFF, 0xFF], 1), (vec![0xFF, 0xFF], 1));
    assert_eq!(add_blocks(&vec![0x80, 1], &vec![0x80, 1], 0), (vec![0, 3], 0));
}

#[test]
fn add_blocks_of_unequal_length() {
    assert_eq!(add_blocks(&vec![0xFF], &vec![1, 5], 0), (vec![0, 6], 0));
    assert_eq!(add_blocks(&vec![1, 0xFF], &vec![0xFF], 0), (vec![0, 0], 1));
    assert_eq!(add_blocks(&vec![], &vec![0xFF, 0xFF], 1), (vec![0, 0], 1));
    assert_eq!(add_blocks(&vec![7, 8, 9], &vec![], 0), (vec![7, 8, 9], 0));
}

#[test]
fn add_huge_uints_carries_out() {
    let a = HugeUint::new("a", 2);
    let b = HugeUint::new("b", 1);
    let (sum, image) = add_huge_uints(&a, vec![0xFF, 0xFF, 0xFF, 0xFF], &b, vec![1], "out");
    assert_eq!(image, vec![0, 0, 0, 0, 1]);
    assert_eq!(sum.num_blocks, 3);
    assert_eq!(sum.file_path, "out");
}

#[test]
fn add_huge_uints_of_unequal_length() {
    let a = HugeUint::new("a", 2);
    let b = HugeUint::new("b", 3);
    let (sum, image) = add_huge_uints(&a, vec![1, 2, 3], &b, vec![0xFF, 0xFF, 0, 0, 9, 1], "out");
    assert_eq!(image, vec![0, 2, 4, 0, 9, 1]);
    assert_eq!(sum.num_blocks, 3);
    let (sum, image) = add_huge_uints(&a, vec![0xFF, 0xFF, 0xFF], &b, vec![1], "out");
    assert_eq!(image, vec![0, 0, 0, 1]);
    assert_eq!(sum.num_blocks, 4);
}

#[test]
fn add_huge_uints_of_nothing() {
    let a = HugeUint::new("a", 0);
    let b = HugeUint::new("b", 0);
    let (sum, image) = add_huge_uints(&a, vec![], &b, vec![], "out");
    assert_eq!(image, Vec::<u8>::new());
    assert_eq!(sum.num_blocks, 0);
    let (sum, image) = add_huge_uints(&a, vec![], &b, vec![5, 6, 7], "out");
    assert_eq!(image, vec![5, 6, 7]);
    assert_eq!(sum.num_blocks, 0);
}

#[test]
fn add_huge_uints_agrees_with_machine_addition() {
    let mut seed: u64 = 0x9E3779B97F4A7C15;
    for round in 0..500u64 {
        seed = seed.wrapping_mul(6364136223846793005).wrapping_add(round + 1);
        let x = seed;
        seed = seed.wrapping_mul(6364136223846793005).wrapping_add(round + 1);
        let y = seed >> (round % 64);
        let xl = (round % 9) as usize;
        let image1: Vec<u8> = x.to_le_bytes()[..xl].to_vec();
        let image2: Vec<u8> = y.to_le_bytes().to_vec();
        let x_cut = if xl == 8 { x } else { x & ((1u64 << (8 * xl)) - 1) };
        let a = HugeUint::new("a", 4);
        let b = HugeUint::new("b", 4);
        let (sum, image) = add_huge_uints(&a, image1, &b, image2, "s");
        let expected = x_cut as u128 + y as u128;
        assert_eq!(number_from_bytes(&image), expected);
        assert_eq!(image.len(), if expected >> 64 != 0 { 9 } else { 8 });
        assert_eq!(sum.num_blocks, if expected >> 64 != 0 { 5 } else { 4 });
    }
}

#[test]
fn number_to_bytes_is_little_endian() {
    assert_eq!(number_to_bytes(0), vec![0u8; 16]);
    assert_eq!(number_to_bytes(0x0102), vec![2, 1, 0, 0, 0, 0, 0, 0, 0, 0, 0, 0, 0, 0, 0, 0]);
    assert_eq!(number_to_bytes(u128::MAX), vec![0xFFu8; 16]);
    let v: u128 = 0x0F0E0D0C0B0A09080706050403020100;
    assert_eq!(number_to_bytes(v), v.to_le_bytes().to_vec());
}

#[test]
fn number_from_bytes_extends_with_zero() {
    assert_eq!(number_from_bytes(&vec![]), 0);
    assert_eq!(number_from_bytes(&vec![5]), 5);
    assert_eq!(number_from_bytes(&vec![0x34, 0x12]), 0x1234);
    assert_eq!(number_from_bytes(&vec![0xFF; 16]), u128::MAX);
    let mut long = vec![1u8; 16];
    long.push(9);
    long.push(9);
    assert_eq!(number_from_bytes(&long), 0x01010101010101010101010101010101);
    for v in [1u128, 255, 256, u64::MAX as u128, u128::MAX - 1, 1 << 127] {
        assert_eq!(number_from_bytes(&number_to_bytes(v)), v);
    }
}

#[test]
fn block_iterator_hands_out_blocks() {
    assert_eq!(BLOCK_SIZE, 2);
    let mut blocks = BlockIterator::new(ByteReader::new(vec![1, 2, 3, 4, 5]));
    assert_eq!(blocks.next_block(), Some(vec![1, 2]));
    assert_eq!(blocks.next_block(), Some(vec![3, 4]));
    assert_eq!(blocks.next_block(), Some(vec![5]));
    assert_eq!(blocks.next_block(), None);
    assert_eq!(blocks.next_block(), None);
}

#[test]
fn block_iterator_over_nothing() {
    let mut blocks = BlockIterator::new(ByteReader::new(vec![]));
    assert_eq!(blocks.next_block(), None);
}

#[test]
fn block_iterator_gives_its_reader_back() {
    let mut blocks = BlockIterator::new(ByteReader::new(vec![1, 2, 3]));
    assert_eq!(blocks.next_block(), Some(vec![1, 2]));
    let mut reader = blocks.into_inner();
    let mut buffer = vec![0u8; 4];
    assert_eq!(reader.read(&mut buffer), 1);
    assert_eq!(buffer, vec![3, 0, 0, 0]);
    assert_eq!(reader.read(&mut buffer), 0);
    let blocks = BlockIterator::new(7u32);
    assert_eq!(blocks.into_inner(), 7);
}

#[test]
fn byte_reader_fills_the_front_of_the_buffer() {
    let mut reader = ByteReader::new(vec![1, 2, 3, 4, 5]);
    let mut buffer = vec![9u8; 3];
    assert_eq!(reader.read(&mut buffer), 3);
    assert_eq!(buffer, vec![1, 2, 3]);
    assert_eq!(reader.read(&mut buffer), 2);
    assert_eq!(buffer, vec![4, 5, 3]);
    assert_eq!(reader.read(&mut buffer), 0);
    assert_eq!(buffer, vec![4, 5, 3]);
    let mut none: Vec<u8> = Vec::new();
    let mut fresh = ByteReader::new(vec![1]);
    assert_eq!(fresh.read(&mut none), 0);
}

#[test]
fn block_of_read_truncates() {
    assert_eq!(block_of_read(vec![7, 8], 0), None);
    assert_eq!(block_of_read(vec![7, 8], 1), Some(vec![7]));
    assert_eq!(block_of_read(vec![7, 8], 2), Some(vec![7, 8]));
    assert_eq!(block_of_read(vec![], 0), None);
}

#[test]
fn iter_file_blocks_starts_at_the_front() {
    let mut blocks = iter_file_blocks(vec![10, 20, 30]);
    assert_eq!(blocks.next_block(), Some(vec![10, 20]));
    assert_eq!(blocks.next_block(), Some(vec![30]));
    assert_eq!(blocks.next_block(), None);
}

#[test]
fn huge_uint_iter_hands_out_its_blocks() {
    let h = HugeUint::new("n.bin", 2);
    let mut blocks = h.iter(vec![1, 2, 3, 4]);
    assert_eq!(blocks.next_block(), Some(vec![1, 2]));
    assert_eq!(blocks.next_block(), Some(vec![3, 4]));
    assert_eq!(blocks.next_block(), None);
}
