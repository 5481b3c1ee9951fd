use yada::builder::DoubleArrayBlock;

fn candidates(block: &DoubleArrayBlock, labels: &Vec<u8>) -> Vec<u8> {
    let mut search = block.find_offset(labels);
    let mut found = Vec::new();
    while let Some(offset) = search.next() {
        found.push(offset);
        assert!(found.len() <= 256);
    }
    // exhausted stays exhausted
    assert_eq!(search.next(), None);
    found
}

#[test]
fn test_new_block_links_all_cells() {
    let block = DoubleArrayBlock::new(3);
    assert_eq!(block.id, 3);
    assert_eq!(block.head_unused, 0);
    for i in 0..256usize {
        assert!(!block.is_used[i]);
        assert_eq!(block.units[i].as_u32(), 0);
        assert_eq!(block.next_unused[i] as usize, if i == 255 { 0 } else { i + 1 });
        assert_eq!(block.prev_unused[i] as usize, if i == 0 { 255 } else { i - 1 });
    }
}

#[test]
fn test_reserve_splices_cell_out() {
    let mut block = DoubleArrayBlock::new(0);
    block.reserve(5);
    assert!(block.is_used[5]);
    assert_eq!(block.next_unused[4], 6);
    assert_eq!(block.prev_unused[6], 4);
    assert_eq!(block.head_unused, 0);

    // the head moves on when it is reserved
    block.reserve(0);
    assert_eq!(block.head_unused, 1);
    assert_eq!(block.prev_unused[1], 255);
    block.reserve(1);
    assert_eq!(block.head_unused, 2);

    // the last cell
    block.reserve(255);
    assert_eq!(block.next_unused[254], 0);

    // neighbours of a gap of several cells
    block.reserve(6);
    block.reserve(4);
    assert_eq!(block.next_unused[3], 7);
    assert_eq!(block.prev_unused[7], 3);
}

#[test]
fn test_candidates_of_new_block() {
    let block = DoubleArrayBlock::new(0);
    // every unused cell gives a candidate, in the order of the cells
    let found = candidates(&block, &vec![b'a']);
    let expected: Vec<u8> = (0..=255u8).map(|u| u ^ b'a').collect();
    assert_eq!(found, expected);

    let found = candidates(&block, &vec![0, 1, 2]);
    let expected: Vec<u8> = (0..=255u8).collect();
    assert_eq!(found, expected);
}

#[test]
fn test_candidates_skip_used_cells() {
    let mut block = DoubleArrayBlock::new(0);
    block.reserve(0);
    block.reserve(2);
    // labels 1 and 3: offset b fits if b ^ 1 and b ^ 3 are unused
    let found = candidates(&block, &vec![1, 3]);
    let mut expected = Vec::new();
    for u in 0..=255u8 {
        let b = u ^ 1;
        if !block.is_used[u as usize] && !block.is_used[(b ^ 3) as usize] {
            expected.push(b);
        }
    }
    assert_eq!(found, expected);
    assert!(!found.contains(&1)); // 1 ^ 1 = 0 is used
    assert!(!found.contains(&3)); // 3 ^ 1 = 2 is used
    assert_eq!(found[0], 0); // cell 1 is the first unused; 1 ^ 1 = 0, and 0 ^ 3 = 3 is unused
}

#[test]
fn test_full_block_has_no_candidate() {
    let mut block = DoubleArrayBlock::new(0);
    for i in 0..=255u8 {
        block.reserve(i);
    }
    assert_eq!(block.head_unused, 0);
    assert_eq!(candidates(&block, &vec![b'a']), Vec::<u8>::new());
    assert_eq!(candidates(&block, &vec![0]), Vec::<u8>::new());
}

#[test]
fn test_block_with_one_unused_cell() {
    let mut block = DoubleArrayBlock::new(0);
    for i in 0..=255u8 {
        if i != 77 {
            block.reserve(i);
        }
    }
    assert_eq!(block.head_unused, 77);
    assert_eq!(candidates(&block, &vec![5]), vec![77 ^ 5]);
    assert_eq!(candidates(&block, &vec![5, 6]), Vec::<u8>::new());
}

#[test]
fn test_block_with_only_cell_zero_unused() {
    let mut block = DoubleArrayBlock::new(1);
    for i in 1..=255u8 {
        block.reserve(i);
    }
    assert_eq!(block.head_unused, 0);
    assert_eq!(candidates(&block, &vec![9]), vec![9]);
}

#[test]
fn test_offsets_from_2_pow_21_need_zero_low_byte() {
    // block 2^13 starts at cell index 2^21
    let block = DoubleArrayBlock::new(1 << 13);
    assert_eq!(candidates(&block, &vec![b'a', b'b']), vec![0]);

    let mut block = DoubleArrayBlock::new(1 << 13);
    block.reserve(b'b');
    assert_eq!(candidates(&block, &vec![b'a', b'b']), Vec::<u8>::new());
    assert_eq!(candidates(&block, &vec![b'a']), vec![0]);

    // the block before it takes any offset
    let block = DoubleArrayBlock::new((1 << 13) - 1);
    assert_eq!(candidates(&block, &vec![b'a']).len(), 256);
}
