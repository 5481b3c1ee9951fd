use yada::builder::DoubleArrayBuilder;
use yada::DoubleArray;

#[test]
fn test_build() {
    let keyset: &[(&[u8], u32)] = &[
        ("a".as_bytes(), 0),
        ("aa".as_bytes(), 0),
        ("aaa".as_bytes(), 0),
        ("aaaa".as_bytes(), 0),
        ("aaaaa".as_bytes(), 0),
        ("ab".as_bytes(), 0),
        ("abc".as_bytes(), 0),
        ("abcd".as_bytes(), 0),
        ("abcde".as_bytes(), 0),
        ("abcdef".as_bytes(), 0),
    ];

    let mut builder = DoubleArrayBuilder::new();
    let da = builder.build_from_keyset(keyset);
    assert!(da.is_some());

    assert!(0 < builder.num_units());
    assert!(0 < builder.num_used_units());
    assert!(builder.num_used_units() < builder.num_units());
}

#[test]
fn test_new_builder_has_one_unused_block() {
    let builder = DoubleArrayBuilder::new();
    assert_eq!(builder.blocks.len(), 1);
    assert_eq!(builder.num_units(), 256);
    assert_eq!(builder.num_used_units(), 0);
    assert!(builder.used_offsets.is_empty());
}

#[test]
fn test_unit_counts_are_exact() {
    // nodes: root, a, ab; leaves: of "a" and of "ab"
    let keyset: &[(&[u8], u32)] = &[(b"a", 1), (b"ab", 2)];
    let mut builder = DoubleArrayBuilder::new();
    let image = builder.build_from_keyset(keyset).unwrap();
    assert_eq!(builder.num_units(), 256);
    assert_eq!(builder.num_used_units(), 5);
    assert_eq!(image.len(), 1024);
    // one offset for each of the three internal nodes
    assert_eq!(builder.used_offsets.len(), 3);
}

#[test]
fn test_image_is_little_endian_units_of_the_blocks() {
    let keyset: &[(&[u8], u32)] = &[(b"a", 1), (b"b", 0x0102_0304)];
    let mut builder = DoubleArrayBuilder::new();
    let image = builder.build_from_keyset(keyset).unwrap();
    assert_eq!(image.len(), 4 * builder.num_units() as usize);
    for (b, block) in builder.blocks.iter().enumerate() {
        assert_eq!(block.id, b);
        for (c, unit) in block.units.iter().enumerate() {
            let at = 4 * (b * 256 + c);
            assert_eq!(&image[at..at + 4], &unit.as_u32().to_le_bytes());
            if !block.is_used[c] {
                assert_eq!(unit.as_u32(), 0);
            }
        }
    }
}

#[test]
fn test_first_offsets_follow_the_free_list() {
    // The root takes the first unused cell, 1, for its first label 'a':
    // offset 1 ^ 0x61 = 0x60. Node "a" cannot take 0x60 again; its only
    // label 'b' goes to the next unused cell that gives a new offset.
    let keyset: &[(&[u8], u32)] = &[(b"ab", 1)];
    let mut builder = DoubleArrayBuilder::new();
    builder.build_from_keyset(keyset).unwrap();
    let units = &builder.blocks[0].units;
    assert_eq!(units[0].offset(), 0x60);
    assert_eq!(units[1].label(), 0x61);
    assert_eq!(units[1].offset(), 0x61);
    assert_eq!(units[3].label(), 0x62);
    assert!(units[3].has_leaf());
    assert_eq!(units[3].offset(), 2);
    assert!(units[2].is_leaf());
    assert_eq!(units[2].value(), 1);
    assert_eq!(builder.num_used_units(), 4);
}

#[test]
fn test_build_is_repeatable() {
    let keyset: &[(&[u8], u32)] = &[
        (b"car", 1),
        (b"card", 2),
        (b"care", 3),
        (b"cat", 4),
        (b"dog", 5),
    ];
    let first = DoubleArrayBuilder::build(keyset).unwrap();
    let second = DoubleArrayBuilder::build(keyset).unwrap();
    assert_eq!(first, second);
}

#[test]
fn test_empty_keyset_gives_one_empty_block() {
    let keyset: &[(&[u8], u32)] = &[];
    let image = DoubleArrayBuilder::build(keyset).unwrap();
    assert_eq!(image, vec![0u8; 1024]);
    let da = DoubleArray::new(image);
    assert_eq!(da.exact_match_search(b""), None);
    assert_eq!(da.exact_match_search(b"a"), None);
    assert_eq!(da.common_prefix_search(b"abc").collect(), vec![]);
}

#[test]
fn test_unsorted_keyset_is_rejected() {
    let keyset: &[(&[u8], u32)] = &[(b"b", 0), (b"a", 1)];
    assert_eq!(DoubleArrayBuilder::build(keyset), None);
    // a longer key sorts after its prefix
    let keyset: &[(&[u8], u32)] = &[(b"ab", 0), (b"a", 1)];
    assert_eq!(DoubleArrayBuilder::build(keyset), None);
    // bytes compare as unsigned
    let keyset: &[(&[u8], u32)] = &[(&[0x80], 0), (&[0x7F], 1)];
    assert_eq!(DoubleArrayBuilder::build(keyset), None);
    let keyset: &[(&[u8], u32)] = &[(&[0x7F], 0), (&[0x80], 1)];
    assert!(DoubleArrayBuilder::build(keyset).is_some());
}

#[test]
fn test_duplicate_key_is_rejected() {
    let keyset: &[(&[u8], u32)] = &[(b"a", 0), (b"a", 1)];
    assert_eq!(DoubleArrayBuilder::build(keyset), None);
    let keyset: &[(&[u8], u32)] = &[(b"a", 0), (b"b", 1), (b"b", 1)];
    assert_eq!(DoubleArrayBuilder::build(keyset), None);
}

#[test]
fn test_key_with_zero_byte_is_rejected() {
    let keyset: &[(&[u8], u32)] = &[(b"a\0", 0)];
    assert_eq!(DoubleArrayBuilder::build(keyset), None);
    let keyset: &[(&[u8], u32)] = &[(b"a", 0), (b"a\0b", 1)];
    assert_eq!(DoubleArrayBuilder::build(keyset), None);
}

#[test]
fn test_value_of_32_bits_is_rejected() {
    let keyset: &[(&[u8], u32)] = &[(b"a", 1 << 31)];
    assert_eq!(DoubleArrayBuilder::build(keyset), None);
    let keyset: &[(&[u8], u32)] = &[(b"a", (1 << 31) - 1)];
    let image = DoubleArrayBuilder::build(keyset).unwrap();
    assert_eq!(
        DoubleArray::new(image).exact_match_search(b"a"),
        Some((1 << 31) - 1)
    );
}

#[test]
fn test_rejected_keyset_leaves_builder_new() {
    let keyset: &[(&[u8], u32)] = &[(b"b", 0), (b"a", 1)];
    let mut builder = DoubleArrayBuilder::new();
    assert_eq!(builder.build_from_keyset(keyset), None);
    assert_eq!(builder.num_units(), 256);
    assert_eq!(builder.num_used_units(), 0);
}

#[test]
fn test_many_blocks() {
    // enough nodes to fill several blocks
    let mut keys: Vec<Vec<u8>> = Vec::new();
    for a in 1..=40u8 {
        for b in 1..=40u8 {
            keys.push(vec![a, b, a ^ b | 1]);
        }
    }
    keys.sort();
    keys.dedup();
    let keyset: Vec<(&[u8], u32)> = keys
        .iter()
        .enumerate()
        .map(|(i, k)| (k.as_slice(), i as u32))
        .collect();
    let mut builder = DoubleArrayBuilder::new();
    let image = builder.build_from_keyset(&keyset).unwrap();
    assert!(builder.blocks.len() > 1);
    assert_eq!(image.len(), 1024 * builder.blocks.len());
    // nodes: root, 40 of one byte, 1600 of two, one for each key; and a leaf
    // for each key
    assert_eq!(
        builder.num_used_units() as usize,
        1 + 40 + 1600 + 2 * keys.len()
    );
    // every internal node has its own offset
    assert_eq!(builder.used_offsets.len(), 1 + 40 + 1600 + keys.len());
    let da = DoubleArray::new(image);
    for (key, value) in &keyset {
        assert_eq!(da.exact_match_search(key), Some(*value));
    }
}

fn unit_at(image: &[u8], index: usize) -> yada::unit::Unit {
    let at = 4 * index;
    yada::unit::Unit::from_u32(u32::from_le_bytes([
        image[at],
        image[at + 1],
        image[at + 2],
        image[at + 3],
    ]))
}

#[test]
fn test_node_invariant_along_keys() {
    let keyset: &[(&[u8], u32)] = &[
        (b"a", 0),
        (b"ab", 1),
        (b"aba", 2),
        (b"ac", 3),
        (b"b", 4),
        (b"bcd", 5),
        (b"zebra", 6),
    ];
    let image = DoubleArrayBuilder::build(keyset).unwrap();
    for (key, value) in keyset {
        let mut id = 0usize;
        for &c in key.iter() {
            let parent = unit_at(&image, id);
            assert!(!parent.is_leaf());
            id = (parent.offset() ^ c as u32) as usize;
            let child = unit_at(&image, id);
            assert_eq!(child.label(), c as u32);
        }
        let last = unit_at(&image, id);
        assert!(last.has_leaf());
        let leaf = unit_at(&image, last.offset() as usize);
        assert!(leaf.is_leaf());
        assert_eq!(leaf.value(), *value);
    }
}

#[test]
fn test_offsets_in_image_fit_the_offset_field() {
    let mut keys: Vec<Vec<u8>> = Vec::new();
    for a in 1..=60u8 {
        for b in 1..=30u8 {
            keys.push(vec![a, b]);
        }
    }
    let keyset: Vec<(&[u8], u32)> = keys
        .iter()
        .enumerate()
        .map(|(i, k)| (k.as_slice(), i as u32))
        .collect();
    let mut builder = DoubleArrayBuilder::new();
    let image = builder.build_from_keyset(&keyset).unwrap();
    assert!(!builder.used_offsets.is_empty());
    for &offset in builder.used_offsets.iter() {
        assert!(offset < (1 << 29));
        assert!(offset < (1 << 21) || offset & 0xFF == 0);
        assert!((offset as usize) < image.len() / 4);
    }
    for index in 0..image.len() / 4 {
        let unit = unit_at(&image, index);
        if !unit.is_leaf() {
            assert!(unit.offset() < (1 << 29));
            assert!(unit.offset() < (1 << 21) || unit.offset() & 0xFF == 0);
        }
    }
}
