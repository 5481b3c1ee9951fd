use std::collections::BTreeMap;
use yada::builder::DoubleArrayBuilder;
use yada::DoubleArray;

fn build(keyset: &[(&[u8], u32)]) -> DoubleArray {
    let da_bytes = DoubleArrayBuilder::build(keyset);
    assert!(da_bytes.is_some());
    DoubleArray::new(da_bytes.unwrap())
}

#[test]
fn test_build_search() {
    let keyset = &[
        ("a".as_bytes(), 0),
        ("ab".as_bytes(), 1),
        ("aba".as_bytes(), 2),
        ("ac".as_bytes(), 3),
        ("acb".as_bytes(), 4),
        ("acc".as_bytes(), 5),
        ("ad".as_bytes(), 6),
        ("ba".as_bytes(), 7),
        ("bb".as_bytes(), 8),
        ("bc".as_bytes(), 9),
        ("c".as_bytes(), 10),
        ("caa".as_bytes(), 11),
    ];

    let da_bytes = DoubleArrayBuilder::build(keyset);
    assert!(da_bytes.is_some());

    let da = DoubleArray::new(da_bytes.unwrap());

    for (key, value) in keyset {
        assert_eq!(da.exact_match_search(key), Some(*value as u32));
    }
    assert_eq!(da.exact_match_search("aa".as_bytes()), None);
    assert_eq!(da.exact_match_search("abc".as_bytes()), None);
    assert_eq!(da.exact_match_search("b".as_bytes()), None);
    assert_eq!(da.exact_match_search("ca".as_bytes()), None);

    assert_eq!(
        da.common_prefix_search("a".as_bytes()).collect(),
        vec![(0, 1)]
    );
    assert_eq!(
        da.common_prefix_search("aa".as_bytes()).collect(),
        vec![(0, 1)]
    );
    assert_eq!(
        da.common_prefix_search("abbb".as_bytes()).collect(),
        vec![(0, 1), (1, 2)]
    );
    assert_eq!(
        da.common_prefix_search("abaa".as_bytes()).collect(),
        vec![(0, 1), (1, 2), (2, 3)]
    );
    assert_eq!(
        da.common_prefix_search("caa".as_bytes()).collect(),
        vec![(10, 1), (11, 3)]
    );
    assert_eq!(
        da.common_prefix_search("d".as_bytes()).collect(),
        vec![]
    );
}

#[test]
fn test_scenario_abc() {
    let keyset: &[(&[u8], u32)] = &[
        (b"a", 0),
        (b"ab", 1),
        (b"abc", 2),
        (b"b", 3),
        (b"bc", 4),
        (b"c", 5),
    ];
    let da = build(keyset);

    for (key, value) in keyset {
        assert_eq!(da.exact_match_search(key), Some(*value));
    }
    for absent in ["aa", "aba", "abb", "abcd", "ba", "bb", "bcd", "ca"] {
        assert_eq!(da.exact_match_search(absent.as_bytes()), None);
    }

    assert_eq!(da.common_prefix_search(b"a").collect(), vec![(0, 1)]);
    assert_eq!(
        da.common_prefix_search(b"abc").collect(),
        vec![(0, 1), (1, 2), (2, 3)]
    );
    assert_eq!(
        da.common_prefix_search(b"abcd").collect(),
        vec![(0, 1), (1, 2), (2, 3)]
    );
    assert_eq!(da.common_prefix_search(b"bcd").collect(), vec![(3, 1), (4, 2)]);
    assert_eq!(da.common_prefix_search(b"d").collect(), vec![]);
}

#[test]
fn test_scenario_aaa() {
    let keyset: &[(&[u8], u32)] = &[
        (b"a", 0),
        (b"aa", 1),
        (b"aaa", 2),
        (b"b", 3),
        (b"bcd", 4),
    ];
    let da = build(keyset);

    for (key, value) in keyset {
        assert_eq!(da.exact_match_search(key), Some(*value));
    }
    assert_eq!(
        da.common_prefix_search(b"aaaa").collect(),
        vec![(0, 1), (1, 2), (2, 3)]
    );
    assert_eq!(da.common_prefix_search(b"bcde").collect(), vec![(3, 1), (4, 3)]);
}

#[test]
fn test_common_prefix_search_yields_one_by_one() {
    let keyset: &[(&[u8], u32)] = &[(b"a", 10), (b"abc", 30), (b"abcde", 50)];
    let da = build(keyset);

    let mut search = da.common_prefix_search(b"abcdef");
    assert_eq!(search.next(), Some((10, 1)));
    assert_eq!(search.next(), Some((30, 3)));
    assert_eq!(search.next(), Some((50, 5)));
    assert_eq!(search.next(), None);
    // a search that is over stays over
    assert_eq!(search.next(), None);

    let mut search = da.common_prefix_search(b"abx");
    assert_eq!(search.next(), Some((10, 1)));
    assert_eq!(search.next(), None);
    assert_eq!(search.next(), None);

    // what was yielded already is not collected again
    let mut search = da.common_prefix_search(b"abcde");
    assert_eq!(search.next(), Some((10, 1)));
    assert_eq!(search.collect(), vec![(30, 3), (50, 5)]);
}

#[test]
fn test_empty_key_is_stored_but_no_prefix_match() {
    let keyset: &[(&[u8], u32)] = &[(b"", 7), (b"a", 8)];
    let da = build(keyset);
    assert_eq!(da.exact_match_search(b""), Some(7));
    assert_eq!(da.exact_match_search(b"a"), Some(8));
    assert_eq!(da.exact_match_search(b"b"), None);
    // a common-prefix search reports keys of at least one byte
    assert_eq!(da.common_prefix_search(b"a").collect(), vec![(8, 1)]);
    assert_eq!(da.common_prefix_search(b"").collect(), vec![]);
}

#[test]
fn test_search_on_truncated_and_foreign_images() {
    // no unit at all
    let da = DoubleArray::new(Vec::new());
    assert_eq!(da.exact_match_search(b"a"), None);
    assert_eq!(da.exact_match_search(b""), None);
    assert_eq!(da.common_prefix_search(b"a").collect(), vec![]);

    // less than one unit
    let da = DoubleArray::new(vec![1, 2, 3]);
    assert_eq!(da.exact_match_search(b""), None);
    assert_eq!(da.common_prefix_search(b"abc").collect(), vec![]);

    // a built image cut off in the middle: what cannot be reached is not found
    let keyset: &[(&[u8], u32)] = &[(b"a", 1), (b"ab", 2), (b"abc", 3)];
    let image = DoubleArrayBuilder::build(keyset).unwrap();
    for cut in [0usize, 1, 4, 5, 8, 12, 64, 388, 392, 400, 1000] {
        let da = DoubleArray::new(image[..cut].to_vec());
        for (key, value) in keyset {
            let found = da.exact_match_search(key);
            assert!(found == None || found == Some(*value));
        }
        let found = da.common_prefix_search(b"abcd").collect();
        assert!(found.len() <= 3);
    }

    // all bits set: the root is a leaf, nothing is found
    let da = DoubleArray::new(vec![0xFF; 1024]);
    assert_eq!(da.exact_match_search(b"a"), None);
    assert_eq!(da.common_prefix_search(b"a").collect(), vec![]);
}

#[test]
fn test_exact_match_on_hand_made_image() {
    // root: offset 4; node 'a' (0x61) at 4 ^ 0x61 = 0x65 with has-leaf and
    // offset 2; leaf at 2 with value 9
    let mut words = vec![0u32; 256];
    words[0] = 4 << 10;
    words[0x65] = (2 << 10) | 0x100 | 0x61;
    words[2] = 9 | 0x8000_0000;
    let mut image = Vec::new();
    for w in &words {
        image.extend_from_slice(&w.to_le_bytes());
    }
    let da = DoubleArray::new(image);
    assert_eq!(da.exact_match_search(b"a"), Some(9));
    assert_eq!(da.exact_match_search(b"b"), None);
    assert_eq!(da.exact_match_search(b""), None);
    assert_eq!(da.exact_match_search(b"aa"), None);
    assert_eq!(da.common_prefix_search(b"ab").collect(), vec![(9, 1)]);
}

#[test]
fn test_exact_match_honours_extended_offset() {
    // a root whose offset field is stored with the extend bit: offset 0x100
    let mut words = vec![0u32; 512];
    words[0] = (1 << 10) | 0x200;
    words[0x100 ^ 0x61] = 0x100 | 0x61 | (3 << 10);
    words[3] = 77 | 0x8000_0000;
    let mut image = Vec::new();
    for w in &words {
        image.extend_from_slice(&w.to_le_bytes());
    }
    let da = DoubleArray::new(image);
    assert_eq!(da.exact_match_search(b"a"), Some(77));
}

#[test]
fn test_exact_match_requires_leaf_flag_on_leaf_cell() {
    // the node claims a leaf, but the cell it points to is no leaf
    let mut words = vec![0u32; 256];
    words[0] = 4 << 10;
    words[0x65] = (2 << 10) | 0x100 | 0x61;
    words[2] = 9;
    let mut image = Vec::new();
    for w in &words {
        image.extend_from_slice(&w.to_le_bytes());
    }
    let da = DoubleArray::new(image);
    assert_eq!(da.exact_match_search(b"a"), None);
}

struct Lcg(u64);

impl Lcg {
    fn next(&mut self) -> u32 {
        self.0 = self
            .0
            .wrapping_mul(6364136223846793005)
            .wrapping_add(1442695040888963407);
        (self.0 >> 33) as u32
    }

    fn key(&mut self, max_len: u32, alphabet: u32) -> Vec<u8> {
        let len = 1 + self.next() % max_len;
        (0..len).map(|_| 1 + (self.next() % alphabet) as u8).collect()
    }
}

fn expected_prefixes(map: &BTreeMap<Vec<u8>, u32>, probe: &[u8]) -> Vec<(u32, usize)> {
    let mut found = Vec::new();
    for n in 1..=probe.len() {
        if let Some(v) = map.get(&probe[..n]) {
            found.push((*v, n));
        }
    }
    found
}

#[test]
fn test_large_keyset_roundtrip() {
    let mut rng = Lcg(0x1234_5678_9ABC_DEF0);
    let mut map: BTreeMap<Vec<u8>, u32> = BTreeMap::new();
    while map.len() < 100_000 {
        let key = rng.key(8, 255);
        let value = rng.next() & 0x7FFF_FFFF;
        map.insert(key, value);
    }
    let keyset: Vec<(&[u8], u32)> = map.iter().map(|(k, v)| (k.as_slice(), *v)).collect();

    let image = DoubleArrayBuilder::build(&keyset);
    assert!(image.is_some());
    let image = image.unwrap();
    assert_eq!(image.len() % 1024, 0);
    assert!(image.len() > 0);

    let da = DoubleArray::new(image);
    for (key, value) in &keyset {
        assert_eq!(da.exact_match_search(key), Some(*value));
    }
    let mut absent = 0;
    while absent < 1000 {
        let probe = rng.key(10, 255);
        if !map.contains_key(&probe) {
            assert_eq!(da.exact_match_search(&probe), None);
            absent += 1;
        }
    }
}

#[test]
fn test_random_keysets_against_reference_map() {
    let mut rng = Lcg(42);
    for round in 0..60 {
        let alphabet = [2, 3, 5, 26, 255][round % 5];
        let size = 1 + (rng.next() % 400) as usize;
        let mut map: BTreeMap<Vec<u8>, u32> = BTreeMap::new();
        for _ in 0..size {
            let key = rng.key(6, alphabet);
            let value = rng.next() & 0x7FFF_FFFF;
            map.insert(key, value);
        }
        let keyset: Vec<(&[u8], u32)> = map.iter().map(|(k, v)| (k.as_slice(), *v)).collect();
        let image = DoubleArrayBuilder::build(&keyset).unwrap();
        assert_eq!(image.len() % 1024, 0);
        let da = DoubleArray::new(image);

        // real keys
        for (key, value) in &keyset {
            assert_eq!(da.exact_match_search(key), Some(*value));
            assert_eq!(
                da.common_prefix_search(key).collect(),
                expected_prefixes(&map, key)
            );
        }
        // prefixes of real keys
        for (key, _) in &keyset {
            let cut = (rng.next() as usize) % (key.len() + 1);
            let probe = &key[..cut];
            assert_eq!(da.exact_match_search(probe), map.get(probe).copied());
            assert_eq!(
                da.common_prefix_search(probe).collect(),
                expected_prefixes(&map, probe)
            );
        }
        // random strings
        for _ in 0..300 {
            let probe = rng.key(8, alphabet);
            assert_eq!(da.exact_match_search(&probe), map.get(&probe).copied());
            assert_eq!(
                da.common_prefix_search(&probe).collect(),
                expected_prefixes(&map, &probe)
            );
        }
    }
}

#[test]
fn test_all_single_byte_keys() {
    let keys: Vec<Vec<u8>> = (1..=255u8).map(|b| vec![b]).collect();
    let keyset: Vec<(&[u8], u32)> = keys
        .iter()
        .enumerate()
        .map(|(i, k)| (k.as_slice(), i as u32))
        .collect();
    let da = build(&keyset);
    for (key, value) in &keyset {
        assert_eq!(da.exact_match_search(key), Some(*value));
    }
    assert_eq!(da.exact_match_search(&[1, 1]), None);
}

#[test]
fn test_long_key() {
    let long: Vec<u8> = (0..3000).map(|i| 1 + (i % 200) as u8).collect();
    let keyset: Vec<(&[u8], u32)> = vec![(&long[..1500], 1), (&long[..], 2)];
    let da = build(&keyset);
    assert_eq!(da.exact_match_search(&long[..1500]), Some(1));
    assert_eq!(da.exact_match_search(&long), Some(2));
    assert_eq!(da.exact_match_search(&long[..2999]), None);
    assert_eq!(
        da.common_prefix_search(&long).collect(),
        vec![(1, 1500), (2, 3000)]
    );
}
