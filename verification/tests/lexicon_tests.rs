use yada::builder::DoubleArrayBuilder;
use yada::lexicon::{first_column, number_words};
use yada::DoubleArray;

#[test]
fn test_first_column() {
    assert_eq!(first_column(b"abc,def,ghi"), b"abc".to_vec());
    assert_eq!(first_column(b"abc"), b"abc".to_vec());
    assert_eq!(first_column(b",abc"), Vec::<u8>::new());
    assert_eq!(first_column(b""), Vec::<u8>::new());
    assert_eq!(first_column(b"a,"), b"a".to_vec());
    assert_eq!(first_column("日本語,x".as_bytes()), "日本語".as_bytes().to_vec());
}

#[test]
fn test_number_words_removes_duplicates_and_sorts() {
    let lexicon: Vec<Vec<u8>> = vec![
        b"pear".to_vec(),
        b"apple".to_vec(),
        b"pear".to_vec(),
        b"fig".to_vec(),
        b"apple".to_vec(),
        b"app".to_vec(),
    ];
    let numbered = number_words(&lexicon).unwrap();
    assert_eq!(
        numbered,
        vec![
            (b"app".to_vec(), 1),
            (b"apple".to_vec(), 2),
            (b"fig".to_vec(), 3),
            (b"pear".to_vec(), 4),
        ]
    );
}

#[test]
fn test_number_words_orders_bytes_as_unsigned() {
    let lexicon: Vec<Vec<u8>> = vec![vec![0x80], vec![0x7F, 0xFF], vec![0x7F], vec![]];
    let numbered = number_words(&lexicon).unwrap();
    assert_eq!(
        numbered,
        vec![
            (vec![], 1),
            (vec![0x7F], 2),
            (vec![0x7F, 0xFF], 3),
            (vec![0x80], 4),
        ]
    );
}

#[test]
fn test_number_words_of_nothing() {
    let lexicon: Vec<Vec<u8>> = vec![];
    assert_eq!(number_words(&lexicon), Some(vec![]));
}

#[test]
fn test_numbered_words_build_a_trie() {
    let lines: Vec<&[u8]> = vec![
        b"banana,1,x",
        b"apple,2,y",
        b"cherry",
        b"apple,9,z",
        b"apricot,,",
    ];
    let lexicon: Vec<Vec<u8>> = lines.iter().map(|line| first_column(line)).collect();
    let numbered = number_words(&lexicon).unwrap();
    let keyset: Vec<(&[u8], u32)> = numbered.iter().map(|(k, v)| (k.as_slice(), *v)).collect();
    let image = DoubleArrayBuilder::build(&keyset).unwrap();
    let da = DoubleArray::new(image);
    assert_eq!(da.exact_match_search(b"apple"), Some(1));
    assert_eq!(da.exact_match_search(b"apricot"), Some(2));
    assert_eq!(da.exact_match_search(b"banana"), Some(3));
    assert_eq!(da.exact_match_search(b"cherry"), Some(4));
    assert_eq!(da.exact_match_search(b"app"), None);
}
