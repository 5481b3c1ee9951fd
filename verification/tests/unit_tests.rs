use yada::unit::Unit;

#[test]
fn test_unit_value() {
    let mut unit = Unit::new();
    assert_eq!(unit.value(), 0);

    unit.set_value(5);
    assert_eq!(unit.value(), 5);

    unit.set_value((1 << 31) - 1);
    assert_eq!(unit.value(), (1 << 31) - 1);

    unit.set_value(1 << 31);
    assert_eq!(unit.value(), 0);
}

#[test]
fn test_label() {
    let unit = Unit::new();
    assert_eq!(unit.label(), 0);

    let mut unit = Unit::new();
    unit.set_label(0);
    assert_eq!(unit.label(), 0);

    let mut unit = Unit::new();
    unit.set_label(1);
    assert_eq!(unit.label(), 1);

    let mut unit = Unit::new();
    unit.set_label(255);
    assert_eq!(unit.label(), 255);
}

#[test]
fn test_offset() {
    let unit = Unit::new();
    assert_eq!(unit.offset(), 0);

    let mut unit = Unit::new();
    unit.set_offset(0);
    assert_eq!(unit.offset(), 0);

    let mut unit = Unit::new();
    unit.set_offset(1);
    assert_eq!(unit.offset(), 1);

    let mut unit = Unit::new();
    unit.set_offset((1 << 21) - 1);
    assert_eq!(unit.offset(), (1 << 21) - 1);

    let mut unit = Unit::new();
    unit.set_offset(1 << 21);
    assert_eq!(unit.offset(), 1 << 21);

    let mut unit = Unit::new();
    unit.set_offset(1 << 28);
    assert_eq!(unit.offset(), 1 << 28);
}

#[test]
fn test_new_unit_is_empty_internal_node() {
    let unit = Unit::new();
    assert_eq!(unit.as_u32(), 0);
    assert!(!unit.is_leaf());
    assert!(!unit.has_leaf());
}

#[test]
fn test_from_u32_as_u32() {
    for &word in &[0u32, 1, 0xFF, 0x100, 0x200, 0x7FFF_FFFF, 0x8000_0000, 0xFFFF_FFFF] {
        assert_eq!(Unit::from_u32(word).as_u32(), word);
    }
}

#[test]
fn test_set_value_marks_leaf_and_masks() {
    for &value in &[0u32, 1, 5, 0x7FFF_FFFF, 0x8000_0000, 0x8000_0005, 0xFFFF_FFFF] {
        let mut unit = Unit::from_u32(0x1234_5678);
        unit.set_value(value);
        assert_eq!(unit.value(), value & 0x7FFF_FFFF);
        assert!(unit.is_leaf());
        assert_eq!(unit.as_u32(), value | 0x8000_0000);
        // the label of a leaf is above every byte
        assert!(unit.label() > 255);
    }
}

#[test]
fn test_set_label_reads_back_for_every_byte() {
    for label in 0..=255u8 {
        let mut unit = Unit::new();
        unit.set_offset(0x1234);
        unit.set_has_leaf(true);
        unit.set_label(label);
        assert_eq!(unit.label(), label as u32);
        assert_eq!(unit.offset(), 0x1234);
        assert!(unit.has_leaf());
        assert!(!unit.is_leaf());
    }
}

#[test]
fn test_set_label_on_leaf_keeps_leaf_bit() {
    let mut unit = Unit::from_u32(0x8000_0000);
    unit.set_label(5);
    assert_eq!(unit.as_u32(), 0x8000_0005);
    assert_eq!(unit.label(), 0x8000_0005);
    assert!(unit.is_leaf());
}

#[test]
fn test_set_has_leaf_reads_back() {
    for &word in &[0u32, 0x61, 0x0001_8461, 0x7FFF_FFFF] {
        let mut unit = Unit::from_u32(word);
        unit.set_has_leaf(true);
        assert!(unit.has_leaf());
        assert_eq!(unit.as_u32(), word | 0x100);
        unit.set_has_leaf(false);
        assert!(!unit.has_leaf());
        assert_eq!(unit.as_u32(), word & !0x100);
    }
}

#[test]
fn test_set_offset_exact_words() {
    // below 2^21 the offset goes into bits 10..30 as it is
    let mut unit = Unit::from_u32(0x161);
    unit.set_offset(3);
    assert_eq!(unit.as_u32(), (3 << 10) | 0x161);
    assert_eq!(unit.offset(), 3);
    assert_eq!(unit.label(), 0x61);
    assert!(unit.has_leaf());

    // from 2^21 on it is stored without its low 8 bits, with the extend bit
    let mut unit = Unit::from_u32(0x161);
    unit.set_offset(0x0020_0100);
    assert_eq!(unit.as_u32(), (0x0020_0100 << 2) | 0x200 | 0x161);
    assert_eq!(unit.offset(), 0x0020_0100);
    assert_eq!(unit.label(), 0x61);
    assert!(unit.has_leaf());
    assert!(!unit.is_leaf());
}

#[test]
fn test_set_offset_roundtrip_over_range() {
    let mut offsets: Vec<u32> = vec![0, 1, 255, 256, (1 << 21) - 1, 1 << 21, (1 << 29) - 256];
    let mut o: u32 = 1 << 21;
    while o < (1 << 29) {
        offsets.push(o);
        o += 0x0123_4500 & !0xFF;
    }
    for offset in offsets {
        if offset >= (1 << 21) {
            assert_eq!(offset & 0xFF, 0);
        }
        let mut unit = Unit::from_u32(0xFFFF_FFFF);
        unit.set_offset(offset);
        assert_eq!(unit.offset(), offset);
        assert!(!unit.is_leaf());
        assert_eq!(unit.label(), 0xFF);
        assert!(unit.has_leaf());
    }
}

#[test]
fn test_set_offset_replaces_earlier_offset() {
    let mut unit = Unit::new();
    unit.set_label(7);
    unit.set_offset(1 << 22);
    unit.set_offset(12);
    assert_eq!(unit.offset(), 12);
    assert_eq!(unit.label(), 7);
    assert_eq!(unit.as_u32(), (12 << 10) | 7);
}

#[test]
fn test_to_string_of_leaf() {
    let mut unit = Unit::new();
    unit.set_value(5);
    assert_eq!(unit.to_string(), "Unit { value: 5 }");
    unit.set_value(0);
    assert_eq!(unit.to_string(), "Unit { value: 0 }");
    unit.set_value(0x7FFF_FFFF);
    assert_eq!(unit.to_string(), "Unit { value: 2147483647 }");
    unit.set_value(1_000_000);
    assert_eq!(unit.to_string(), "Unit { value: 1000000 }");
}

#[test]
fn test_to_string_of_internal_node() {
    let unit = Unit::new();
    assert_eq!(
        unit.to_string(),
        "Unit { offset: 0, label: NULL, has_leaf: false }"
    );

    let mut unit = Unit::new();
    unit.set_label(b'a');
    unit.set_offset(3);
    unit.set_has_leaf(true);
    assert_eq!(
        unit.to_string(),
        "Unit { offset: 3, label: a, has_leaf: true }"
    );

    let mut unit = Unit::new();
    unit.set_label(b'\n');
    unit.set_offset(1 << 21);
    assert_eq!(
        unit.to_string(),
        "Unit { offset: 2097152, label: \\n, has_leaf: false }"
    );

    let mut unit = Unit::new();
    unit.set_label(1);
    assert_eq!(
        unit.to_string(),
        "Unit { offset: 0, label: \\u{1}, has_leaf: false }"
    );

    let mut unit = Unit::new();
    unit.set_label(0xE9);
    assert_eq!(
        unit.to_string(),
        "Unit { offset: 0, label: \\u{e9}, has_leaf: false }"
    );

    let mut unit = Unit::new();
    unit.set_label(b'\'');
    assert_eq!(
        unit.to_string(),
        "Unit { offset: 0, label: \\', has_leaf: false }"
    );
}

#[test]
fn test_to_string_escapes_every_label_as_a_character_literal() {
    for label in 1..=255u8 {
        for &(offset, has_leaf) in &[(0u32, false), (7, true), (1234567, false), (1 << 28, true)] {
            let mut unit = Unit::new();
            unit.set_label(label);
            unit.set_offset(offset);
            unit.set_has_leaf(has_leaf);
            let expected = format!(
                "Unit {{ offset: {}, label: {}, has_leaf: {} }}",
                offset,
                (label as char).escape_default(),
                has_leaf
            );
            assert_eq!(unit.to_string(), expected);
        }
    }
}

#[test]
fn test_to_string_of_values_in_decimal() {
    let mut value: u32 = 1;
    for _ in 0..40 {
        let mut unit = Unit::new();
        unit.set_value(value & 0x7FFF_FFFF);
        assert_eq!(
            unit.to_string(),
            format!("Unit {{ value: {} }}", value & 0x7FFF_FFFF)
        );
        value = value.wrapping_mul(2654435761).wrapping_add(12345);
    }
}
