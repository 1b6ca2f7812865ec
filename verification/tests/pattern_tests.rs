use binsig::Atom;
use binsig::Pattern;
use binsig::ScannerError;

#[test]
fn test_bytes() {
    assert_eq!(
        Pattern::new(vec![Atom::Byte(0x11)]),
        Pattern::from_bytes(&[0x11], &[])
    );
    assert_eq!(
        Pattern::new(vec![Atom::Short(0x2211)]),
        Pattern::from_bytes(&[0x11, 0x22], &[])
    );
    assert_eq!(
        Pattern::new(vec![Atom::Short(0x2211), Atom::Byte(0x33)]),
        Pattern::from_bytes(&[0x11, 0x22, 0x33], &[])
    );
    assert_eq!(
        Pattern::new(vec![Atom::Long(0x44332211)]),
        Pattern::from_bytes(&[0x11, 0x22, 0x33, 0x44], &[])
    );
}

#[test]
fn test_masked_bytes() {
    assert_eq!(
        Pattern::new(vec![Atom::Byte(0x11), Atom::Mask(1), Atom::Byte(0x22)]),
        Pattern::from_bytes(&[0x11, 0x0, 0x22], &[1])
    );
    assert_eq!(
        Pattern::new(vec![Atom::Byte(0x11), Atom::Mask(2), Atom::Byte(0x22)]),
        Pattern::from_bytes(&[0x11, 0x0, 0x0, 0x22], &[1, 2])
    );
    assert_eq!(
        Pattern::new(vec![
            Atom::Byte(0x11),
            Atom::Mask(2),
            Atom::Byte(0x22),
            Atom::Mask(1),
            Atom::Byte(0x33)
        ]),
        Pattern::from_bytes(&[0x11, 0x0, 0x0, 0x22, 0x0, 0x33], &[1, 2, 4])
    );
}

#[test]
fn test_str() {
    assert_eq!(
        Pattern::new(vec![Atom::Byte(0x11)]),
        Pattern::from_ida("11").unwrap()
    );
    assert_eq!(
        Pattern::new(vec![Atom::Short(0x2211)]),
        Pattern::from_ida("11 22").unwrap()
    );
    // A token must be exactly two hexadecimal digits: a four-digit
    // token is a decoding error.
    assert_eq!(
        Err(ScannerError::InvalidToken(0)),
        Pattern::from_ida("1122")
    );
    assert_eq!(
        Pattern::new(vec![Atom::Short(0x2211), Atom::Byte(0x33)]),
        Pattern::from_ida("11 22 33").unwrap()
    );

    assert_eq!(
        Pattern::new(vec![Atom::Long(0x44332211)]),
        Pattern::from_ida("11 22 33 44").unwrap()
    );
}

#[test]
fn test_masked_str() {
    assert_eq!(
        Pattern::new(vec![Atom::Byte(0x11), Atom::Mask(1), Atom::Byte(0x22)]),
        Pattern::from_ida("11 ?? 22").unwrap()
    );
    assert_eq!(
        Pattern::new(vec![Atom::Byte(0x11), Atom::Mask(2), Atom::Byte(0x22)]),
        Pattern::from_ida("11 ?? ?? 22").unwrap()
    );
    assert_eq!(
        Pattern::new(vec![
            Atom::Byte(0x11),
            Atom::Mask(2),
            Atom::Byte(0x22),
            Atom::Mask(2),
            Atom::Byte(0x33)
        ]),
        Pattern::from_ida("11 ?? ?? 22 ?? ?? 33").unwrap()
    );
}

#[test]
fn test_matching() {
    assert_eq!(
        true,
        Pattern::new(vec![Atom::Byte(0x11), Atom::Mask(1), Atom::Byte(0x22)])
            .is_matching(&[0x11, 0x44, 0x22])
    );
    assert_eq!(
        false,
        Pattern::new(vec![Atom::Byte(0x11), Atom::Mask(1), Atom::Byte(0x22)])
            .is_matching(&[0x11, 0x44, 0x00])
    );
    assert_eq!(
        true,
        Pattern::new(vec![Atom::Byte(0x11), Atom::Mask(2), Atom::Byte(0x22)])
            .is_matching(&[0x11, 0x44, 0x00, 0x22])
    );
    assert_eq!(
        false,
        Pattern::new(vec![
            Atom::Byte(0x11),
            Atom::Mask(2),
            Atom::Byte(0x22),
            Atom::Mask(1),
            Atom::Byte(0x33)
        ])
        .is_matching(&[0x11, 0x44, 0x00, 0x00, 0x00, 0x33])
    );
}

#[test]
fn test_find_all() {
    let haystack: &[u8] = &[
        0x11, 0x22, 0x33, 0x0, 0x0, 0x11, 0x22, 0x33, 0x11, 0x0, 0x33,
    ];
    assert_eq!(
        vec![0, 5, 8],
        Pattern::new(vec![Atom::Byte(0x11), Atom::Mask(1), Atom::Byte(0x33)])
            .scan(haystack)
            .collect_offsets()
    );
    assert_eq!(
        vec![0],
        Pattern::new(vec![Atom::Long(0x332211)])
            .scan(haystack)
            .collect_offsets()
    );
}
