use binsig::Atom;
use binsig::Pattern;
use binsig::ScannerError;

fn brute_force_offsets(p: &Pattern, haystack: &[u8]) -> Vec<usize> {
    let size = p.size();
    let mut found: Vec<usize> = Vec::new();
    if size > haystack.len() {
        return found;
    }
    let mut o = 0;
    while o + size <= haystack.len() {
        if p.is_matching(&haystack[o..o + size]) {
            found.push(o);
        }
        o += 1;
    }
    found
}

#[test]
fn size_equals_signature_length() {
    assert_eq!(0, Pattern::from_bytes(&[], &[]).size());
    assert_eq!(1, Pattern::from_bytes(&[0xAB], &[]).size());
    assert_eq!(5, Pattern::from_bytes(&[1, 2, 3, 4, 5], &[2]).size());
    assert_eq!(
        13,
        Pattern::from_bytes(&[1, 2, 3, 4, 5, 6, 7, 8, 9, 10, 11, 12, 13], &[0, 1, 12]).size()
    );
}

#[test]
fn pattern_matches_own_bytes() {
    let bytes: &[u8] = &[0x10, 0x20, 0x30, 0x40, 0x50, 0x60, 0x70, 0x80, 0x90];
    assert!(Pattern::from_bytes(bytes, &[]).is_matching(bytes));
    assert!(Pattern::from_bytes(bytes, &[0, 3, 4, 8]).is_matching(bytes));
    assert!(Pattern::from_bytes(&[], &[]).is_matching(&[]));
}

#[test]
fn compilation_is_deterministic() {
    let bytes: &[u8] = &[9, 8, 7, 6, 5, 4, 3, 2, 1];
    let mask: &[usize] = &[2, 3, 4];
    assert_eq!(
        Pattern::from_bytes(bytes, mask),
        Pattern::from_bytes(bytes, mask)
    );
    assert_eq!(
        Pattern::from_ida("11 ?? 22").unwrap(),
        Pattern::from_ida("11 ?? 22").unwrap()
    );
}

#[test]
fn wildcard_run_is_never_subdivided() {
    let bytes: &[u8] = &[0x11, 0, 0, 0, 0, 0, 0, 0, 0, 0, 0x22];
    let mask: &[usize] = &[1, 2, 3, 4, 5, 6, 7, 8, 9];
    assert_eq!(
        Pattern::new(vec![Atom::Byte(0x11), Atom::Mask(9), Atom::Byte(0x22)]),
        Pattern::from_bytes(bytes, mask)
    );
    assert_eq!(
        Pattern::new(vec![Atom::Mask(12)]),
        Pattern::from_bytes(&[0; 12], &[0, 1, 2, 3, 4, 5, 6, 7, 8, 9, 10, 11])
    );
}

#[test]
fn literal_run_chunking_is_greedy() {
    assert_eq!(
        Pattern::new(vec![Atom::LongLong(0x8877665544332211)]),
        Pattern::from_bytes(&[0x11, 0x22, 0x33, 0x44, 0x55, 0x66, 0x77, 0x88], &[])
    );
    assert_eq!(
        Pattern::new(vec![
            Atom::Long(0x44332211),
            Atom::Short(0x6655),
            Atom::Byte(0x77)
        ]),
        Pattern::from_bytes(&[0x11, 0x22, 0x33, 0x44, 0x55, 0x66, 0x77], &[])
    );
    assert_eq!(
        Pattern::new(vec![
            Atom::LongLong(0x0807060504030201),
            Atom::Long(0x0C0B0A09),
            Atom::Byte(0x0D)
        ]),
        Pattern::from_bytes(&[1, 2, 3, 4, 5, 6, 7, 8, 9, 10, 11, 12, 13], &[])
    );
}

#[test]
fn scanner_equals_brute_force() {
    let haystack: &[u8] = &[
        0x11, 0x22, 0x33, 0x0, 0x0, 0x11, 0x22, 0x33, 0x11, 0x0, 0x33, 0x11, 0x22,
    ];
    let patterns = vec![
        Pattern::from_ida("11 ?? 33").unwrap(),
        Pattern::from_ida("11").unwrap(),
        Pattern::from_ida("11 22").unwrap(),
        Pattern::from_ida("?? ??").unwrap(),
        Pattern::from_ida("FF").unwrap(),
        Pattern::from_bytes(&[], &[]),
    ];
    for p in patterns {
        assert_eq!(brute_force_offsets(&p, haystack), p.scan(haystack).collect_offsets());
    }
}

#[test]
fn scenario_masked_window() {
    let p = Pattern::from_ida("11 ?? 22 ?? 33").unwrap();
    assert_eq!(true, p.is_matching(&[0x11, 0xCC, 0x22, 0xCC, 0x33]));
    assert_eq!(false, p.is_matching(&[0x11, 0xCC, 0x99, 0xCC, 0x33]));
}

#[test]
fn scenario_masked_scan() {
    let haystack: &[u8] = &[
        0x11, 0x22, 0x33, 0x00, 0x00, 0x11, 0x22, 0x33, 0x11, 0x00, 0x33,
    ];
    let p = Pattern::from_ida("11 ?? 33").unwrap();
    assert_eq!(vec![0, 5, 8], p.scan(haystack).collect_offsets());
}

#[test]
fn scenario_single_byte_scan() {
    let haystack: &[u8] = &[
        0x11, 0x22, 0x33, 0x00, 0x00, 0x11, 0x22, 0x33, 0x11, 0x00, 0x33,
    ];
    let p = Pattern::from_ida("11").unwrap();
    assert_eq!(vec![0, 5, 8], p.scan(haystack).collect_offsets());
}

#[test]
fn pattern_longer_than_haystack_yields_nothing() {
    let haystack: &[u8] = &[0x11, 0x22];
    let p = Pattern::from_ida("11 22 33").unwrap();
    let empty: Vec<usize> = Vec::new();
    assert_eq!(empty, p.scan(haystack).collect_offsets());
}

#[test]
fn zero_length_pattern_matches_everywhere() {
    // The documented policy: a zero-size pattern matches the empty
    // window at every offset from 0 to the haystack length inclusive,
    // so a haystack of length n yields exactly n + 1 offsets.
    let haystack: &[u8] = &[0xAA, 0xBB, 0xCC];
    let p = Pattern::from_bytes(&[], &[]);
    assert_eq!(0, p.size());
    let offsets = p.scan(haystack).collect_offsets();
    assert_eq!(vec![0, 1, 2, 3], offsets);
    assert_eq!(haystack.len() + 1, offsets.len());

    let empty_hay: &[u8] = &[];
    assert_eq!(vec![0], p.scan(empty_hay).collect_offsets());
}

#[test]
fn scanner_is_single_pass() {
    let haystack: &[u8] = &[0x11, 0x00, 0x11];
    let p = Pattern::from_ida("11").unwrap();
    let mut s = p.scan(haystack);
    assert_eq!(Some(0), s.next().map(|t| t.0));
    assert_eq!(Some(2), s.next().map(|t| t.0));
    assert_eq!(None, s.next().map(|t| t.0));
    assert_eq!(None, s.next().map(|t| t.0));
}

#[test]
fn next_yields_matched_window() {
    let haystack: &[u8] = &[0x00, 0x11, 0x77, 0x33, 0x00];
    let p = Pattern::from_ida("11 ?? 33").unwrap();
    let mut s = p.scan(haystack);
    let (offset, window) = s.next().unwrap();
    assert_eq!(1, offset);
    assert_eq!(&[0x11, 0x77, 0x33], window);
}

#[test]
fn hex_decoding_is_case_insensitive() {
    assert_eq!(
        Pattern::from_bytes(&[0xFF, 0x00, 0xAA], &[]),
        Pattern::from_ida("fF 00 Aa").unwrap()
    );
    assert_eq!(
        Pattern::from_bytes(&[0x09, 0x1B, 0xC4], &[]),
        Pattern::from_ida("09 1b c4").unwrap()
    );
}

#[test]
fn invalid_tokens_are_rejected() {
    assert_eq!(
        Err(ScannerError::InvalidToken(0)),
        Pattern::from_ida("1G")
    );
    assert_eq!(
        Err(ScannerError::InvalidToken(1)),
        Pattern::from_ida("11 2")
    );
    assert_eq!(
        Err(ScannerError::InvalidToken(1)),
        Pattern::from_ida("11 ???")
    );
    assert_eq!(
        Err(ScannerError::InvalidToken(2)),
        Pattern::from_ida("11 22 3z 44")
    );
    assert_eq!(
        Err(ScannerError::InvalidToken(0)),
        Pattern::from_ida("1122")
    );
    assert_eq!(
        Err(ScannerError::InvalidToken(1)),
        Pattern::from_ida("11  22")
    );
    assert_eq!(Err(ScannerError::InvalidToken(0)), Pattern::from_ida(""));
}

#[test]
fn atom_sizes() {
    assert_eq!(8, Atom::LongLong(0).size());
    assert_eq!(4, Atom::Long(0).size());
    assert_eq!(2, Atom::Short(0).size());
    assert_eq!(1, Atom::Byte(0).size());
    assert_eq!(9, Atom::Mask(9).size());
}
