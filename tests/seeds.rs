use graphmat::seeds::{parse_seeds, SeedError};

#[test]
fn test_parse_seeds_lines() {
    let text = b"1010, 2020\n\n  1F00 ,2abc  \r\n";
    assert_eq!(parse_seeds(text, 0x1000, 0x2000), Ok(vec![(0x10, 0x20), (0xF00, 0xabc)]));
}

#[test]
fn test_parse_seeds_empty() {
    assert_eq!(parse_seeds(b"", 0, 0), Ok(vec![]));
    assert_eq!(parse_seeds(b"\n \n\t\n", 0, 0), Ok(vec![]));
}

#[test]
fn test_parse_seeds_last_line_without_newline() {
    assert_eq!(parse_seeds(b"+A,b", 0, 1), Ok(vec![(10, 10)]));
}

#[test]
fn test_parse_seeds_missing_comma() {
    assert_eq!(parse_seeds(b"10 20\n", 0, 0), Err(SeedError::MissingComma));
}

#[test]
fn test_parse_seeds_invalid_address() {
    assert_eq!(parse_seeds(b"10, 2g\n", 0, 0), Err(SeedError::InvalidAddress));
    assert_eq!(parse_seeds(b", 20\n", 0, 0), Err(SeedError::InvalidAddress));
    assert_eq!(parse_seeds(b"10000000000000000, 1\n", 0, 0), Err(SeedError::InvalidAddress));
    assert_eq!(parse_seeds(b"FFFFFFFFFFFFFFFF, 1\n", 0, 0), Ok(vec![(u64::MAX, 1)]));
}

#[test]
fn test_parse_seeds_before_base() {
    assert_eq!(parse_seeds(b"10, 20\n", 0x11, 0), Err(SeedError::BeforeBase));
}
