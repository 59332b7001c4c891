use chemikaze::errors::ErrorKind::Parsing;
use chemikaze::mf::{parse_mf, parse_mf_ascii, parse_mf_ascii_chunk};
use chemikaze::periodic_table::EARTH_ELEMENT_CNT;

#[test]
fn mf_simple_mf_is_parsed_into_counts() {
    assert_eq!("H2O", parse_mf("H2O").unwrap().to_string());
}

#[test]
fn empty_mf_creates_empty_counts() {
    // an empty formula is rejected; a formula without atoms has all counts zero
    assert_eq!("Empty Molecular Formula", parse_mf("").unwrap_err().msg);
    assert_eq!("Empty Molecular Formula", parse_mf_ascii(b"").unwrap_err().msg);
    assert_eq!(parse_mf_ascii(b"[]+").unwrap().counts, [0u32; EARTH_ELEMENT_CNT]);
    assert_eq!("H2O", parse_mf("H2O").unwrap().to_string());
}

#[test]
fn mf_errs_if_symbol_is_not_known() {
    let err = parse_mf("A").err().unwrap();
    assert_eq!(Parsing, err.kind);
    assert_eq!("Invalid Molecular Formula: A. Details: Unknown chemical symbol: A", err.msg);

    let err = parse_mf("o").err().unwrap();
    assert_eq!(Parsing, err.kind);
    assert_eq!("Invalid Molecular Formula: o. Details: Unexpected symbol: 'o'", err.msg);
}

#[test]
fn mf_errs_if_contains_special_symbols_outside_of_allowed_punctuation() {
    let err = parse_mf("=").err().unwrap();
    assert_eq!(Parsing, err.kind);

    let err = parse_mf("O=").unwrap_err();
    assert_eq!(Parsing, err.kind);

    let err = parse_mf("=C").unwrap_err();
    assert_eq!(Parsing, err.kind);
}

#[test]
fn ascii_parsing_trims_whitespace() {
    assert_eq!("H2O", parse_mf_ascii(b"\t H2O \n").unwrap().to_string());
    let err = parse_mf_ascii(b"  \t ").unwrap_err();
    assert_eq!(Parsing, err.kind);
    assert_eq!("Empty Molecular Formula", err.msg);
}

#[test]
fn chunk_parses_only_its_range() {
    let mf = b"NaCl.H2O";
    assert_eq!("ClNa", parse_mf_ascii_chunk(mf, 0, 4).unwrap().to_string());
    assert_eq!("H2O", parse_mf_ascii_chunk(mf, 5, 8).unwrap().to_string());
    assert_eq!("Empty Molecular Formula", parse_mf_ascii_chunk(mf, 3, 3).unwrap_err().msg);
    assert_eq!("H", parse_mf_ascii_chunk(b"N H O", 1, 3).unwrap().to_string());
    assert_eq!(
        parse_mf_ascii(b" H").unwrap().counts,
        parse_mf_ascii_chunk(b"O H", 1, 3).unwrap().counts
    );
}

#[test]
fn chunk_error_names_the_chunk() {
    let err = parse_mf_ascii_chunk(b"H2O.(C", 4, 6).unwrap_err();
    assert_eq!(Parsing, err.kind);
    assert_eq!(
        "Invalid Molecular Formula: (C. Details: The opening and closing parentheses don't match.",
        err.msg
    );
}
