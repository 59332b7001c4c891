use chemikaze::errors::ErrorKind;
use chemikaze::periodic_table::{
    get_element_by_symbol_bytes, get_element_by_symbol_str, hash, ELEMENTHASH_TO_ELEMENT,
};

#[test]
fn returns_element_by_its_symbol_str() {
    assert_eq!(0u8, get_element_by_symbol_str("H").unwrap());
    assert_eq!(1u8, get_element_by_symbol_str("C").unwrap());
    assert_eq!(9u8, get_element_by_symbol_str("Na").unwrap());
}

#[test]
fn returns_element_by_its_symbol_bytes() {
    assert_eq!(0u8, get_element_by_symbol_bytes(['H' as u8, 0]).unwrap());
    assert_eq!(82u8, get_element_by_symbol_bytes(['H' as u8, 'e' as u8]).unwrap());
}

#[test]
fn unknown_symbols_are_reported() {
    let err = get_element_by_symbol_bytes([b'Q', 0]).unwrap_err();
    assert_eq!(ErrorKind::UnknownElement, err.kind);
    assert_eq!("Unknown chemical symbol: Q", err.msg);
    let err = get_element_by_symbol_bytes([b'H', b'x']).unwrap_err();
    assert_eq!("Unknown chemical symbol: Hx", err.msg);
    let err = get_element_by_symbol_str("h").unwrap_err();
    assert_eq!(ErrorKind::UnknownElement, err.kind);
    // 'q' hashes to an empty bucket, which holds element 0
    assert_eq!(0, ELEMENTHASH_TO_ELEMENT[hash([b'q', 0])]);
    assert!(get_element_by_symbol_bytes([b'q', 0]).is_err());
    let err = get_element_by_symbol_bytes([0xff, 0xfe]).unwrap_err();
    assert_eq!("Unknown chemical symbol: Invalid ASCII sequence: [255,254]", err.msg);
}

#[test]
fn every_symbol_is_found_in_its_bucket() {
    let symbols = ["H", "Br", "Cl", "Na", "Ar", "U", "W", "Pa"];
    let ids = [0u8, 7, 8, 9, 84, 81, 69, 80];
    for (s, id) in symbols.iter().zip(ids) {
        assert_eq!(id, get_element_by_symbol_str(s).unwrap());
        let b = s.as_bytes();
        let bytes = [b[0], if b.len() > 1 { b[1] } else { 0 }];
        assert_eq!(id, get_element_by_symbol_bytes(bytes).unwrap());
        assert_eq!(id, ELEMENTHASH_TO_ELEMENT[hash(bytes)]);
    }
}

#[test]
fn hash_follows_the_formula() {
    assert_eq!(488, hash([b'H', 0]));
    assert_eq!(((b'N' as usize * 277) ^ b'a' as usize) & 511, hash([b'N', b'a']));
    assert_eq!(7, hash([b'N', b'a']));
}
