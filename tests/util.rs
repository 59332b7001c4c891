use chemikaze::atom_counts::AtomCounts;
use chemikaze::util::{bytes_to_string, join};

#[test]
fn join_lists_decimal_bytes() {
    assert_eq!("72,101", join(&[72, 101]));
    assert_eq!("0", join(&[0]));
    assert_eq!("255,10,7", join(&[255, 10, 7]));
    assert_eq!("", join(&[]));
}

#[test]
fn bytes_to_string_decodes_or_lists() {
    assert_eq!("Na", bytes_to_string(b"Na"));
    assert_eq!("é", bytes_to_string(&[0xc3, 0xa9]));
    assert_eq!("Invalid ASCII sequence: [195]", bytes_to_string(&[0xc3]));
    assert_eq!("Invalid ASCII sequence: [72,255]", bytes_to_string(&[72, 255]));
}

#[test]
fn formatting_omits_zero_and_one_counts() {
    let mut counts = vec![0u32; 85];
    assert_eq!("", AtomCounts { counts: counts.clone() }.to_string());
    counts[0] = 1;
    counts[9] = 12;
    counts[84] = 4294967295;
    assert_eq!("HNa12Ar4294967295", AtomCounts { counts }.to_string());
}
