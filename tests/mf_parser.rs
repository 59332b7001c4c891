use chemikaze::atom_counts::AtomCounts;
use chemikaze::errors::ChemikazeError;
use chemikaze::errors::ErrorKind::Parsing;
use chemikaze::mf_parser::MfParser;
use chemikaze::periodic_table::EARTH_ELEMENT_CNT;

fn parse_mf(mf: &str) -> Result<AtomCounts, ChemikazeError> {
    MfParser::new().parse_mf(mf)
}

fn counts(mf: &str) -> Vec<u32> {
    parse_mf(mf).unwrap().counts
}

#[test]
fn mf_parser_simple_mf_is_parsed_into_counts() {
    assert_eq!("H2O", parse_mf("H2O").unwrap().to_string());
    assert_eq!("H2O", parse_mf("HOH").unwrap().to_string());
    assert_eq!("H132C67O3N8", parse_mf("C67H132N8O3").unwrap().to_string());
}

#[test]
fn complicated_mf_is_parsed_into_counts() {
    assert_eq!("H12O6NSCl3Na3", parse_mf("[(2H2O.NaCl)3S.N]2-").unwrap().to_string());
    assert_eq!("H12O6NSCl3Na3", parse_mf(" [(2H2O.NaCl)3S.N]2- ").unwrap().to_string());
}

#[test]
fn errs_on_empty_mf() {
    assert_eq!("Empty Molecular Formula", parse_mf("").unwrap_err().msg);
    assert_eq!("Empty Molecular Formula", parse_mf(" ").unwrap_err().msg);
    assert_eq!("Empty Molecular Formula", parse_mf("  ").unwrap_err().msg);
}

#[test]
fn trims_input() {
    assert_eq!("H8C2", parse_mf("  CH4CH4 ").unwrap().to_string());
    assert_eq!("H5C2", parse_mf("  (CH4).[CH]-  ").unwrap().to_string());
}

#[test]
fn parenthesis_multiply_counts() {
    assert_eq!("H8C2", parse_mf("(CH4CH4)").unwrap().to_string());
    assert_eq!("H16C4", parse_mf("(CH4CH4)2").unwrap().to_string());
    assert_eq!("H16C5", parse_mf("C(CH4CH4)2").unwrap().to_string());
    assert_eq!("H4C2O4P", parse_mf("(C(OH)2)2P").unwrap().to_string());
    assert_eq!("C2O2PS8", parse_mf("(C(2S)2O)2P").unwrap().to_string());
    assert_eq!("H2C2O2PS4", parse_mf("(C(OH))2(S(S))2P").unwrap().to_string());
}

#[test]
fn number_at_the_beginning_multiples_counts() {
    assert_eq!("H4O2", parse_mf("2H2O").unwrap().to_string());
    assert_eq!("", parse_mf("0H2O").unwrap().to_string());
}

#[test]
fn sign_is_ignored_in_counts() {
    assert_eq!("H8C2", parse_mf("[CH4CH4]+").unwrap().to_string());
    assert_eq!("H8C2", parse_mf("[CH4CH4]2+").unwrap().to_string());
}

#[test]
fn dots_separate_components_but_components_are_summed_up() {
    assert_eq!("H6CN", parse_mf("NH3.CH3").unwrap().to_string());
    assert_eq!("H9C2N", parse_mf("NH3.2CH3").unwrap().to_string());
    assert_eq!("H9C2N", parse_mf("2CH3.NH3").unwrap().to_string());
}

#[test]
fn errs_if_parenthesis_do_not_match() {
    assert_eq!("Invalid Molecular Formula: (C. Details: The opening and closing parentheses don't match.",
               parse_mf("(C").unwrap_err().msg);
    assert_eq!("Invalid Molecular Formula: )C. Details: The opening and closing parentheses don't match.",
               parse_mf(")C").unwrap_err().msg);
    assert_eq!("Invalid Molecular Formula: C). Details: The opening and closing parentheses don't match.",
               parse_mf("C)").unwrap_err().msg);
    assert_eq!("Invalid Molecular Formula: C(. Details: The opening and closing parentheses don't match.",
               parse_mf("C(").unwrap_err().msg);
    assert_eq!("Invalid Molecular Formula: (C)). Details: The opening and closing parentheses don't match.",
               parse_mf("(C))").unwrap_err().msg);
    assert_eq!("Invalid Molecular Formula: (C(OH)2(S(S))2P. Details: The opening and closing parentheses don't match.",
               parse_mf("(C(OH)2(S(S))2P").unwrap_err().msg);
}

#[test]
fn mf_parser_errs_if_symbol_is_not_known() {
    let err = parse_mf("A").err().unwrap();
    assert_eq!(Parsing, err.kind);
    assert_eq!("Invalid Molecular Formula: A. Details: Unknown chemical symbol: A", err.msg);

    let err = parse_mf("o").err().unwrap();
    assert_eq!(Parsing, err.kind);
    assert_eq!("Invalid Molecular Formula: o. Details: Unexpected symbol: 'o'", err.msg);
}

#[test]
fn mf_parser_errs_if_contains_special_symbols_outside_of_allowed_punctuation() {
    let err = parse_mf("=").err().unwrap();
    assert_eq!(Parsing, err.kind);

    let err = parse_mf("O=").unwrap_err();
    assert_eq!(Parsing, err.kind);

    let err = parse_mf("=C").unwrap_err();
    assert_eq!(Parsing, err.kind);
}

#[test]
fn same_atoms_format_identically() {
    assert_eq!(parse_mf("H2O").unwrap().to_string(), parse_mf("HOH").unwrap().to_string());
    assert_eq!(parse_mf("OH2").unwrap().to_string(), parse_mf("H(O)H").unwrap().to_string());
    assert_eq!(counts("C2H6"), counts("CH3CH3"));
}

#[test]
fn component_order_does_not_matter() {
    assert_eq!(counts("NH3.CH3"), counts("CH3.NH3"));
}

#[test]
fn leading_and_trailing_multipliers_scale_counts() {
    let doubled: Vec<u32> = counts("H2O").iter().map(|c| c * 2).collect();
    assert_eq!(doubled, counts("2H2O"));
    let doubled: Vec<u32> = counts("CH4CH4").iter().map(|c| c * 2).collect();
    assert_eq!(doubled, counts("(CH4CH4)2"));
}

#[test]
fn leading_multiplier_stops_at_dot() {
    let c = counts("5Cl.C");
    assert_eq!(5, c[8]);
    assert_eq!(1, c[1]);
    assert_eq!("CCl5", parse_mf("5Cl.C").unwrap().to_string());
}

#[test]
fn zero_multiplier_gives_no_atoms() {
    let c = parse_mf("0H2O").unwrap().counts;
    assert_eq!(c, [0u32; EARTH_ELEMENT_CNT]);
}

#[test]
fn nested_trailing_multipliers_compose() {
    let c = counts("(C(OH)2)2P");
    assert_eq!(4, c[0]);
    assert_eq!(2, c[1]);
    assert_eq!(4, c[2]);
    assert_eq!(1, c[4]);
    assert_eq!(11, c.iter().sum::<u32>());
}

#[test]
fn unmatched_parentheses_always_err() {
    for mf in [")(C", "((((C)))", "(((C))))", "C(((", "((H)2", "(C.(H)", "H)(", "(C)(O"] {
        let err = parse_mf(mf).unwrap_err();
        assert_eq!(Parsing, err.kind);
        assert_eq!(
            format!("Invalid Molecular Formula: {mf}. Details: The opening and closing parentheses don't match."),
            err.msg
        );
    }
    assert_eq!("H2C", parse_mf("((((C))))H2").unwrap().to_string());
}

#[test]
fn unknown_symbol_and_unexpected_character_messages() {
    let err = parse_mf("CNaq").unwrap_err();
    assert_eq!(Parsing, err.kind);
    assert_eq!("Invalid Molecular Formula: CNaq. Details: Unexpected symbol: 'q'", err.msg);
    let err = parse_mf("HXx2").unwrap_err();
    assert_eq!("Invalid Molecular Formula: HXx2. Details: Unknown chemical symbol: Xx", err.msg);
    let err = parse_mf("H2O=").unwrap_err();
    assert_eq!("Invalid Molecular Formula: H2O=. Details: Unexpected symbol: '='", err.msg);
    // the first unreadable position is reported, even before a parenthesis error
    let err = parse_mf("(A").unwrap_err();
    assert_eq!("Invalid Molecular Formula: (A. Details: Unknown chemical symbol: A", err.msg);
}

#[test]
fn whitespace_around_formula_is_ignored() {
    assert_eq!(counts("NaCl"), counts("   NaCl"));
    assert_eq!(counts("NaCl"), counts("NaCl \t\r\n"));
    assert_eq!("Empty Molecular Formula", parse_mf("\t \n").unwrap_err().msg);
    assert!(parse_mf("Na Cl").is_err());
}

#[test]
fn concrete_scenarios() {
    let c = counts("H2O");
    assert_eq!(2, c[0]);
    assert_eq!(1, c[2]);
    assert_eq!(3, c.iter().sum::<u32>());
    let c = counts("[(2H2O.NaCl)3S.N]2-");
    assert_eq!((12, 6, 1, 1, 3, 3), (c[0], c[2], c[3], c[6], c[8], c[9]));
    assert_eq!(26, c.iter().sum::<u32>());
}

#[test]
fn counts_saturate_at_the_largest_u32() {
    assert_eq!(u32::MAX, counts("H99999999999")[0]);
    assert_eq!(u32::MAX, counts("(H4000000000)2")[0]);
    assert_eq!(u32::MAX, counts("H4000000000H4000000000")[0]);
    assert_eq!(0, counts("((H4000000000)2)0")[0]);
    assert_eq!(4294967295, counts("H4294967295")[0]);
}

#[test]
fn parser_is_reusable() {
    let mut parser = MfParser::with_capacity(2);
    assert_eq!("H8C2", parser.parse_mf("CH4CH4").unwrap().to_string());
    assert!(parser.parse_mf("(C").is_err());
    assert_eq!("H2O", parser.parse_mf("H2O").unwrap().to_string());
    assert_eq!("H2O", parser.parse_mf_ascii(b" H2O ").unwrap().to_string());
    assert_eq!("H2O", parser.parse_mf_sanitized(b"H2O").unwrap().to_string());
    assert!(parser.parse_mf_sanitized(b" H2O").is_err());
    assert_eq!(parser.parse_mf_sanitized(b"").unwrap().counts, [0u32; EARTH_ELEMENT_CNT]);
    assert_eq!("Empty Molecular Formula", parser.parse_mf_ascii(b" ").unwrap_err().msg);
}

#[test]
fn multiplier_after_bracket_applies_forward() {
    assert_eq!("H3O2", parse_mf("H[2OH]").unwrap().to_string());
    assert_eq!("H2C13", parse_mf("C-2H-3C2").unwrap().to_string());
}

#[test]
fn components_add_up() {
    let sum: Vec<u32> = counts("C(OH)2")
        .iter()
        .zip(counts("2Na[H]"))
        .map(|(a, b)| a + b)
        .collect();
    assert_eq!(sum, counts("C(OH)2.2Na[H]"));
    assert_eq!(counts("C(OH)2.2Na[H]"), counts("2Na[H].C(OH)2"));
}

#[test]
fn leading_digit_multiplies_a_component() {
    let tripled: Vec<u32> = counts("C(OH)2(N.H)").iter().map(|c| c * 3).collect();
    assert_eq!(tripled, counts("3C(OH)2(N.H)"));
    assert_eq!(counts("0(NaCl)"), vec![0u32; EARTH_ELEMENT_CNT]);
}

#[test]
fn trailing_digit_multiplies_a_group() {
    let tripled: Vec<u32> = counts("2NaCl.H2O").iter().map(|c| c * 3).collect();
    assert_eq!(tripled, counts("(2NaCl.H2O)3"));
    assert_eq!("H2", parse_mf("((H)2)1").unwrap().to_string());
}

#[test]
fn multi_digit_and_absent_multipliers() {
    let scaled: Vec<u32> = counts("C(OH)2").iter().map(|c| c * 12).collect();
    assert_eq!(scaled, counts("12C(OH)2"));
    assert_eq!(scaled, counts("(C(OH)2)12"));
    assert_eq!(counts("C(OH)2"), counts("(C(OH)2)"));
    assert_eq!(counts("NaCl"), counts("01NaCl"));
}

#[test]
fn leading_number_stops_at_top_level_dot() {
    let expected: Vec<u32> = counts("NaCl")
        .iter()
        .zip(counts("H2O"))
        .map(|(a, b)| a * 25 + b)
        .collect();
    assert_eq!(expected, counts("25NaCl.H2O"));
}

#[test]
fn many_components_add_up() {
    let sum: Vec<u32> = (0..EARTH_ELEMENT_CNT)
        .map(|e| counts("NaCl")[e] + counts("3H2O")[e] + counts("(CO)2")[e])
        .collect();
    assert_eq!(sum, counts("NaCl.3H2O.(CO)2"));
    assert_eq!(sum, counts("(CO)2.NaCl.3H2O"));
}
