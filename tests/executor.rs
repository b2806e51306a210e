use endo::dna::read_dna;
use endo::dna::Dna::{C, F, I, P};
use endo::rna::{Rna, RnaAlpha, RnaColor};
use endo::rope::DnaRope;
use endo::DnaExecutor;

fn check_e2e(source: &str, result: &str) {
    let mut dna_executor = DnaExecutor::from(source);
    dna_executor.execute_loops(1);
    let dna_remaining = dna_executor.dna().as_vec();
    assert_eq!(dna_remaining, read_dna(result));
}

#[test]
fn case_read_dna() {
    assert_eq!(read_dna("ICFPC"), vec![I, C, F, P, C]);
}

#[test]
fn case_e2e_01() {
    check_e2e("IIPIPICPIICICIIFICCIFPPIICCFPC", "PICFC");
}

#[test]
fn case_e2e_02() {
    check_e2e("IIPIPICPIICICIIFICCIFCCCPPIICCFPC", "PIICCFCFFPC");
}

#[test]
fn case_e2e_03() {
    check_e2e("IIPIPIICPIICIICCIICFCFC", "I");
}

#[test]
fn parse_reports_character_and_position() {
    assert!(DnaExecutor::try_from_text("ICFP").is_ok());
    match DnaExecutor::try_from_text("ICXP") {
        Err(endo::dna::ParseError::UnknownSymbol(c, p)) => {
            assert_eq!(c, 'X');
            assert_eq!(p, 2);
        }
        _ => panic!("expected an error"),
    }
}

#[test]
fn malformed_pattern_halts_and_keeps_sequence() {
    let mut ex = DnaExecutor::from("IIPI");
    assert!(ex.execute_loops(5));
    assert!(ex.finished());
    assert_eq!(ex.dna().as_vec(), read_dna("IIPI"));
}

#[test]
fn failed_match_halts_with_rest() {
    // pattern "I" (written C), template empty; the rest "F" does not start with I
    let mut ex = DnaExecutor::from("CIICIICF");
    assert!(ex.execute_loops(3));
    assert_eq!(ex.dna().as_vec(), read_dna("F"));
}

#[test]
fn bounded_runs_agree_with_full_run() {
    let source = "IIIPIPIIICIIPIPIICPIICIICCIICFCFC";
    let mut whole = DnaExecutor::from(source);
    let rna_whole: Vec<Rna> = whole.execute().to_vec();
    let mut parts = DnaExecutor::from(source);
    let mut rounds = 0;
    while !parts.execute_loops(1) {
        rounds += 1;
        assert!(rounds < 100);
    }
    assert_eq!(parts.rna().to_vec(), rna_whole);
    assert_eq!(parts.dna().as_vec(), whole.dna().as_vec());
    assert_eq!(parts.execute_loops(0), true);
}

#[test]
fn render_escape_in_pattern_is_emitted() {
    // III + PIPIIIC (black) inside the pattern, then "I" as pattern, empty template
    let mut ex = DnaExecutor::from("IIIPIPIIICCIICIICI");
    ex.execute_loops(1);
    assert_eq!(ex.rna().to_vec(), vec![Rna::AddColor(RnaColor::Black)]);
    assert_eq!(ex.dna().as_vec(), Vec::new());
}

#[test]
fn empty_group_contributes_nothing() {
    // pattern: ( ) I ; template: group 0 at level 0, then length of group 0, then F
    // "IIP" "IIC" "C" "IIC" | "IF" "P" "P" "IIP" "P" "P" "IIC"
    let mut ex = DnaExecutor::from("IIPIICCIICIFPPIIPPPIICIC");
    ex.execute_loops(1);
    assert!(!ex.finished());
    assert_eq!(ex.dna().as_vec(), read_dna("PFC"));
}

#[test]
fn rna_codes_decode_by_table() {
    let cases = [
        ("PIPIIIC", Rna::AddColor(RnaColor::Black)),
        ("PIPIIIP", Rna::AddColor(RnaColor::Red)),
        ("PIPIIPP", Rna::AddAlpha(RnaAlpha::Opaque)),
        ("PIIPICP", Rna::EmptyBucket),
        ("PFFICCF", Rna::Clip),
        ("PCCPFFP", Rna::AddBitmap),
    ];
    for (code, expected) in cases {
        let rope = DnaRope::from(read_dna(code));
        let mut iter = rope.iter();
        assert_eq!(Rna::from_dna_iter(&mut iter), expected);
        assert_eq!(iter.pos(), 7);
    }
    let rope = DnaRope::from(read_dna("CCCCCCCC"));
    let mut iter = rope.iter();
    assert_eq!(Rna::from_dna_iter(&mut iter), Rna::Unknown(read_dna("CCCCCCC")));
    let rope = DnaRope::from(read_dna("PIP"));
    let mut iter = rope.iter();
    assert_eq!(Rna::from_dna_iter(&mut iter), Rna::Unknown(read_dna("PIP")));
    assert_eq!(iter.pos(), 3);
    let rope = DnaRope::from(Vec::new());
    let mut iter = rope.iter();
    assert_eq!(Rna::from_dna_iter(&mut iter), Rna::Unknown(vec![]));
}
