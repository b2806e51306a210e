use endo::codec::{asnat, protect, quote, read_nat};
use endo::dna::read_dna;
use endo::rope::DnaRope;

#[test]
fn asnat_encodes_lsb_first() {
    assert_eq!(asnat(0), read_dna("P"));
    assert_eq!(asnat(11), read_dna("CCICP"));
    assert_eq!(asnat(4), read_dna("IICP"));
}

#[test]
fn encode_then_decode_round_trips() {
    for n in [0u64, 1, 2, 3, 7, 8, 1000, 123456789, u64::MAX - 1, u64::MAX] {
        let rope = DnaRope::from(asnat(n));
        let mut iter = rope.iter();
        assert_eq!(read_nat(&mut iter), Some(n));
        assert_eq!(iter.pos(), rope.len());
    }
}

#[test]
fn quote_maps_each_symbol() {
    assert_eq!(quote(read_dna("ICFP")), read_dna("CFPIC"));
    assert_eq!(quote(Vec::new()), Vec::new());
}

#[test]
fn protect_applies_quote_repeatedly() {
    assert_eq!(protect(0, &read_dna("ICFP")), read_dna("ICFP"));
    assert_eq!(protect(2, &read_dna("P")), read_dna("CF"));
    assert_eq!(protect(3, &read_dna("I")), read_dna("P"));
    assert_eq!(protect(4, &read_dna("I")), read_dna("IC"));
}

#[test]
fn quote_then_consts_recovers() {
    let d = read_dna("PPICFFIC");
    let rope = DnaRope::from(quote(d.clone()));
    let mut iter = rope.iter();
    assert_eq!(endo::pattern::consts(&mut iter), d);
}
