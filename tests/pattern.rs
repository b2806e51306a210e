use endo::codec::read_nat;
use endo::dna::read_dna;
use endo::dna::Dna::{self, C, F, I, P};
use endo::pattern::{self, consts, Pattern};
use endo::rope::DnaRope;
use endo::template::{self, Template};
use endo::DnaExecutor;

fn pattern_run(dna: &str) -> Option<Vec<Pattern>> {
    let mut dna_executor = DnaExecutor::from("");
    let rope = DnaRope::from(read_dna(dna));
    let mut iter = rope.iter();
    pattern::execute(&mut dna_executor, &mut iter)
}

fn pattern_nat(dna: &str) -> Option<u64> {
    let rope = DnaRope::from(read_dna(dna));
    let mut iter = rope.iter();
    read_nat(&mut iter)
}

fn pattern_consts(dna: &str) -> Vec<Dna> {
    let rope = DnaRope::from(read_dna(dna));
    let mut iter = rope.iter();
    consts(&mut iter)
}

#[test]
fn case_pattern_nat() {
    assert_eq!(pattern_nat("CCICP"), Some(11));
    assert_eq!(pattern_nat("CFFFFFFFIIIIIIIIIIIP"), Some(1));
    assert_eq!(pattern_nat("IIIIICIICCIIIIIIIIIIIIIIP"), Some(32 + 256 + 512));
}

#[test]
fn case_pattern_consts() {
    assert_eq!(pattern_consts("ICFPC"), vec![P, C, F, I]);
    assert_eq!(pattern_consts("PCIIF"), vec![F, I]);
}

#[test]
fn case_pattern_run() {
    assert_eq!(pattern_run("CIIC"), Some(vec![Pattern::Base(I)]));
    assert_eq!(
        pattern_run("IIPIPICPIICICIIF"),
        Some(vec![Pattern::GroupOpen, Pattern::Skip(2), Pattern::GroupClose, Pattern::Base(P)])
    );
}

#[test]
fn case_pattern_selfcheck_start_prefix() {
    assert_eq!(
        pattern_run("IIPIFFCPICICIICPIICIPPPICIIC"),
        Some(vec![Pattern::GroupOpen, Pattern::Search(vec![I, F, P, P]), Pattern::GroupClose, Pattern::Base(F)])
    )
}

#[test]
fn nat_missing_terminator_fails() {
    assert_eq!(pattern_nat("CCIC"), None);
    assert_eq!(pattern_nat("P"), Some(0));
}

#[test]
fn nat_saturates_from_bit_sixty_four() {
    let below = "I".repeat(63) + "CP";
    assert_eq!(pattern_nat(&below), Some(1u64 << 63));
    let at = "I".repeat(64) + "CP";
    assert_eq!(pattern_nat(&at), Some(u64::MAX));
}

#[test]
fn consts_at_end_after_lone_i() {
    let rope = DnaRope::from(read_dna("CI"));
    let mut iter = rope.iter();
    assert_eq!(consts(&mut iter), vec![I]);
    assert_eq!(iter.pos(), 1);
}

#[test]
fn unbalanced_or_truncated_pattern_fails() {
    assert_eq!(pattern_run("IIPCC"), None);
    assert_eq!(pattern_run("I"), None);
    assert_eq!(pattern_run(""), None);
}

#[test]
fn template_decodes_all_forms() {
    let mut ex = DnaExecutor::from("");
    let rope = DnaRope::from(read_dna("CFPICIFCPCPIIPCPIIC"));
    let mut iter = rope.iter();
    let t = template::execute(&mut ex, &mut iter);
    assert_eq!(
        t,
        Some(vec![
            Template::Base(I),
            Template::Base(C),
            Template::Base(F),
            Template::Base(P),
            Template::NumberLevel(1, 1),
            Template::Length(1),
        ])
    );
    assert_eq!(iter.pos(), 19);
}
