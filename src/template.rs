use vstd::prelude::*;

use crate::codec::{decode_nat, lemma_nat_run_end, read_nat};
use crate::dna::Dna;
use crate::executor::DnaExecutor;
use crate::rna::{rna_end, rna_window, Rna};
use crate::rope::Iter;

verus! {

/// A replacement instruction.
#[derive(Clone, Copy, Debug, PartialEq, Eq, Structural)]
pub enum Template {
    /// This symbol.
    Base(Dna),
    /// Group `n` (first field), quoted `l` times (second field).
    NumberLevel(u64, u64),
    /// The encoded length of group `n`.
    Length(u64),
}

/// Decodes a template at `i`, with the instructions `acc` and the render codes
/// `rnas` met so far. Gives the instructions and the offset past the template,
/// or none where the text is malformed, together with the render codes met on
/// the way. (The tests on offsets always hold: each token reads at least one
/// symbol and stops within the text.)
pub open spec fn template_run(s: Seq<Dna>, i: int, acc: Seq<Template>, rnas: Seq<Seq<Dna>>) -> (
    Option<(Seq<Template>, int)>,
    Seq<Seq<Dna>>,
)
    decreases s.len() - i,
{
    if i < 0 || i >= s.len() {
        (None, rnas)
    } else if s[i] == Dna::C {
        template_run(s, i + 1, acc.push(Template::Base(Dna::I)), rnas)
    } else if s[i] == Dna::F {
        template_run(s, i + 1, acc.push(Template::Base(Dna::C)), rnas)
    } else if s[i] == Dna::P {
        template_run(s, i + 1, acc.push(Template::Base(Dna::F)), rnas)
    } else if i + 1 >= s.len() {
        (None, rnas)
    } else if s[i + 1] == Dna::C {
        template_run(s, i + 2, acc.push(Template::Base(Dna::P)), rnas)
    } else if s[i + 1] == Dna::F || s[i + 1] == Dna::P {
        match decode_nat(s, i + 2) {
            Some((l, e1)) => match decode_nat(s, e1) {
                Some((n, e)) => if i < e <= s.len() {
                    template_run(s, e, acc.push(Template::NumberLevel(n, l)), rnas)
                } else {
                    (None, rnas)
                },
                None => (None, rnas),
            },
            None => (None, rnas),
        }
    } else if i + 2 >= s.len() {
        (None, rnas)
    } else if s[i + 2] == Dna::C || s[i + 2] == Dna::F {
        (Some((acc, i + 3)), rnas)
    } else if s[i + 2] == Dna::P {
        match decode_nat(s, i + 3) {
            Some((n, e)) => if i < e <= s.len() {
                template_run(s, e, acc.push(Template::Length(n)), rnas)
            } else {
                (None, rnas)
            },
            None => (None, rnas),
        }
    } else {
        template_run(s, rna_end(s, i + 3), acc, rnas.push(rna_window(s, i + 3)))
    }
}

/// Decodes a template at the cursor (see `template_run`). Render instructions
/// met on the way are added to `executor`.
pub fn execute(executor: &mut DnaExecutor, iter: &mut Iter) -> (r: Option<Vec<Template>>)
    requires
        old(executor).wf(),
        old(iter).wf(),
    ensures
        final(executor).wf(),
        final(executor).dna_view() == old(executor).dna_view(),
        final(executor).is_halted() == old(executor).is_halted(),
        final(executor).loops() == old(executor).loops(),
        final(iter).wf(),
        final(iter).rope() == old(iter).rope(),
        ({
            let res = template_run(
                old(iter).seq(),
                old(iter).spec_pos(),
                Seq::empty(),
                old(executor).rna_codes(),
            );
            &&& final(executor).rna_codes() == res.1
            &&& match res.0 {
                Some((toks, e)) => r is Some && r->0@ == toks && final(iter).spec_pos() == e,
                None => r is None,
            }
        }),
{
    let ghost s = iter.seq();
    let ghost target = template_run(s, iter.spec_pos(), Seq::empty(), executor.rna_codes());
    let mut template: Vec<Template> = Vec::new();
    proof {
        iter.lemma_wf();
    }
    loop
        invariant
            executor.wf(),
            executor.dna_view() == old(executor).dna_view(),
            executor.is_halted() == old(executor).is_halted(),
            executor.loops() == old(executor).loops(),
            iter.wf(),
            iter.rope() == old(iter).rope(),
            s == iter.seq(),
            0 <= iter.spec_pos() <= s.len(),
            target == template_run(s, iter.spec_pos(), template@, executor.rna_codes()),
            target == template_run(s, old(iter).spec_pos(), Seq::empty(), old(executor).rna_codes()),
        decreases s.len() - iter.spec_pos(),
    {
        let ghost i = iter.spec_pos();
        proof {
            iter.lemma_wf();
        }
        match iter.next() {
            Some(Dna::C) => {
                template.push(Template::Base(Dna::I));
            },
            Some(Dna::F) => {
                template.push(Template::Base(Dna::C));
            },
            Some(Dna::P) => {
                template.push(Template::Base(Dna::F));
            },
            Some(Dna::I) => {
                match iter.next() {
                    Some(Dna::C) => {
                        template.push(Template::Base(Dna::P));
                    },
                    Some(Dna::I) => {
                        match iter.next() {
                            Some(Dna::C) | Some(Dna::F) => {
                                return Some(template);
                            },
                            Some(Dna::P) => {
                                proof {
                                    lemma_nat_run_end(s, i + 3, 0, 0);
                                }
                                match read_nat(iter) {
                                    Some(n) => {
                                        template.push(Template::Length(n));
                                    },
                                    None => {
                                        return None;
                                    },
                                }
                            },
                            Some(Dna::I) => {
                                let rna = Rna::from_dna_iter(iter);
                                executor.add_rna(rna, Ghost(rna_window(s, i + 3)));
                            },
                            None => {
                                return None;
                            },
                        }
                    },
                    Some(_) => {
                        proof {
                            lemma_nat_run_end(s, i + 2, 0, 0);
                        }
                        match read_nat(iter) {
                            Some(l) => {
                                proof {
                                    lemma_nat_run_end(s, iter.spec_pos(), 0, 0);
                                }
                                match read_nat(iter) {
                                    Some(n) => {
                                        template.push(Template::NumberLevel(n, l));
                                    },
                                    None => {
                                        return None;
                                    },
                                }
                            },
                            None => {
                                return None;
                            },
                        }
                    },
                    None => {
                        return None;
                    },
                }
            },
            None => {
                return None;
            },
        }
        proof {
            iter.lemma_wf();
        }
    }
}

} // verus!
