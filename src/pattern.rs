use vstd::prelude::*;

use crate::codec::{decode_nat, lemma_nat_run_end, quote_seq, read_nat};
use crate::dna::Dna;
use crate::executor::DnaExecutor;
use crate::rna::{rna_end, rna_window, Rna};
use crate::rope::Iter;

verus! {

/// A match instruction.
#[derive(Debug, PartialEq)]
pub enum Pattern {
    /// The next symbol must be this one.
    Base(Dna),
    /// Skip this many symbols.
    Skip(u64),
    /// Move past the first occurrence of these symbols.
    Search(Vec<Dna>),
    GroupOpen,
    GroupClose,
}

/// A match instruction as a value.
pub enum PatternTok {
    Base(Dna),
    Skip(u64),
    Search(Seq<Dna>),
    GroupOpen,
    GroupClose,
}

impl View for Pattern {
    type V = PatternTok;

    open spec fn view(&self) -> PatternTok {
        match self {
            Pattern::Base(d) => PatternTok::Base(*d),
            Pattern::Skip(n) => PatternTok::Skip(*n),
            Pattern::Search(v) => PatternTok::Search(v@),
            Pattern::GroupOpen => PatternTok::GroupOpen,
            Pattern::GroupClose => PatternTok::GroupClose,
        }
    }
}

/// The values of a list of match instructions.
pub open spec fn pattern_view(ps: Seq<Pattern>) -> Seq<PatternTok> {
    ps.map_values(|p: Pattern| p@)
}

/// Reads a literal at `i`: `C`, `F`, `P` stand for `I`, `C`, `F` and `IC` for
/// `P`. It ends before the first symbol that starts no such form (an `I` not
/// followed by `C`); `acc` holds what was read so far. Gives the symbols and
/// the offset where reading stopped.
pub open spec fn consts_run(s: Seq<Dna>, i: int, acc: Seq<Dna>) -> (Seq<Dna>, int)
    decreases s.len() - i,
{
    if i < 0 || i >= s.len() {
        (acc, i)
    } else if s[i] == Dna::C {
        consts_run(s, i + 1, acc.push(Dna::I))
    } else if s[i] == Dna::F {
        consts_run(s, i + 1, acc.push(Dna::C))
    } else if s[i] == Dna::P {
        consts_run(s, i + 1, acc.push(Dna::F))
    } else if i + 1 < s.len() && s[i + 1] == Dna::C {
        consts_run(s, i + 2, acc.push(Dna::P))
    } else {
        (acc, i)
    }
}

/// Decodes a pattern at `i`, at group depth `lvl`, with the instructions `acc`
/// and the render codes `rnas` met so far. Gives the instructions and the
/// offset past the pattern, or none where the text is malformed, together
/// with the render codes met on the way. (The tests on `e` always hold: each
/// token reads at least one symbol and stops within the text.)
pub open spec fn pattern_run(
    s: Seq<Dna>,
    i: int,
    lvl: nat,
    acc: Seq<PatternTok>,
    rnas: Seq<Seq<Dna>>,
) -> (Option<(Seq<PatternTok>, int)>, Seq<Seq<Dna>>)
    decreases s.len() - i,
{
    if i < 0 || i >= s.len() {
        (None, rnas)
    } else if s[i] == Dna::C {
        pattern_run(s, i + 1, lvl, acc.push(PatternTok::Base(Dna::I)), rnas)
    } else if s[i] == Dna::F {
        pattern_run(s, i + 1, lvl, acc.push(PatternTok::Base(Dna::C)), rnas)
    } else if s[i] == Dna::P {
        pattern_run(s, i + 1, lvl, acc.push(PatternTok::Base(Dna::F)), rnas)
    } else if i + 1 >= s.len() {
        (None, rnas)
    } else if s[i + 1] == Dna::C {
        pattern_run(s, i + 2, lvl, acc.push(PatternTok::Base(Dna::P)), rnas)
    } else if s[i + 1] == Dna::P {
        match decode_nat(s, i + 2) {
            Some((n, e)) => if i < e <= s.len() {
                pattern_run(s, e, lvl, acc.push(PatternTok::Skip(n)), rnas)
            } else {
                (None, rnas)
            },
            None => (None, rnas),
        }
    } else if s[i + 1] == Dna::F {
        let d = if i + 3 <= s.len() { i + 3 } else { s.len() as int };
        let (c, e) = consts_run(s, d, Seq::empty());
        if i < e <= s.len() {
            pattern_run(s, e, lvl, acc.push(PatternTok::Search(c)), rnas)
        } else {
            (None, rnas)
        }
    } else if i + 2 >= s.len() {
        (None, rnas)
    } else if s[i + 2] == Dna::P {
        pattern_run(s, i + 3, lvl + 1, acc.push(PatternTok::GroupOpen), rnas)
    } else if s[i + 2] == Dna::I {
        pattern_run(s, rna_end(s, i + 3), lvl, acc, rnas.push(rna_window(s, i + 3)))
    } else if lvl == 0 {
        (Some((acc, i + 3)), rnas)
    } else {
        pattern_run(s, i + 3, (lvl - 1) as nat, acc.push(PatternTok::GroupClose), rnas)
    }
}

proof fn lemma_consts_run_end(s: Seq<Dna>, i: int, acc: Seq<Dna>)
    ensures
        consts_run(s, i, acc).1 >= i,
    decreases s.len() - i,
{
    if 0 <= i < s.len() {
        if s[i] != Dna::I {
            lemma_consts_run_end(s, i + 1, acc.push(if s[i] == Dna::C { Dna::I } else if s[i]
                == Dna::F { Dna::C } else { Dna::F }));
        } else if i + 1 < s.len() && s[i + 1] == Dna::C {
            lemma_consts_run_end(s, i + 2, acc.push(Dna::P));
        }
    }
}

proof fn lemma_consts_quote(d: Seq<Dna>, rest: Seq<Dna>, acc: Seq<Dna>)
    requires
        rest.len() == 0 || (rest[0] == Dna::I && (rest.len() == 1 || rest[1] != Dna::C)),
    ensures
        consts_run(quote_seq(d) + rest, 0, acc) == (acc + d, quote_seq(d).len() as int),
    decreases d.len(),
{
    if d.len() == 0 {
        assert(quote_seq(d) + rest =~= rest);
        assert(acc + d =~= acc);
    } else {
        let x = d.first();
        let q = crate::codec::quote_sym(x);
        let t = d.drop_first();
        lemma_quote_seq_first(d);
        lemma_consts_quote(t, rest, acc.push(x));
        let s = quote_seq(d) + rest;
        assert(s =~= q + (quote_seq(t) + rest));
        assert(acc.push(x) + t =~= acc + d);
        lemma_consts_run_shift(q, quote_seq(t) + rest, acc, x);
    }
}

proof fn lemma_quote_seq_first(d: Seq<Dna>)
    requires
        d.len() > 0,
    ensures
        quote_seq(d) == crate::codec::quote_sym(d.first()) + quote_seq(d.drop_first()),
    decreases d.len(),
{
    if d.len() == 1 {
        assert(d.drop_last() =~= Seq::<Dna>::empty());
        assert(d.drop_first() =~= Seq::<Dna>::empty());
        assert(quote_seq(d) =~= crate::codec::quote_sym(d.first()) + quote_seq(d.drop_first()));
    } else {
        lemma_quote_seq_first(d.drop_last());
        assert(d.drop_last().drop_first() =~= d.drop_first().drop_last());
        assert(d.drop_first().last() == d.last());
        assert(quote_seq(d) =~= crate::codec::quote_sym(d.first()) + quote_seq(d.drop_first()));
    }
}

/// Reading the quotation `q` of one symbol `x` at the start of `q + t`
/// yields `x` and continues on `t`.
proof fn lemma_consts_run_shift(q: Seq<Dna>, t: Seq<Dna>, acc: Seq<Dna>, x: Dna)
    requires
        q == crate::codec::quote_sym(x),
        consts_run(t, 0, acc.push(x)).1 >= 0,
    ensures
        consts_run(q + t, 0, acc) == ((consts_run(t, 0, acc.push(x))).0, consts_run(t, 0, acc.push(x)).1
            + q.len()),
{
    lemma_consts_run_offset(q + t, q.len() as int, acc.push(x));
    assert((q + t).skip(q.len() as int) =~= t);
}

/// Reading from offset `k` of `s` is reading `s.skip(k)` from its start.
proof fn lemma_consts_run_offset(s: Seq<Dna>, k: int, acc: Seq<Dna>)
    requires
        0 <= k <= s.len(),
    ensures
        consts_run(s, k, acc) == ((consts_run(s.skip(k), 0, acc)).0, consts_run(s.skip(k), 0, acc).1 + k),
    decreases s.len() - k,
{
    let t = s.skip(k);
    if k < s.len() {
        assert(t[0] == s[k]);
        if s[k] != Dna::I {
            let y = if s[k] == Dna::C { Dna::I } else if s[k] == Dna::F { Dna::C } else { Dna::F };
            lemma_consts_run_offset(s, k + 1, acc.push(y));
            lemma_consts_run_offset(t, 1, acc.push(y));
            assert(t.skip(1) =~= s.skip(k + 1));
        } else if k + 1 < s.len() && s[k + 1] == Dna::C {
            assert(t[1] == s[k + 1]);
            lemma_consts_run_offset(s, k + 2, acc.push(Dna::P));
            lemma_consts_run_offset(t, 2, acc.push(Dna::P));
            assert(t.skip(2) =~= s.skip(k + 2));
        } else {
            if k + 1 < s.len() {
                assert(t[1] == s[k + 1]);
            }
        }
    }
}

/// Reading a literal inverts quotation: the quotation of `d`, followed by the
/// end of the text or by an `I` that no `C` follows, reads back as `d` and
/// stops right after the quotation.
pub proof fn lemma_quote_inverse(d: Seq<Dna>, rest: Seq<Dna>)
    requires
        rest.len() == 0 || (rest[0] == Dna::I && (rest.len() == 1 || rest[1] != Dna::C)),
    ensures
        consts_run(quote_seq(d) + rest, 0, Seq::empty()) == (d, quote_seq(d).len() as int),
{
    lemma_consts_quote(d, rest, Seq::empty());
    assert(Seq::<Dna>::empty() + d =~= d);
}

/// Reads a literal at the cursor (see `consts_run`) and leaves the cursor
/// where reading stopped.
pub fn consts(iter: &mut Iter) -> (r: Vec<Dna>)
    requires
        old(iter).wf(),
    ensures
        final(iter).wf(),
        final(iter).rope() == old(iter).rope(),
        (r@, final(iter).spec_pos()) == consts_run(old(iter).seq(), old(iter).spec_pos(), Seq::empty()),
{
    let ghost s = iter.seq();
    let ghost target = consts_run(s, iter.spec_pos(), Seq::empty());
    let mut c: Vec<Dna> = Vec::new();
    proof {
        iter.lemma_wf();
    }
    loop
        invariant
            iter.wf(),
            iter.rope() == old(iter).rope(),
            s == iter.seq(),
            0 <= iter.spec_pos() <= s.len(),
            target == consts_run(s, iter.spec_pos(), c@),
            target == consts_run(old(iter).seq(), old(iter).spec_pos(), Seq::empty()),
        decreases s.len() - iter.spec_pos(),
    {
        proof {
            iter.lemma_wf();
        }
        match iter.next() {
            Some(Dna::C) => c.push(Dna::I),
            Some(Dna::F) => c.push(Dna::C),
            Some(Dna::P) => c.push(Dna::F),
            Some(Dna::I) => {
                match iter.next() {
                    Some(Dna::C) => c.push(Dna::P),
                    Some(_) => {
                        iter.step_back();
                        iter.step_back();
                        return c;
                    },
                    None => {
                        iter.step_back();
                        return c;
                    },
                }
            },
            None => {
                return c;
            },
        }
    }
}

/// Decodes a pattern at the cursor (see `pattern_run`). Render instructions met
/// on the way are added to `executor`.
pub fn execute(executor: &mut DnaExecutor, iter: &mut Iter) -> (r: Option<Vec<Pattern>>)
    requires
        old(executor).wf(),
        old(iter).wf(),
    ensures
        final(executor).wf(),
        final(executor).dna_view() == old(executor).dna_view(),
        final(executor).is_halted() == old(executor).is_halted(),
        final(executor).loops() == old(executor).loops(),
        final(iter).wf(),
        final(iter).rope() == old(iter).rope(),
        ({
            let res = pattern_run(
                old(iter).seq(),
                old(iter).spec_pos(),
                0,
                Seq::empty(),
                old(executor).rna_codes(),
            );
            &&& final(executor).rna_codes() == res.1
            &&& match res.0 {
                Some((toks, e)) => r is Some && pattern_view(r->0@) == toks && final(iter).spec_pos() == e,
                None => r is None,
            }
        }),
{
    let ghost s = iter.seq();
    let ghost target = pattern_run(s, iter.spec_pos(), 0, Seq::empty(), executor.rna_codes());
    let mut pattern: Vec<Pattern> = Vec::new();
    let mut lvl: usize = 0;
    proof {
        iter.lemma_wf();
        assert(pattern_view(pattern@) =~= Seq::<PatternTok>::empty());
    }
    loop
        invariant
            executor.wf(),
            executor.dna_view() == old(executor).dna_view(),
            executor.is_halted() == old(executor).is_halted(),
            executor.loops() == old(executor).loops(),
            iter.wf(),
            iter.rope() == old(iter).rope(),
            s == iter.seq(),
            0 <= iter.spec_pos() <= s.len(),
            lvl <= iter.spec_pos(),
            target == pattern_run(s, iter.spec_pos(), lvl as nat, pattern_view(pattern@), executor.rna_codes()),
            target == pattern_run(s, old(iter).spec_pos(), 0, Seq::empty(), old(executor).rna_codes()),
        decreases s.len() - iter.spec_pos(),
    {
        let ghost i = iter.spec_pos();
        let ghost before = pattern@;
        proof {
            iter.lemma_wf();
        }
        match iter.next() {
            Some(Dna::C) => {
                pattern.push(Pattern::Base(Dna::I));
            },
            Some(Dna::F) => {
                pattern.push(Pattern::Base(Dna::C));
            },
            Some(Dna::P) => {
                pattern.push(Pattern::Base(Dna::F));
            },
            Some(Dna::I) => {
                match iter.next() {
                    Some(Dna::C) => {
                        pattern.push(Pattern::Base(Dna::P));
                    },
                    Some(Dna::P) => {
                        proof {
                            lemma_nat_run_end(s, i + 2, 0, 0);
                        }
                        match read_nat(iter) {
                            Some(n) => {
                                pattern.push(Pattern::Skip(n));
                            },
                            None => {
                                return None;
                            },
                        }
                    },
                    Some(Dna::F) => {
                        iter.next();
                        proof {
                            lemma_consts_run_end(s, iter.spec_pos(), Seq::empty());
                        }
                        let c = consts(iter);
                        pattern.push(Pattern::Search(c));
                    },
                    Some(Dna::I) => {
                        match iter.next() {
                            Some(Dna::P) => {
                                lvl = lvl + 1;
                                pattern.push(Pattern::GroupOpen);
                            },
                            Some(Dna::I) => {
                                let rna = Rna::from_dna_iter(iter);
                                executor.add_rna(rna, Ghost(rna_window(s, i + 3)));
                            },
                            Some(_) => {
                                if lvl == 0 {
                                    return Some(pattern);
                                }
                                lvl = lvl - 1;
                                pattern.push(Pattern::GroupClose);
                            },
                            None => {
                                return None;
                            },
                        }
                    },
                    None => {
                        return None;
                    },
                }
            },
            None => {
                return None;
            },
        }
        proof {
            iter.lemma_wf();
            if pattern@.len() == before.len() + 1 {
                assert(pattern@.drop_last() == before);
                assert(pattern_view(pattern@) =~= pattern_view(before).push(pattern@.last()@));
            } else {
                assert(pattern@ == before);
            }
        }
    }
}

} // verus!
