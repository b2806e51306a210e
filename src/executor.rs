use vstd::prelude::*;

use crate::dna::{dna_of_text, is_dna_text, parse_dna, Dna, ParseError};
use crate::matchreplace::{self, rewrite};
use crate::pattern::{self, pattern_run};
use crate::rna::{rna_decoded, rna_list, Rna};
use crate::rope::DnaRope;
use crate::template::{self, template_run};

verus! {

/// Cycles between two merges of the sequence's chunks into one.
pub const DEFRAGMENT_PERIOD: usize = 60000;

/// What a run has reached: the sequence, whether it halted, and the codes of
/// the render instructions emitted.
pub struct RunState {
    pub seq: Seq<Dna>,
    pub halted: bool,
    pub codes: Seq<Seq<Dna>>,
}

/// One rewrite cycle. A halted run stays as it is. Otherwise a pattern and a
/// template are decoded from the start of the sequence; where either is
/// malformed the run halts with the sequence as it was. Otherwise the pattern
/// is matched against what follows the template; where it does not match the
/// run halts with that rest. Otherwise the rest, rewritten, becomes the
/// sequence (the run halts with an empty sequence where the result would be
/// longer than a rope can hold).
pub open spec fn cycle(st: RunState) -> RunState {
    if st.halted {
        st
    } else {
        let s = st.seq;
        let (pr, codes1) = pattern_run(s, 0, 0, Seq::empty(), st.codes);
        match pr {
            None => RunState { seq: s, halted: true, codes: codes1 },
            Some((ps, i)) => {
                let (tr, codes2) = template_run(s, i, Seq::empty(), codes1);
                match tr {
                    None => RunState { seq: s, halted: true, codes: codes2 },
                    Some((ts, j)) => {
                        let rest = s.skip(j);
                        match rewrite(rest, ps, ts) {
                            Some(x) => if x.len() <= usize::MAX {
                                RunState { seq: x, halted: false, codes: codes2 }
                            } else {
                                RunState { seq: Seq::empty(), halted: true, codes: codes2 }
                            },
                            None => RunState { seq: rest, halted: true, codes: codes2 },
                        }
                    },
                }
            },
        }
    }
}

/// The state after `n` cycles.
pub open spec fn steps(st: RunState, n: nat) -> RunState
    decreases n,
{
    if n == 0 {
        st
    } else {
        steps(cycle(st), (n - 1) as nat)
    }
}

/// Running `n` cycles and then `m` more is running `n + m` cycles.
pub proof fn lemma_steps_add(st: RunState, n: nat, m: nat)
    ensures
        steps(steps(st, n), m) == steps(st, n + m),
    decreases n,
{
    if n > 0 {
        lemma_steps_add(cycle(st), (n - 1) as nat, m);
        assert((n + m - 1) as nat == (n - 1) as nat + m);
    }
}

/// A halted run no longer changes.
pub proof fn lemma_halted_stays(st: RunState, n: nat)
    requires
        st.halted,
    ensures
        steps(st, n) == st,
    decreases n,
{
    if n > 0 {
        lemma_halted_stays(st, (n - 1) as nat);
    }
}

/// Runs in bounded bursts: where `n` cycles and then `m` more end halted,
/// the result is that of any longer run in one go, the run to completion
/// included.
pub proof fn lemma_bounded_runs(st: RunState, n: nat, m: nat, total: nat)
    requires
        steps(steps(st, n), m).halted,
        total >= n + m,
    ensures
        steps(steps(st, n), m) == steps(st, total),
{
    lemma_steps_add(st, n, m);
    lemma_steps_add(st, n + m, (total - (n + m)) as nat);
    lemma_halted_stays(steps(st, n + m), (total - (n + m)) as nat);
    assert(n + m + (total - (n + m)) as nat == total);
}

/// Runs the rewrite cycles on a symbol sequence and collects the render
/// instructions they emit.
pub struct DnaExecutor {
    dna: DnaRope,
    rna: Vec<Rna>,
    loops_count: usize,
    halted: bool,
    codes: Ghost<Seq<Seq<Dna>>>,
}

impl DnaExecutor {
    pub closed spec fn wf(&self) -> bool {
        &&& self.dna.wf()
        &&& rna_list(self.rna@, self.codes@)
    }

    /// The sequence, the halt flag and the emitted codes.
    pub closed spec fn state(&self) -> RunState {
        RunState { seq: self.dna@, halted: self.halted, codes: self.codes@ }
    }

    /// The render instructions emitted are those their codes name, one for
    /// one.
    pub proof fn lemma_rna_codes(&self)
        requires
            self.wf(),
        ensures
            rna_list(self.rna_view(), self.rna_codes()),
    {
    }

    /// The current sequence.
    pub closed spec fn dna_view(&self) -> Seq<Dna> {
        self.dna@
    }

    /// The codes of the render instructions emitted so far.
    pub closed spec fn rna_codes(&self) -> Seq<Seq<Dna>> {
        self.codes@
    }

    /// The render instructions emitted so far.
    pub closed spec fn rna_view(&self) -> Seq<Rna> {
        self.rna@
    }

    /// No further cycle can run.
    pub closed spec fn is_halted(&self) -> bool {
        self.halted
    }

    /// Cycles run so far.
    pub closed spec fn loops(&self) -> usize {
        self.loops_count
    }

    /// An executor on the symbols of `value`, which holds only `I`, `C`, `F`
    /// and `P`.
    pub fn from(value: &str) -> (r: DnaExecutor)
        requires
            is_dna_text(value@),
        ensures
            r.wf(),
            r.state() == (RunState { seq: dna_of_text(value@), halted: false, codes: Seq::empty() }),
            r.rna_view().len() == 0,
    {
        match DnaExecutor::try_from_text(value) {
            Ok(x) => x,
            Err(_) => DnaExecutor::from_dna(Vec::new()),
        }
    }

    /// An executor on the symbols of `value`; the first character that is no
    /// symbol is an error.
    pub fn try_from_text(value: &str) -> (r: Result<DnaExecutor, ParseError>)
        ensures
            r is Ok <==> is_dna_text(value@),
            r matches Ok(x) ==> x.wf() && x.state() == (RunState {
                seq: dna_of_text(value@),
                halted: false,
                codes: Seq::empty(),
            }) && x.rna_view().len() == 0,
            r matches Err(ParseError::UnknownSymbol(c, p)) ==> p < value@.len() && value@[p as int] == c,
    {
        match parse_dna(value) {
            Ok(v) => Ok(DnaExecutor::from_dna(v)),
            Err(e) => Err(e),
        }
    }

    /// An executor on the given symbols.
    pub fn from_dna(dna: Vec<Dna>) -> (r: DnaExecutor)
        ensures
            r.wf(),
            r.state() == (RunState { seq: dna@, halted: false, codes: Seq::empty() }),
            r.rna_view().len() == 0,
    {
        DnaExecutor {
            dna: DnaRope::from(dna),
            rna: Vec::new(),
            loops_count: 0,
            halted: false,
            codes: Ghost(Seq::empty()),
        }
    }

    /// The render instructions emitted so far.
    pub fn rna(&self) -> (r: &[Rna])
        ensures
            r@ == self.rna_view(),
    {
        self.rna.as_slice()
    }

    /// The current sequence.
    pub fn dna(&self) -> (r: &DnaRope)
        ensures
            r@ == self.dna_view(),
            self.wf() ==> r.wf(),
    {
        &self.dna
    }

    /// Whether no further cycle can run.
    pub fn finished(&self) -> (r: bool)
        ensures
            r == self.is_halted(),
    {
        self.halted
    }

    /// Runs one cycle (see `cycle`) and says whether the run halted.
    fn execute_single(&mut self) -> (r: bool)
        requires
            old(self).wf(),
            !old(self).is_halted(),
        ensures
            final(self).wf(),
            final(self).state() == cycle(old(self).state()),
            r == final(self).is_halted(),
    {
        let ghost st = self.state();
        self.loops_count = if self.loops_count == usize::MAX {
            0
        } else {
            self.loops_count + 1
        };
        let mut dna = DnaRope::new();
        std::mem::swap(&mut dna, &mut self.dna);
        if self.loops_count % DEFRAGMENT_PERIOD == 0 {
            dna = dna.defragment();
        }
        let ghost s = dna@;
        let mut iter = dna.iter();
        let pattern = match pattern::execute(self, &mut iter) {
            Some(p) => p,
            None => {
                self.dna = dna;
                self.halted = true;
                return true;
            },
        };
        let template = match template::execute(self, &mut iter) {
            Some(t) => t,
            None => {
                self.dna = dna;
                self.halted = true;
                return true;
            },
        };
        let pos = iter.pos();
        proof {
            iter.lemma_wf();
        }
        let rest = dna.split_off(pos);
        proof {
            let (pr, codes1) = pattern_run(s, 0, 0, Seq::empty(), st.codes);
            let (ps, i) = pr->0;
            let (tr, codes2) = template_run(s, i, Seq::empty(), codes1);
            let (ts, j) = tr->0;
            assert(ps == pattern::pattern_view(pattern@));
            assert(ts == template@);
            assert(j == pos);
            assert(rest@ == s.skip(j));
            assert(self.codes@ == codes2);
        }
        match matchreplace::execute(pattern, template, rest) {
            Ok(x) => {
                self.dna = x;
                false
            },
            Err(x) => {
                proof {
                    if x@.len() == 0 {
                        assert(x@ =~= Seq::<Dna>::empty());
                    }
                }
                self.dna = x;
                self.halted = true;
                true
            },
        }
    }

    /// Runs at most `loops` cycles, stopping early where the run halts, and
    /// says whether it halted.
    pub fn execute_loops(&mut self, loops: usize) -> (r: bool)
        requires
            old(self).wf(),
        ensures
            final(self).wf(),
            final(self).state() == steps(old(self).state(), loops as nat),
            r == final(self).is_halted(),
    {
        let mut done: usize = 0;
        while done < loops && !self.halted
            invariant
                self.wf(),
                done <= loops,
                steps(old(self).state(), loops as nat) == steps(self.state(), (loops - done) as nat),
            decreases loops - done,
        {
            self.execute_single();
            done = done + 1;
        }
        proof {
            if self.halted {
                lemma_halted_stays(self.state(), (loops - done) as nat);
            }
        }
        self.halted
    }

    /// Runs cycles until the run halts, up to the largest count a `usize`
    /// holds, and gives the render instructions emitted.
    pub fn execute(&mut self) -> (r: &[Rna])
        requires
            old(self).wf(),
        ensures
            final(self).wf(),
            final(self).state() == steps(old(self).state(), usize::MAX as nat),
            r@ == final(self).rna_view(),
    {
        self.execute_loops(usize::MAX);
        self.rna()
    }

    pub(crate) fn add_rna(&mut self, rna: Rna, Ghost(code): Ghost<Seq<Dna>>)
        requires
            old(self).wf(),
            rna_decoded(rna, code),
        ensures
            final(self).wf(),
            final(self).rna_codes() == old(self).rna_codes().push(code),
            final(self).dna_view() == old(self).dna_view(),
            final(self).is_halted() == old(self).is_halted(),
            final(self).loops() == old(self).loops(),
    {
        self.rna.push(rna);
        self.codes = Ghost(self.codes@.push(code));
        assert(rna_list(self.rna@, self.codes@)) by {
            assert forall|k: int| 0 <= k < self.rna@.len() implies rna_decoded(
                #[trigger] self.rna@[k],
                self.codes@[k],
            ) by {
                if k < self.rna@.len() - 1 {
                    assert(self.rna@[k] == old(self).rna@[k]);
                }
            }
        }
    }
}

} // verus!
