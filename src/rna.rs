use vstd::prelude::*;

use crate::dna::Dna;
use crate::rope::Iter;

verus! {

#[derive(Clone, Copy, Debug, PartialEq, Eq, Structural)]
pub enum RnaColor {
    Black,
    Red,
    Green,
    Yellow,
    Blue,
    Magenta,
    Cyan,
    White,
}

#[derive(Clone, Copy, Debug, PartialEq, Eq, Structural)]
pub enum RnaAlpha {
    Transparent,
    Opaque,
}

/// A render instruction.
#[derive(Clone, Debug, PartialEq)]
pub enum Rna {
    AddColor(RnaColor),
    AddAlpha(RnaAlpha),
    EmptyBucket,
    Move,
    TurnCounterClockwise,
    TurnClockwise,
    Mark,
    Line,
    TryFill,
    AddBitmap,
    Compose,
    Clip,
    /// The symbols that were read and name no instruction.
    Unknown(Vec<Dna>),
}

/// The instruction that seven symbols name, if any.
pub open spec fn known_rna7(a: (Dna, Dna, Dna, Dna, Dna, Dna, Dna)) -> Option<Rna> {
    match a {
        (Dna::P, Dna::I, Dna::P, Dna::I, Dna::I, Dna::I, Dna::C) => Some(Rna::AddColor(RnaColor::Black)),
        (Dna::P, Dna::I, Dna::P, Dna::I, Dna::I, Dna::I, Dna::P) => Some(Rna::AddColor(RnaColor::Red)),
        (Dna::P, Dna::I, Dna::P, Dna::I, Dna::I, Dna::C, Dna::C) => Some(Rna::AddColor(RnaColor::Green)),
        (Dna::P, Dna::I, Dna::P, Dna::I, Dna::I, Dna::C, Dna::F) => Some(Rna::AddColor(RnaColor::Yellow)),
        (Dna::P, Dna::I, Dna::P, Dna::I, Dna::I, Dna::C, Dna::P) => Some(Rna::AddColor(RnaColor::Blue)),
        (Dna::P, Dna::I, Dna::P, Dna::I, Dna::I, Dna::F, Dna::C) => Some(Rna::AddColor(RnaColor::Magenta)),
        (Dna::P, Dna::I, Dna::P, Dna::I, Dna::I, Dna::F, Dna::F) => Some(Rna::AddColor(RnaColor::Cyan)),
        (Dna::P, Dna::I, Dna::P, Dna::I, Dna::I, Dna::P, Dna::C) => Some(Rna::AddColor(RnaColor::White)),
        (Dna::P, Dna::I, Dna::P, Dna::I, Dna::I, Dna::P, Dna::F) => Some(Rna::AddAlpha(RnaAlpha::Transparent)),
        (Dna::P, Dna::I, Dna::P, Dna::I, Dna::I, Dna::P, Dna::P) => Some(Rna::AddAlpha(RnaAlpha::Opaque)),
        (Dna::P, Dna::I, Dna::I, Dna::P, Dna::I, Dna::C, Dna::P) => Some(Rna::EmptyBucket),
        (Dna::P, Dna::I, Dna::I, Dna::I, Dna::I, Dna::I, Dna::P) => Some(Rna::Move),
        (Dna::P, Dna::C, Dna::C, Dna::C, Dna::C, Dna::C, Dna::P) => Some(Rna::TurnCounterClockwise),
        (Dna::P, Dna::F, Dna::F, Dna::F, Dna::F, Dna::F, Dna::P) => Some(Rna::TurnClockwise),
        (Dna::P, Dna::C, Dna::C, Dna::I, Dna::F, Dna::F, Dna::P) => Some(Rna::Mark),
        (Dna::P, Dna::F, Dna::F, Dna::I, Dna::C, Dna::C, Dna::P) => Some(Rna::Line),
        (Dna::P, Dna::I, Dna::I, Dna::P, Dna::I, Dna::I, Dna::P) => Some(Rna::TryFill),
        (Dna::P, Dna::C, Dna::C, Dna::P, Dna::F, Dna::F, Dna::P) => Some(Rna::AddBitmap),
        (Dna::P, Dna::F, Dna::F, Dna::P, Dna::C, Dna::C, Dna::P) => Some(Rna::Compose),
        (Dna::P, Dna::F, Dna::F, Dna::I, Dna::C, Dna::C, Dna::F) => Some(Rna::Clip),
        _ => None,
    }
}

/// The instruction that a code names, if any.
pub open spec fn known_rna(code: Seq<Dna>) -> Option<Rna> {
    if code.len() == 7 {
        known_rna7((code[0], code[1], code[2], code[3], code[4], code[5], code[6]))
    } else {
        None
    }
}

/// `r` is the instruction read from `code`.
pub open spec fn rna_decoded(r: Rna, code: Seq<Dna>) -> bool {
    match known_rna(code) {
        Some(k) => r == k,
        None => r matches Rna::Unknown(v) && v@ == code,
    }
}

/// `rs` are the instructions read from `codes`, one for one.
pub open spec fn rna_list(rs: Seq<Rna>, codes: Seq<Seq<Dna>>) -> bool {
    &&& rs.len() == codes.len()
    &&& forall|k: int| 0 <= k < rs.len() ==> rna_decoded(#[trigger] rs[k], codes[k])
}

/// The code an instruction is read from at `i`: seven symbols, or those that
/// remain where fewer do.
pub open spec fn rna_window(s: Seq<Dna>, i: int) -> Seq<Dna> {
    s.subrange(i, rna_end(s, i))
}

/// Where the cursor stands after an instruction is read at `i`.
pub open spec fn rna_end(s: Seq<Dna>, i: int) -> int {
    if i + 7 <= s.len() {
        i + 7
    } else {
        s.len() as int
    }
}

impl Rna {
    /// Reads seven symbols at the cursor as an instruction.
    pub fn from_dna_iter(iter: &mut Iter) -> (r: Rna)
        requires
            old(iter).wf(),
        ensures
            final(iter).wf(),
            final(iter).rope() == old(iter).rope(),
            final(iter).spec_pos() == rna_end(old(iter).seq(), old(iter).spec_pos()),
            rna_decoded(r, rna_window(old(iter).seq(), old(iter).spec_pos())),
    {
        let ghost s = iter.seq();
        let ghost from = iter.spec_pos();
        let mut code: Vec<Dna> = Vec::new();
        let mut k: usize = 0;
        proof {
            iter.lemma_wf();
        }
        while k < 7
            invariant
                iter.wf(),
                iter.rope() == old(iter).rope(),
                s == iter.seq(),
                from == old(iter).spec_pos(),
                0 <= from <= s.len(),
                k <= 7,
                iter.spec_pos() == (if from + k <= s.len() { from + k } else { s.len() as int }),
                code@ == s.subrange(from, iter.spec_pos()),
            decreases 7 - k,
        {
            let ghost p = iter.spec_pos();
            match iter.next() {
                Some(d) => {
                    code.push(d);
                    assert(s.subrange(from, p + 1) =~= s.subrange(from, p).push(d));
                },
                None => {},
            }
            k = k + 1;
        }
        if code.len() < 7 {
            return Rna::Unknown(code);
        }
        let ghost c = code@;
        assert(c =~= rna_window(s, from));
        let a = (code[0], code[1], code[2], code[3], code[4], code[5], code[6]);
        match a {
            (Dna::P, Dna::I, Dna::P, Dna::I, Dna::I, Dna::I, Dna::C) => Rna::AddColor(RnaColor::Black),
            (Dna::P, Dna::I, Dna::P, Dna::I, Dna::I, Dna::I, Dna::P) => Rna::AddColor(RnaColor::Red),
            (Dna::P, Dna::I, Dna::P, Dna::I, Dna::I, Dna::C, Dna::C) => Rna::AddColor(RnaColor::Green),
            (Dna::P, Dna::I, Dna::P, Dna::I, Dna::I, Dna::C, Dna::F) => Rna::AddColor(RnaColor::Yellow),
            (Dna::P, Dna::I, Dna::P, Dna::I, Dna::I, Dna::C, Dna::P) => Rna::AddColor(RnaColor::Blue),
            (Dna::P, Dna::I, Dna::P, Dna::I, Dna::I, Dna::F, Dna::C) => Rna::AddColor(RnaColor::Magenta),
            (Dna::P, Dna::I, Dna::P, Dna::I, Dna::I, Dna::F, Dna::F) => Rna::AddColor(RnaColor::Cyan),
            (Dna::P, Dna::I, Dna::P, Dna::I, Dna::I, Dna::P, Dna::C) => Rna::AddColor(RnaColor::White),
            (Dna::P, Dna::I, Dna::P, Dna::I, Dna::I, Dna::P, Dna::F) => Rna::AddAlpha(RnaAlpha::Transparent),
            (Dna::P, Dna::I, Dna::P, Dna::I, Dna::I, Dna::P, Dna::P) => Rna::AddAlpha(RnaAlpha::Opaque),
            (Dna::P, Dna::I, Dna::I, Dna::P, Dna::I, Dna::C, Dna::P) => Rna::EmptyBucket,
            (Dna::P, Dna::I, Dna::I, Dna::I, Dna::I, Dna::I, Dna::P) => Rna::Move,
            (Dna::P, Dna::C, Dna::C, Dna::C, Dna::C, Dna::C, Dna::P) => Rna::TurnCounterClockwise,
            (Dna::P, Dna::F, Dna::F, Dna::F, Dna::F, Dna::F, Dna::P) => Rna::TurnClockwise,
            (Dna::P, Dna::C, Dna::C, Dna::I, Dna::F, Dna::F, Dna::P) => Rna::Mark,
            (Dna::P, Dna::F, Dna::F, Dna::I, Dna::C, Dna::C, Dna::P) => Rna::Line,
            (Dna::P, Dna::I, Dna::I, Dna::P, Dna::I, Dna::I, Dna::P) => Rna::TryFill,
            (Dna::P, Dna::C, Dna::C, Dna::P, Dna::F, Dna::F, Dna::P) => Rna::AddBitmap,
            (Dna::P, Dna::F, Dna::F, Dna::P, Dna::C, Dna::C, Dna::P) => Rna::Compose,
            (Dna::P, Dna::F, Dna::F, Dna::I, Dna::C, Dna::C, Dna::F) => Rna::Clip,
            _ => Rna::Unknown(code),
        }
    }
}

} // verus!
