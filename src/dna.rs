use vstd::prelude::*;

verus! {

/// One symbol of the rewriting alphabet.
#[derive(Clone, Copy, PartialEq, Eq, Debug, Structural)]
pub enum Dna {
    I,
    C,
    F,
    P,
}

/// Failure to read a text as a symbol sequence.
#[derive(Clone, Copy, PartialEq, Eq, Debug, Structural)]
pub enum ParseError {
    /// The character at the given position is not one of `I`, `C`, `F`, `P`.
    UnknownSymbol(char, usize),
}

/// The symbol a character stands for, if any.
pub open spec fn symbol_of(c: char) -> Option<Dna> {
    if c == 'I' {
        Some(Dna::I)
    } else if c == 'C' {
        Some(Dna::C)
    } else if c == 'F' {
        Some(Dna::F)
    } else if c == 'P' {
        Some(Dna::P)
    } else {
        None
    }
}

/// Every character of `s` stands for a symbol.
pub open spec fn is_dna_text(s: Seq<char>) -> bool {
    forall|i: int| 0 <= i < s.len() ==> (#[trigger] symbol_of(s[i])) is Some
}

/// The symbols that the characters of `s` stand for.
pub open spec fn dna_of_text(s: Seq<char>) -> Seq<Dna>
    recommends
        is_dna_text(s),
{
    Seq::new(s.len(), |i: int| symbol_of(s[i])->0)
}

impl Dna {
    fn try_from(value: char) -> (r: Result<Dna, ParseError>)
        ensures
            symbol_of(value) is Some ==> r == Ok::<Dna, ParseError>(symbol_of(value)->0),
            symbol_of(value) is None ==> r == Err::<Dna, ParseError>(ParseError::UnknownSymbol(value, 0)),
    {
        match value {
            'I' => Ok(Dna::I),
            'C' => Ok(Dna::C),
            'F' => Ok(Dna::F),
            'P' => Ok(Dna::P),
            _ => Err(ParseError::UnknownSymbol(value, 0)),
        }
    }
}

/// Reads a text over `I`, `C`, `F`, `P` as symbols; the first other character is
/// reported together with its position.
pub fn parse_dna(text: &str) -> (r: Result<Vec<Dna>, ParseError>)
    ensures
        is_dna_text(text@) <==> r is Ok,
        r is Ok ==> r->Ok_0@ == dna_of_text(text@),
        r matches Err(ParseError::UnknownSymbol(c, p)) ==> p < text@.len() && text@[p as int] == c
            && symbol_of(c) is None && is_dna_text(text@.take(p as int)),
{
    let n = text.unicode_len();
    let mut out: Vec<Dna> = Vec::new();
    let mut i: usize = 0;
    while i < n
        invariant
            n == text@.len(),
            i <= n,
            is_dna_text(text@.take(i as int)),
            out@ == dna_of_text(text@.take(i as int)),
        decreases n - i,
    {
        let c = text.get_char(i);
        match Dna::try_from(c) {
            Ok(d) => {
                out.push(d);
                proof {
                    assert(text@.take(i + 1) =~= text@.take(i as int).push(c));
                    assert(out@ =~= dna_of_text(text@.take(i + 1)));
                }
            },
            Err(_) => {
                return Err(ParseError::UnknownSymbol(c, i));
            },
        }
        i = i + 1;
    }
    assert(text@.take(n as int) =~= text@);
    Ok(out)
}

/// Reads a text that holds only `I`, `C`, `F`, `P` as symbols.
pub fn read_dna(text: &str) -> (r: Vec<Dna>)
    requires
        is_dna_text(text@),
    ensures
        r@ == dna_of_text(text@),
{
    match parse_dna(text) {
        Ok(v) => v,
        Err(_) => Vec::new(),
    }
}

} // verus!
