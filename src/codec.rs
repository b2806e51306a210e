use vstd::prelude::*;

use crate::dna::Dna;
use crate::rope::Iter;
use vstd::arithmetic::power2::{
    lemma2_to64,
    lemma_pow2_pos,
    lemma_pow2_strictly_increases,
    lemma_pow2_unfold,
    pow2,
};

verus! {

/// Reads a number from `s` at `i`: `I` and `F` are zero bits, `C` a one bit,
/// `P` ends the number. `bit` is the position of the next bit and `acc` the
/// value read so far. The end is the offset just past the `P`.
pub open spec fn nat_run(s: Seq<Dna>, i: int, bit: nat, acc: nat) -> Option<(nat, int)>
    decreases s.len() - i,
{
    if i < 0 || i >= s.len() {
        None
    } else if s[i] == Dna::P {
        Some((acc, i + 1))
    } else if s[i] == Dna::C {
        nat_run(s, i + 1, bit + 1, acc + pow2(bit))
    } else {
        nat_run(s, i + 1, bit + 1, acc)
    }
}

/// A number that decodes ends past where it starts and within the text.
pub proof fn lemma_nat_run_end(s: Seq<Dna>, i: int, bit: nat, acc: nat)
    ensures
        nat_run(s, i, bit, acc) matches Some((v, e)) ==> i < e <= s.len(),
    decreases s.len() - i,
{
    if 0 <= i < s.len() && s[i] != Dna::P {
        lemma_nat_run_end(s, i + 1, bit + 1, if s[i] == Dna::C { acc + pow2(bit) } else { acc });
    }
}

/// A value cut down to the largest `u64`.
pub open spec fn saturate(v: nat) -> u64 {
    if v > u64::MAX {
        u64::MAX
    } else {
        v as u64
    }
}

/// The number encoded at offset `i` of `s`, saturated, and the offset past it.
pub open spec fn decode_nat(s: Seq<Dna>, i: int) -> Option<(u64, int)> {
    match nat_run(s, i, 0, 0) {
        Some((v, e)) => Some((saturate(v), e)),
        None => None,
    }
}

/// The encoding of `n`: its bits, least significant first, as `I` (zero) or
/// `C` (one), then `P`.
pub open spec fn enc(n: nat) -> Seq<Dna>
    decreases n,
{
    if n == 0 {
        seq![Dna::P]
    } else {
        seq![if n % 2 == 0 { Dna::I } else { Dna::C }] + enc(n / 2)
    }
}

/// The one-level quotation of a symbol.
pub open spec fn quote_sym(d: Dna) -> Seq<Dna> {
    match d {
        Dna::I => seq![Dna::C],
        Dna::C => seq![Dna::F],
        Dna::F => seq![Dna::P],
        Dna::P => seq![Dna::I, Dna::C],
    }
}

/// The one-level quotation of a sequence, symbol by symbol.
pub open spec fn quote_seq(d: Seq<Dna>) -> Seq<Dna>
    decreases d.len(),
{
    if d.len() == 0 {
        Seq::empty()
    } else {
        quote_seq(d.drop_last()) + quote_sym(d.last())
    }
}

/// Quotation applied `lvl` times.
pub open spec fn protect_seq(lvl: nat, d: Seq<Dna>) -> Seq<Dna>
    decreases lvl,
{
    if lvl == 0 {
        d
    } else {
        quote_seq(protect_seq((lvl - 1) as nat, d))
    }
}

proof fn lemma_nat_run_enc(s: Seq<Dna>, i: int, bit: nat, acc: nat, m: nat)
    requires
        0 <= i,
        i + enc(m).len() <= s.len(),
        s.subrange(i, i + enc(m).len()) == enc(m),
    ensures
        nat_run(s, i, bit, acc) == Some(((acc + m * pow2(bit)) as nat, i + enc(m).len())),
    decreases m,
{
    assert(s[i] == s.subrange(i, i + enc(m).len())[0]);
    if m == 0 {
        assert(s[i] == Dna::P);
        assert(m * pow2(bit) == 0);
    } else {
        let rest = enc(m / 2);
        let d = if m % 2 == 0 { Dna::I } else { Dna::C };
        assert(enc(m) == seq![d] + rest);
        assert(enc(m)[0] == d);
        assert(enc(m).len() == 1 + rest.len());
        assert(s.subrange(i + 1, i + 1 + rest.len()) =~= s.subrange(i, i + enc(m).len()).skip(1));
        assert(enc(m).skip(1) =~= rest);
        let p = pow2(bit);
        let acc2: nat = if m % 2 == 0 { acc } else { acc + p };
        lemma_nat_run_enc(s, i + 1, bit + 1, acc2, m / 2);
        lemma_pow2_unfold(bit + 1);
        assert(pow2(bit + 1) == 2 * p);
        assert(acc2 + (m / 2) * (2 * p) == acc + m * p) by (nonlinear_arith)
            requires
                m == 2 * (m / 2) + m % 2,
                m % 2 == 0 ==> acc2 == acc,
                m % 2 == 1 ==> acc2 == acc + p,
        ;
    }
}

/// Encoding a number and decoding the result gives the number back, and reads
/// exactly the encoding.
pub proof fn lemma_nat_round_trip(n: u64)
    ensures
        decode_nat(enc(n as nat), 0) == Some((n, enc(n as nat).len() as int)),
{
    let s = enc(n as nat);
    assert(s.subrange(0, s.len() as int) =~= s);
    lemma_nat_run_enc(s, 0, 0, 0, n as nat);
    lemma2_to64();
}

proof fn lemma_nat_run_zeros(s: Seq<Dna>, i: int, bit: nat, acc: nat, k: nat)
    requires
        0 <= i,
        i + k <= s.len(),
        forall|t: int| i <= t < i + k ==> s[t] == Dna::I,
    ensures
        nat_run(s, i, bit, acc) == nat_run(s, i + k, bit + k, acc),
    decreases k,
{
    if k > 0 {
        lemma_nat_run_zeros(s, i + 1, bit + 1, acc, (k - 1) as nat);
    }
}

/// A one bit at position `k` followed by the end decodes to `2^k` below bit
/// position 64 and to the largest `u64` from position 64 on.
pub proof fn lemma_nat_saturation(k: nat)
    ensures
        decode_nat(Seq::new(k, |t: int| Dna::I) + seq![Dna::C, Dna::P], 0) == Some(
            (if k < 64 { pow2(k) as u64 } else { u64::MAX }, k + 2int),
        ),
{
    let s = Seq::new(k, |t: int| Dna::I) + seq![Dna::C, Dna::P];
    assert forall|t: int| 0 <= t < k implies s[t] == Dna::I by {}
    lemma_nat_run_zeros(s, 0, 0, 0, k);
    assert(nat_run(s, k as int, k, 0) == nat_run(s, k + 1int, k + 1, pow2(k)));
    assert(nat_run(s, k + 1int, k + 1, pow2(k)) == Some((pow2(k), k + 2int)));
    assert(s[k as int] == Dna::C);
    assert(s[k + 1int] == Dna::P);
    assert(nat_run(s, k + 2int, k + 1, pow2(k)) is None);
    lemma2_to64();
    if k < 64 {
        lemma_pow2_strictly_increases(k, 64);
    } else if k > 64 {
        lemma_pow2_strictly_increases(64, k);
    }
}

/// Reads a number at the cursor (see `decode_nat`) and moves past it.
pub fn read_nat(dna_iter: &mut Iter) -> (r: Option<u64>)
    requires
        old(dna_iter).wf(),
    ensures
        final(dna_iter).wf(),
        final(dna_iter).rope() == old(dna_iter).rope(),
        match decode_nat(old(dna_iter).seq(), old(dna_iter).spec_pos()) {
            Some((v, e)) => r == Some(v) && final(dna_iter).spec_pos() == e,
            None => r is None,
        },
{
    let ghost s = dna_iter.seq();
    let ghost from = dna_iter.spec_pos();
    let ghost mut acc: nat = 0;
    let mut bit: u64 = 0;
    let mut n: u64 = 0;
    let mut pow: u64 = 1;
    proof {
        dna_iter.lemma_wf();
        lemma2_to64();
    }
    loop
        invariant
            dna_iter.wf(),
            dna_iter.rope() == old(dna_iter).rope(),
            s == dna_iter.seq(),
            from == old(dna_iter).spec_pos(),
            0 <= from <= dna_iter.spec_pos() <= s.len(),
            s.len() <= usize::MAX,
            bit == dna_iter.spec_pos() - from,
            nat_run(s, from, 0, 0) == nat_run(s, dna_iter.spec_pos(), bit as nat, acc),
            acc < pow2(bit as nat),
            n == saturate(acc),
            bit < 64 ==> pow == pow2(bit as nat),
            pow2(64) == u64::MAX + 1,
        decreases s.len() - dna_iter.spec_pos(),
    {
        proof {
            dna_iter.lemma_wf();
        }
        match dna_iter.next() {
            Some(Dna::P) => {
                return Some(n);
            },
            Some(Dna::C) => {
                proof {
                    lemma_pow2_unfold((bit + 1) as nat);
                    if bit < 64 {
                        lemma_pow2_strictly_increases(bit as nat, 64);
                        if bit < 63 {
                            lemma_pow2_strictly_increases((bit + 1) as nat, 64);
                        }
                    } else if bit > 64 {
                        lemma_pow2_strictly_increases(64, bit as nat);
                    }
                }
                if bit < 64 {
                    n = n + pow;
                } else {
                    n = u64::MAX;
                }
                proof {
                    acc = acc + pow2(bit as nat);
                }
            },
            Some(_) => {
                proof {
                    lemma_pow2_unfold((bit + 1) as nat);
                    lemma_pow2_pos(bit as nat);
                }
            },
            None => {
                return None;
            },
        }
        bit = bit + 1;
        if bit < 64 {
            proof {
                lemma_pow2_unfold(bit as nat);
                lemma_pow2_strictly_increases(bit as nat, 64);
            }
            pow = pow * 2;
        }
    }
}

/// The encoding of `n` (see `enc`).
pub fn asnat(n: u64) -> (r: Vec<Dna>)
    ensures
        r@ == enc(n as nat),
{
    let mut res: Vec<Dna> = Vec::new();
    let mut m = n;
    while m != 0
        invariant
            enc(n as nat) == res@ + enc(m as nat),
        decreases m,
    {
        let ghost before = res@;
        res.push(if m % 2 == 0 {
            Dna::I
        } else {
            Dna::C
        });
        assert(enc(m as nat) == seq![res@.last()] + enc((m / 2) as nat));
        assert(before + enc(m as nat) =~= res@ + enc((m / 2) as nat));
        m = m / 2;
    }
    res.push(Dna::P);
    assert(res@ =~= res@.drop_last() + enc(0));
    res
}

/// One level of quotation (see `quote_seq`).
pub fn quote(gene: Vec<Dna>) -> (r: Vec<Dna>)
    ensures
        r@ == quote_seq(gene@),
{
    let mut res: Vec<Dna> = Vec::new();
    let mut i: usize = 0;
    while i < gene.len()
        invariant
            i <= gene@.len(),
            res@ == quote_seq(gene@.take(i as int)),
        decreases gene@.len() - i,
    {
        assert(gene@.take(i + 1).drop_last() =~= gene@.take(i as int));
        match gene[i] {
            Dna::I => res.push(Dna::C),
            Dna::C => res.push(Dna::F),
            Dna::F => res.push(Dna::P),
            Dna::P => {
                res.push(Dna::I);
                res.push(Dna::C);
            },
        }
        assert(res@ =~= quote_seq(gene@.take(i + 1)));
        i = i + 1;
    }
    assert(gene@.take(gene@.len() as int) =~= gene@);
    res
}

/// Quotation applied `lvl` times (see `protect_seq`).
pub fn protect(lvl: u64, gene: &[Dna]) -> (r: Vec<Dna>)
    ensures
        r@ == protect_seq(lvl as nat, gene@),
{
    let mut d: Vec<Dna> = vstd::slice::slice_to_vec(gene);
    let mut count: u64 = 0;
    while count < lvl
        invariant
            count <= lvl,
            d@ == protect_seq(count as nat, gene@),
        decreases lvl - count,
    {
        d = quote(d);
        count = count + 1;
    }
    d
}

} // verus!
