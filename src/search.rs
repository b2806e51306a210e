use vstd::prelude::*;

use crate::dna::Dna;
use crate::rope::{first_occ, occurs_at};

verus! {

/// The last `l` symbols of `t` are the first `l` of `k`.
pub open spec fn is_border(t: Seq<Dna>, k: Seq<Dna>, l: int) -> bool {
    &&& 0 <= l <= t.len()
    &&& l <= k.len()
    &&& t.subrange(t.len() - l, t.len() as int) == k.take(l)
}

/// The longest border of `t` with `k` that is at most `l` long.
pub open spec fn border_from(t: Seq<Dna>, k: Seq<Dna>, l: int) -> int
    decreases l,
{
    if l <= 0 {
        0
    } else if is_border(t, k, l) {
        l
    } else {
        border_from(t, k, l - 1)
    }
}

/// The longest border of `t` with `k`: the state of the search automaton for
/// `k` after reading `t`.
pub open spec fn longest_border(t: Seq<Dna>, k: Seq<Dna>) -> int {
    border_from(t, k, if t.len() < k.len() { t.len() as int } else { k.len() as int })
}

/// The symbol with index `c`.
pub open spec fn symbol_at(c: int) -> Dna {
    if c == 0 {
        Dna::I
    } else if c == 1 {
        Dna::C
    } else if c == 2 {
        Dna::F
    } else {
        Dna::P
    }
}

/// The index of a symbol.
pub open spec fn index_of(d: Dna) -> int {
    match d {
        Dna::I => 0,
        Dna::C => 1,
        Dna::F => 2,
        Dna::P => 3,
    }
}

/// Rows `0..rows` of `dfa` are the automaton for `k`: from state `j` on
/// symbol `c`, the longest border of the first `j` symbols of `k` then `c`.
pub open spec fn dfa_rows(dfa: Seq<Vec<usize>>, k: Seq<Dna>, rows: int) -> bool {
    &&& rows <= dfa.len()
    &&& forall|j: int| 0 <= j < rows ==> (#[trigger] dfa[j])@.len() == 4
    &&& forall|j: int, c: int|
        0 <= j < rows && 0 <= c < 4 ==> #[trigger] dfa[j]@[c] == longest_border(k.take(j).push(symbol_at(c)), k)
}

proof fn lemma_border_from(t: Seq<Dna>, k: Seq<Dna>, l: int)
    requires
        0 <= l <= t.len(),
        l <= k.len(),
    ensures
        is_border(t, k, border_from(t, k, l)),
        0 <= border_from(t, k, l) <= l,
        forall|i: int| border_from(t, k, l) < i <= l ==> !is_border(t, k, i),
    decreases l,
{
    if l <= 0 {
        assert(t.subrange(t.len() as int, t.len() as int) =~= k.take(0));
    } else if !is_border(t, k, l) {
        lemma_border_from(t, k, l - 1);
    }
}

/// The longest border is a border, and no border is longer.
pub proof fn lemma_longest_border(t: Seq<Dna>, k: Seq<Dna>)
    ensures
        is_border(t, k, longest_border(t, k)),
        forall|i: int| #[trigger] is_border(t, k, i) ==> i <= longest_border(t, k),
{
    let cap = if t.len() < k.len() { t.len() as int } else { k.len() as int };
    lemma_border_from(t, k, cap);
}

/// Two sequences that end in the same `n` symbols have the same borders of
/// length up to `n`.
proof fn lemma_same_end(u: Seq<Dna>, v: Seq<Dna>, k: Seq<Dna>, n: int, l: int)
    requires
        0 <= l <= n <= u.len(),
        n <= v.len(),
        u.subrange(u.len() - n, u.len() as int) == v.subrange(v.len() - n, v.len() as int),
    ensures
        is_border(u, k, l) == is_border(v, k, l),
{
    assert(u.subrange(u.len() - l, u.len() as int) =~= u.subrange(u.len() - n, u.len() as int).subrange(
        n - l,
        n,
    ));
    assert(v.subrange(v.len() - l, v.len() as int) =~= v.subrange(v.len() - n, v.len() as int).subrange(
        n - l,
        n,
    ));
}

/// A border of `t` then `a` is a border of `t` one shorter, followed by `a`.
proof fn lemma_border_push(t: Seq<Dna>, k: Seq<Dna>, a: Dna, l: int)
    requires
        1 <= l,
    ensures
        is_border(t.push(a), k, l) == (is_border(t, k, l - 1) && l <= k.len() && k[l - 1] == a),
{
    let u = t.push(a);
    if is_border(u, k, l) {
        assert(u.subrange(u.len() - l, u.len() as int)[l - 1] == a);
        assert(t.subrange(t.len() - (l - 1), t.len() as int) =~= u.subrange(u.len() - l, u.len() as int).take(
            l - 1,
        ));
        assert(k.take(l - 1) =~= k.take(l).take(l - 1));
    }
    if is_border(t, k, l - 1) && l <= k.len() && k[l - 1] == a {
        assert(u.subrange(u.len() - l, u.len() as int) =~= t.subrange(t.len() - (l - 1), t.len() as int).push(
            a,
        ));
        assert(k.take(l) =~= k.take(l - 1).push(k[l - 1]));
    }
}

/// Reading a symbol from the state of `t` leads where reading it after the
/// first `j` symbols of `k` leads, `j` being that state.
pub proof fn lemma_border_step(t: Seq<Dna>, k: Seq<Dna>, a: Dna)
    requires
        longest_border(t, k) < k.len(),
    ensures
        longest_border(t.push(a), k) == longest_border(k.take(longest_border(t, k)).push(a), k),
{
    let j = longest_border(t, k);
    let w = k.take(j);
    lemma_longest_border(t, k);
    assert forall|l: int| #[trigger] is_border(t.push(a), k, l) == is_border(w.push(a), k, l) by {
        if l >= 1 {
            lemma_border_push(t, k, a, l);
            lemma_border_push(w, k, a, l);
            if l - 1 <= j {
                assert(t.subrange(t.len() - j, t.len() as int) == k.take(j));
                assert(w.subrange(w.len() - j, w.len() as int) =~= k.take(j));
                lemma_same_end(t, w, k, j, l - 1);
            } else {
                assert(!is_border(t, k, l - 1));
            }
        } else if l == 0 {
            assert(t.push(a).subrange(t.len() + 1int, t.len() + 1int) =~= k.take(0));
            assert(w.push(a).subrange(j + 1, j + 1) =~= k.take(0));
        }
    }
    lemma_longest_border(t.push(a), k);
    lemma_longest_border(w.push(a), k);
    let lt = longest_border(t.push(a), k);
    let lw = longest_border(w.push(a), k);
    assert(is_border(t.push(a), k, lw) == is_border(w.push(a), k, lw));
    assert(is_border(t.push(a), k, lt) == is_border(w.push(a), k, lt));
}

/// A symbol that does not continue `k` after its first `j` symbols leads
/// where it leads after symbols 1 to `j` of `k`.
proof fn lemma_border_mismatch(k: Seq<Dna>, j: int, a: Dna)
    requires
        1 <= j < k.len(),
        k[j] != a,
    ensures
        longest_border(k.take(j).push(a), k) == longest_border(k.subrange(1, j).push(a), k),
{
    let u = k.take(j).push(a);
    let v = k.subrange(1, j).push(a);
    lemma_longest_border(u, k);
    lemma_longest_border(v, k);
    assert(u.subrange(u.len() - j, u.len() as int) =~= v.subrange(v.len() - j, v.len() as int));
    if is_border(u, k, j + 1) {
        assert(u.subrange(0, j + 1)[j] == k.take(j + 1)[j]);
        assert(u.subrange(0, j + 1) =~= u);
    }
    assert forall|l: int| 0 <= l <= j implies #[trigger] is_border(u, k, l) == is_border(v, k, l) by {
        lemma_same_end(u, v, k, j, l);
    }
    let lu = longest_border(u, k);
    let lv = longest_border(v, k);
    assert(is_border(u, k, lv));
    assert(is_border(v, k, lu));
}

/// The first symbols of `k` followed by the next one form a border as long
/// as themselves.
proof fn lemma_border_match(k: Seq<Dna>, j: int)
    requires
        0 <= j < k.len(),
    ensures
        longest_border(k.take(j).push(k[j]), k) == j + 1,
{
    let u = k.take(j).push(k[j]);
    assert(u =~= k.take(j + 1));
    assert(u.subrange(0, j + 1) =~= k.take(j + 1));
    lemma_longest_border(u, k);
}

pub(crate) fn index_sym(d: Dna) -> (r: usize)
    ensures
        r == index_of(d),
        symbol_at(r as int) == d,
{
    match d {
        Dna::I => 0,
        Dna::C => 1,
        Dna::F => 2,
        Dna::P => 3,
    }
}

/// The search automaton for `key`: `key.len()` rows of four next states.
pub fn build_dfa(key: &[Dna]) -> (dfa: Vec<Vec<usize>>)
    requires
        key@.len() >= 1,
    ensures
        dfa@.len() == key@.len(),
        dfa_rows(dfa@, key@, key@.len() as int),
{
    let ghost k = key@;
    let m = key.len();
    let mut dfa: Vec<Vec<usize>> = Vec::new();
    let mut row0: Vec<usize> = Vec::new();
    let mut c: usize = 0;
    while c < 4
        invariant
            k == key@,
            m == k.len(),
            m >= 1,
            c <= 4,
            row0@.len() == c,
            forall|t: int| 0 <= t < c ==> #[trigger] row0@[t] == longest_border(k.take(0).push(symbol_at(t)), k),
        decreases 4 - c,
    {
        proof {
            let u = k.take(0).push(symbol_at(c as int));
            lemma_longest_border(u, k);
            if symbol_at(c as int) == k[0] {
                lemma_border_match(k, 0);
            } else {
                assert(!is_border(u, k, 1)) by {
                    if is_border(u, k, 1) {
                        assert(u.subrange(0, 1)[0] == k.take(1)[0]);
                    }
                }
            }
        }
        if index_sym(key[0]) == c {
            row0.push(1);
        } else {
            row0.push(0);
        }
        c = c + 1;
    }
    dfa.push(row0);
    let mut x: usize = 0;
    let mut j: usize = 1;
    proof {
        let t = k.subrange(1, 1);
        assert(t =~= Seq::<Dna>::empty());
        lemma_longest_border(t, k);
    }
    while j < m
        invariant
            k == key@,
            m == k.len(),
            1 <= j <= m,
            dfa@.len() == j,
            dfa_rows(dfa@, k, j as int),
            x < j,
            x == longest_border(k.subrange(1, j as int), k),
        decreases m - j,
    {
        let kj = index_sym(key[j]);
        let mut row: Vec<usize> = Vec::new();
        let mut c: usize = 0;
        proof {
            lemma_longest_border(k.subrange(1, j as int), k);
        }
        while c < 4
            invariant
                k == key@,
                m == k.len(),
                1 <= j < m,
                dfa@.len() == j,
                dfa_rows(dfa@, k, j as int),
                x < j,
                x == longest_border(k.subrange(1, j as int), k),
                kj == index_of(k[j as int]),
                c <= 4,
                row@.len() == c,
                forall|t: int| 0 <= t < c ==> #[trigger] row@[t] == longest_border(k.take(j as int).push(symbol_at(t)), k),
            decreases 4 - c,
        {
            proof {
                let a = symbol_at(c as int);
                if c == kj {
                    assert(a == k[j as int]);
                    lemma_border_match(k, j as int);
                } else {
                    assert(a != k[j as int]);
                    lemma_border_mismatch(k, j as int, a);
                    lemma_border_step(k.subrange(1, j as int), k, a);
                    assert(dfa@[x as int]@[c as int] == longest_border(k.take(x as int).push(a), k));
                }
            }
            if c == kj {
                row.push(j + 1);
            } else {
                row.push(dfa[x][c]);
            }
            c = c + 1;
        }
        proof {
            lemma_border_step(k.subrange(1, j as int), k, k[j as int]);
            assert(k.subrange(1, j as int).push(k[j as int]) =~= k.subrange(1, j + 1));
            assert(symbol_at(kj as int) == k[j as int]);
            lemma_longest_border(k.subrange(1, j + 1), k);
        }
        let nx = dfa[x][kj];
        dfa.push(row);
        x = nx;
        j = j + 1;
    }
    dfa
}

/// Where no occurrence starts in `[from, p)` and one starts at `p`, the scan
/// finds `p`.
pub proof fn lemma_first_occ_at(s: Seq<Dna>, k: Seq<Dna>, from: int, p: int)
    requires
        0 <= from <= p,
        k.len() > 0,
        occurs_at(s, k, p),
        forall|q: int| from <= q < p ==> !occurs_at(s, k, q),
    ensures
        first_occ(s, k, from) == Some(p),
    decreases p - from,
{
    if from < p {
        assert(!occurs_at(s, k, from));
        lemma_first_occ_at(s, k, from + 1, p);
    }
}

/// Where no occurrence starts at or after `from`, the scan finds none.
pub proof fn lemma_first_occ_none(s: Seq<Dna>, k: Seq<Dna>, from: int)
    requires
        0 <= from,
        k.len() > 0,
        forall|q: int| from <= q ==> !occurs_at(s, k, q),
    ensures
        first_occ(s, k, from) is None,
    decreases s.len() - from,
{
    if from + k.len() <= s.len() {
        assert(!occurs_at(s, k, from));
        lemma_first_occ_none(s, k, from + 1);
    }
}

} // verus!
