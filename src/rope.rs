use vstd::prelude::*;

use crate::dna::Dna;
use crate::search::{
    build_dfa,
    dfa_rows,
    index_sym,
    is_border,
    lemma_first_occ_at,
    lemma_first_occ_none,
    lemma_longest_border,
    lemma_border_step,
    longest_border,
};
use std::ops::Range;

verus! {

/// The symbols of a list of chunks, read one chunk after the other.
pub open spec fn flat(cs: Seq<Seq<Dna>>) -> Seq<Dna>
    decreases cs.len(),
{
    if cs.len() == 0 {
        Seq::empty()
    } else {
        flat(cs.drop_last()) + cs.last()
    }
}

/// How many symbols the first `k` chunks hold.
pub open spec fn prefix_len(cs: Seq<Seq<Dna>>, k: int) -> int {
    flat(cs.take(k)).len() as int
}

/// The offset list of a rope: entry `i` is where chunk `i` ends.
pub open spec fn offsets_consistent(cs: Seq<Seq<Dna>>, offsets: Seq<usize>) -> bool {
    &&& offsets.len() == cs.len()
    &&& forall|i: int| 0 <= i < offsets.len() ==> #[trigger] offsets[i] == prefix_len(cs, i + 1)
}

/// Adding a chunk at the end adds its symbols at the end.
proof fn lemma_flat_push(cs: Seq<Seq<Dna>>, x: Seq<Dna>)
    ensures
        flat(cs.push(x)) == flat(cs) + x,
{
    assert(cs.push(x).drop_last() =~= cs);
}

/// The symbols of two chunk lists, one after the other.
proof fn lemma_flat_concat(a: Seq<Seq<Dna>>, b: Seq<Seq<Dna>>)
    ensures
        flat(a + b) == flat(a) + flat(b),
    decreases b.len(),
{
    if b.len() == 0 {
        assert(a + b =~= a);
        assert(flat(a) + flat(b) =~= flat(a));
    } else {
        assert((a + b).drop_last() =~= a + b.drop_last());
        lemma_flat_concat(a, b.drop_last());
        assert((a + b).last() == b.last());
        assert(flat(a + b) =~= flat(a) + flat(b));
    }
}

/// A single chunk holds its own symbols.
proof fn lemma_flat_single(x: Seq<Dna>)
    ensures
        flat(seq![x]) == x,
{
    lemma_flat_push(Seq::empty(), x);
    assert(Seq::<Seq<Dna>>::empty().push(x) =~= seq![x]);
    assert(Seq::<Dna>::empty() + x =~= x);
}

/// The first `k + 1` chunks are the first `k` and chunk `k`.
proof fn lemma_prefix_step(cs: Seq<Seq<Dna>>, k: int)
    requires
        0 <= k < cs.len(),
    ensures
        flat(cs.take(k + 1)) == flat(cs.take(k)) + cs[k],
        prefix_len(cs, k + 1) == prefix_len(cs, k) + cs[k].len(),
{
    assert(cs.take(k + 1).drop_last() =~= cs.take(k));
}

/// More chunks hold at least as many symbols.
proof fn lemma_prefix_mono(cs: Seq<Seq<Dna>>, j: int, k: int)
    requires
        0 <= j <= k <= cs.len(),
    ensures
        prefix_len(cs, j) <= prefix_len(cs, k),
    decreases k - j,
{
    if j < k {
        lemma_prefix_step(cs, k - 1);
        lemma_prefix_mono(cs, j, k - 1);
    }
}

/// `cs` split around chunk `k`.
proof fn lemma_flat_split(cs: Seq<Seq<Dna>>, k: int)
    requires
        0 <= k < cs.len(),
    ensures
        flat(cs) == flat(cs.take(k)) + cs[k] + flat(cs.skip(k + 1)),
        flat(cs).len() == prefix_len(cs, k + 1) + flat(cs.skip(k + 1)).len(),
{
    assert(cs =~= cs.take(k + 1) + cs.skip(k + 1));
    lemma_flat_concat(cs.take(k + 1), cs.skip(k + 1));
    lemma_prefix_step(cs, k);
}

/// Symbol `j` of chunk `k` sits at the offset where chunk `k` starts, plus `j`.
proof fn lemma_flat_index(cs: Seq<Seq<Dna>>, k: int, j: int)
    requires
        0 <= k < cs.len(),
        0 <= j < cs[k].len(),
    ensures
        prefix_len(cs, k) + j < flat(cs).len(),
        flat(cs)[prefix_len(cs, k) + j] == cs[k][j],
{
    lemma_flat_split(cs, k);
}

/// All the chunks hold all the symbols.
proof fn lemma_prefix_all(cs: Seq<Seq<Dna>>)
    ensures
        prefix_len(cs, cs.len() as int) == flat(cs).len(),
{
    assert(cs.take(cs.len() as int) =~= cs);
}

/// Where `key` first occurs in `s` at or after `from`: the brute-force scan.
pub open spec fn first_occ(s: Seq<Dna>, key: Seq<Dna>, from: int) -> Option<int>
    decreases s.len() - from,
{
    if from < 0 || from + key.len() > s.len() {
        None
    } else if s.subrange(from, from + key.len()) == key || key.len() == 0 {
        Some(from)
    } else {
        first_occ(s, key, from + 1)
    }
}

/// `key` occurs in `s` at `p`.
pub open spec fn occurs_at(s: Seq<Dna>, key: Seq<Dna>, p: int) -> bool {
    0 <= p && p + key.len() <= s.len() && s.subrange(p, p + key.len()) == key
}

/// The scan finds the leftmost occurrence at or after `from`, and finds none
/// only where there is none.
pub proof fn lemma_first_occ_leftmost(s: Seq<Dna>, key: Seq<Dna>, from: int)
    requires
        0 <= from,
    ensures
        first_occ(s, key, from) matches Some(p) ==> from <= p && occurs_at(s, key, p) && forall|q: int|
            from <= q < p ==> !occurs_at(s, key, q),
        first_occ(s, key, from) is None ==> forall|q: int| from <= q ==> !occurs_at(s, key, q),
    decreases s.len() - from,
{
    if from + key.len() > s.len() {
    } else if s.subrange(from, from + key.len()) == key {
    } else if key.len() == 0 {
        assert(s.subrange(from, from) =~= key);
    } else {
        lemma_first_occ_leftmost(s, key, from + 1);
    }
}

/// Two ranges share no offset (an empty range inside another counts as
/// sharing).
pub open spec fn disjoint(a: Range<usize>, b: Range<usize>) -> bool {
    a.start >= b.end || a.end <= b.start
}

/// Range `i` is not empty and shares no offset with any other range: its
/// symbols can be moved out rather than copied.
pub open spec fn movable(rs: Seq<Range<usize>>, i: int) -> bool {
    &&& rs[i].start < rs[i].end
    &&& forall|j: int| 0 <= j < rs.len() && j != i ==> disjoint(#[trigger] rs[j], rs[i])
}

/// Every range lies within `[0, len)` and starts before it ends.
pub open spec fn ranges_within(rs: Seq<Range<usize>>, len: int) -> bool {
    forall|i: int| 0 <= i < rs.len() ==> #[trigger] rs[i].start <= rs[i].end && rs[i].end <= len
}

/// A symbol sequence held as a list of chunks, with the offset at which each
/// chunk ends.
pub struct DnaRope {
    dna: Vec<Vec<Dna>>,
    index: Vec<usize>,
}

impl View for DnaRope {
    type V = Seq<Dna>;

    closed spec fn view(&self) -> Seq<Dna> {
        flat(self.chunks())
    }
}

impl DnaRope {
    /// The chunks, in order.
    pub closed spec fn chunks(&self) -> Seq<Seq<Dna>> {
        self.dna@.map_values(|v: Vec<Dna>| v@)
    }

    /// The offset list.
    pub closed spec fn offsets(&self) -> Seq<usize> {
        self.index@
    }

    pub open spec fn wf(&self) -> bool {
        offsets_consistent(self.chunks(), self.offsets())
    }

    /// Every rope keeps one offset per chunk, the last of them its length: so
    /// `len` is the number of symbols a full walk yields, and `rope_count` the
    /// number of offsets.
    pub proof fn lemma_sequence_invariant(&self)
        requires
            self.wf(),
        ensures
            self.offsets().len() == self.chunks().len(),
            self.offsets().len() > 0 ==> self.offsets().last() == self@.len(),
            self.offsets().len() == 0 ==> self@.len() == 0,
    {
        lemma_prefix_all(self.chunks());
        if self.chunks().len() == 0 {
            assert(self.chunks() =~= Seq::<Seq<Dna>>::empty());
        }
    }

    pub proof fn lemma_len_bound(&self)
        requires
            self.wf(),
        ensures
            self@.len() <= usize::MAX,
    {
        lemma_prefix_all(self.chunks());
        if self.chunks().len() > 0 {
            assert(self.index@[self.index@.len() - 1] == prefix_len(self.chunks(), self.chunks().len() as int));
        } else {
            assert(self.chunks() =~= Seq::<Seq<Dna>>::empty());
        }
    }

    pub fn new() -> (r: DnaRope)
        ensures
            r.wf(),
            r@ == Seq::<Dna>::empty(),
            r.chunks().len() == 0,
    {
        let r = DnaRope { dna: Vec::new(), index: Vec::new() };
        assert(r.chunks() =~= Seq::<Seq<Dna>>::empty());
        r
    }

    /// A rope with one chunk.
    pub fn from(value: Vec<Dna>) -> (r: DnaRope)
        ensures
            r.wf(),
            r@ == value@,
            r.chunks() == seq![value@],
    {
        let ghost v = value@;
        let _n = value.len();
        let mut dna: Vec<Vec<Dna>> = Vec::new();
        dna.push(value);
        proof {
            assert(dna@.map_values(|v: Vec<Dna>| v@) =~= seq![v]);
            lemma_flat_single(v);
        }
        DnaRope::from_raw(dna)
    }

    /// A rope over the given chunks.
    pub fn from_raw(dna: Vec<Vec<Dna>>) -> (r: DnaRope)
        requires
            flat(dna@.map_values(|v: Vec<Dna>| v@)).len() <= usize::MAX,
        ensures
            r.wf(),
            r.chunks() == dna@.map_values(|v: Vec<Dna>| v@),
    {
        let index = DnaRope::create_index(&dna);
        DnaRope { dna, index }
    }

    fn create_index(dna: &Vec<Vec<Dna>>) -> (index: Vec<usize>)
        requires
            flat(dna@.map_values(|v: Vec<Dna>| v@)).len() <= usize::MAX,
        ensures
            offsets_consistent(dna@.map_values(|v: Vec<Dna>| v@), index@),
    {
        let ghost cs = dna@.map_values(|v: Vec<Dna>| v@);
        let mut index: Vec<usize> = Vec::with_capacity(dna.len());
        let mut count: usize = 0;
        let mut i: usize = 0;
        proof {
            lemma_prefix_all(cs);
            lemma_prefix_mono(cs, 0, cs.len() as int);
            assert(cs.take(0) =~= Seq::<Seq<Dna>>::empty());
        }
        while i < dna.len()
            invariant
                cs == dna@.map_values(|v: Vec<Dna>| v@),
                i <= dna@.len(),
                count == prefix_len(cs, i as int),
                flat(cs).len() <= usize::MAX,
                index@.len() == i,
                forall|j: int| 0 <= j < i ==> #[trigger] index@[j] == prefix_len(cs, j + 1),
            decreases dna@.len() - i,
        {
            proof {
                lemma_prefix_step(cs, i as int);
                lemma_prefix_mono(cs, i + 1, cs.len() as int);
                lemma_prefix_all(cs);
            }
            count = count + dna[i].len();
            index.push(count);
            i = i + 1;
        }
        index
    }

    /// Number of symbols.
    pub fn len(&self) -> (r: usize)
        requires
            self.wf(),
        ensures
            r == self@.len(),
    {
        proof {
            lemma_prefix_all(self.chunks());
            if self.chunks().len() == 0 {
                assert(self.chunks() =~= Seq::<Seq<Dna>>::empty());
            }
        }
        if self.index.len() == 0 {
            0
        } else {
            self.index[self.index.len() - 1]
        }
    }

    /// Number of chunks.
    pub fn rope_count(&self) -> (r: usize)
        requires
            self.wf(),
        ensures
            r == self.chunks().len(),
            r == self.offsets().len(),
    {
        self.dna.len()
    }

    /// Number of offsets held (one per chunk).
    pub fn index_len(&self) -> (r: usize)
        ensures
            r == self.offsets().len(),
    {
        self.index.len()
    }

    /// The symbols of chunk `i`.
    pub fn chunk(&self, i: usize) -> (r: &Vec<Dna>)
        requires
            i < self.chunks().len(),
        ensures
            r@ == self.chunks()[i as int],
    {
        &self.dna[i]
    }

    /// Adds one chunk at the end.
    pub fn append_dna(&mut self, subdna: Vec<Dna>)
        requires
            old(self).wf(),
            old(self)@.len() + subdna@.len() <= usize::MAX,
        ensures
            final(self).wf(),
            final(self)@ == old(self)@ + subdna@,
            final(self).chunks() == old(self).chunks().push(subdna@),
    {
        let ghost cs = self.chunks();
        let count = self.len() + subdna.len();
        let ghost sv = subdna@;
        self.dna.push(subdna);
        self.index.push(count);
        proof {
            assert(self.chunks() =~= cs.push(sv));
            lemma_flat_push(cs, sv);
            let ncs = cs.push(sv);
            assert forall|i: int| 0 <= i < self.index@.len() implies #[trigger] self.index@[i]
                == prefix_len(ncs, i + 1) by {
                if i < cs.len() {
                    assert(ncs.take(i + 1) =~= cs.take(i + 1));
                } else {
                    assert(ncs.take(i + 1) =~= ncs);
                }
            }
        }
    }

    /// Moves the chunks of `suffix` to the end.
    pub fn append(&mut self, suffix: DnaRope)
        requires
            old(self).wf(),
            suffix.wf(),
            old(self)@.len() + suffix@.len() <= usize::MAX,
        ensures
            final(self).wf(),
            final(self)@ == old(self)@ + suffix@,
            final(self).chunks() == old(self).chunks() + suffix.chunks(),
    {
        let ghost a = self.chunks();
        let ghost b = suffix.chunks();
        let base = self.len();
        let mut suffix = suffix;
        let n = suffix.index.len();
        let mut i: usize = 0;
        proof {
            lemma_prefix_all(b);
        }
        while i < n
            invariant
                n == suffix.index@.len(),
                offsets_consistent(b, suffix.index@),
                offsets_consistent(a, self.index@.take(a.len() as int)),
                self.dna@.map_values(|v: Vec<Dna>| v@) == a,
                base == flat(a).len(),
                base + flat(b).len() <= usize::MAX,
                i <= n,
                self.index@.len() == a.len() + i,
                forall|j: int| 0 <= j < i ==> #[trigger] self.index@[a.len() + j] == base + prefix_len(b, j + 1),
            decreases n - i,
        {
            proof {
                lemma_prefix_mono(b, i + 1, b.len() as int);
                lemma_prefix_all(b);
            }
            let ghost before = self.index@;
            self.index.push(base + suffix.index[i]);
            proof {
                assert(self.index@.take(a.len() as int) =~= before.take(a.len() as int));
            }
            i = i + 1;
        }
        self.dna.append(&mut suffix.dna);
        proof {
            let c = a + b;
            assert(self.chunks() =~= c);
            lemma_flat_concat(a, b);
            assert forall|j: int| 0 <= j < self.index@.len() implies #[trigger] self.index@[j]
                == prefix_len(c, j + 1) by {
                if j < a.len() {
                    assert(c.take(j + 1) =~= a.take(j + 1));
                    assert(self.index@[j] == self.index@.take(a.len() as int)[j]);
                } else {
                    let k = j - a.len();
                    assert(c.take(j + 1) =~= a + b.take(k + 1));
                    lemma_flat_concat(a, b.take(k + 1));
                    assert(self.index@[a.len() + k] == base + prefix_len(b, k + 1));
                }
            }
        }
    }

    /// The chunk that holds symbol `i` and the symbol's place in it.
    pub fn index_pair(&self, i: usize) -> (r: Option<(usize, usize)>)
        requires
            self.wf(),
        ensures
            r is Some <==> i < self@.len(),
            r matches Some((k, off)) ==> k < self.chunks().len() && off < self.chunks()[k as int].len()
                && prefix_len(self.chunks(), k as int) + off == i,
    {
        let ghost cs = self.chunks();
        let n = self.index.len();
        let mut lo: usize = 0;
        let mut hi: usize = n;
        proof {
            lemma_prefix_all(cs);
        }
        while lo < hi
            invariant
                self.wf(),
                cs == self.chunks(),
                n == cs.len(),
                lo <= hi <= n,
                forall|j: int| 0 <= j < lo ==> #[trigger] self.index@[j] <= i,
                forall|j: int| hi <= j < n ==> #[trigger] self.index@[j] > i,
            decreases hi - lo,
        {
            let mid = lo + (hi - lo) / 2;
            if self.index[mid] <= i {
                proof {
                    assert forall|j: int| 0 <= j <= mid implies #[trigger] self.index@[j] <= i by {
                        lemma_prefix_mono(cs, j + 1, mid + 1);
                    }
                }
                lo = mid + 1;
            } else {
                proof {
                    assert forall|j: int| mid <= j < n implies #[trigger] self.index@[j] > i by {
                        lemma_prefix_mono(cs, mid + 1, j + 1);
                    }
                }
                hi = mid;
            }
        }
        if lo == n {
            proof {
                if n > 0 {
                    assert(self.index@[n - 1] <= i);
                } else {
                    assert(cs =~= Seq::<Seq<Dna>>::empty());
                }
            }
            None
        } else {
            proof {
                lemma_prefix_step(cs, lo as int);
                if lo > 0 {
                    assert(self.index@[lo - 1] <= i);
                } else {
                    assert(cs.take(0) =~= Seq::<Seq<Dna>>::empty());
                }
                lemma_prefix_mono(cs, lo + 1, n as int);
            }
            let start = self.index[lo] - self.dna[lo].len();
            Some((lo, i - start))
        }
    }

    /// Cuts the rope at `at`: the receiver keeps the symbols before it, the
    /// result holds the rest.
    pub fn split_off(&mut self, at: usize) -> (r: DnaRope)
        requires
            old(self).wf(),
            at <= old(self)@.len(),
        ensures
            final(self).wf(),
            r.wf(),
            final(self)@ == old(self)@.take(at as int),
            r@ == old(self)@.skip(at as int),
    {
        let ghost cs = self.chunks();
        let ghost all = self@;
        let _total = self.len();
        match self.index_pair(at) {
            None => {
                proof {
                    assert(all.take(at as int) =~= all);
                    assert(all.skip(at as int) =~= Seq::<Dna>::empty());
                }
                DnaRope::new()
            },
            Some((vec, off)) => {
                proof {
                    lemma_flat_split(cs, vec as int);
                    lemma_prefix_step(cs, vec as int);
                }
                let mut postfix = self.dna.split_off(vec);
                self.index.truncate(vec);
                let ghost a = cs.take(vec as int);
                let ghost b = cs.skip(vec as int);
                proof {
                    assert(self.chunks() =~= a);
                    assert(postfix@.map_values(|v: Vec<Dna>| v@) =~= b);
                    assert forall|j: int| 0 <= j < self.index@.len() implies #[trigger] self.index@[j]
                        == prefix_len(a, j + 1) by {
                        assert(a.take(j + 1) =~= cs.take(j + 1));
                    }
                    assert(b =~= seq![cs[vec as int]] + cs.skip(vec + 1));
                    lemma_flat_concat(seq![cs[vec as int]], cs.skip(vec + 1));
                    lemma_flat_single(cs[vec as int]);
                    assert(a =~= cs.take(vec as int));
                }
                if off > 0 {
                    let mut first = postfix.remove(0);
                    let rest = first.split_off(off);
                    let ghost x = cs[vec as int];
                    proof {
                        assert(flat(a).len() + first@.len() <= usize::MAX);
                    }
                    self.append_dna(first);
                    postfix.insert(0, rest);
                    proof {
                        let nb = postfix@.map_values(|v: Vec<Dna>| v@);
                        assert(nb =~= seq![x.skip(off as int)] + cs.skip(vec + 1));
                        lemma_flat_concat(seq![x.skip(off as int)], cs.skip(vec + 1));
                        lemma_flat_single(x.skip(off as int));
                        assert(self@ =~= all.take(at as int));
                        assert(flat(nb) =~= all.skip(at as int));
                    }
                    DnaRope::from_raw(postfix)
                } else {
                    proof {
                        assert(self@ =~= all.take(at as int));
                        assert(flat(b) =~= all.skip(at as int));
                    }
                    DnaRope::from_raw(postfix)
                }
            },
        }
    }

    /// A cursor at the start.
    pub fn iter(&self) -> (r: Iter<'_>)
        requires
            self.wf(),
        ensures
            r.wf(),
            r.rope() == *self,
            r.spec_pos() == 0,
    {
        proof {
            assert(self.chunks().take(0) =~= Seq::<Seq<Dna>>::empty());
            lemma_prefix_all(self.chunks());
            lemma_prefix_mono(self.chunks(), 0, self.chunks().len() as int);
        }
        Iter { rope: self, vec: 0, index: 0, absolute_index: 0 }
    }

    /// Moves `iter`, a cursor on this rope, to offset `n`, or to the end where
    /// `n` is past it.
    pub fn iter_seek(&self, iter: &mut Iter, n: usize)
        requires
            old(iter).wf(),
            old(iter).rope() == *self,
        ensures
            final(iter).wf(),
            final(iter).rope() == *self,
            n <= self@.len() ==> final(iter).spec_pos() == n,
            n > self@.len() ==> final(iter).spec_pos() == self@.len(),
    {
        iter.seek(n);
    }

    /// The symbols, in order.
    pub fn as_vec(&self) -> (r: Vec<Dna>)
        requires
            self.wf(),
        ensures
            r@ == self@,
    {
        let len = self.len();
        let mut it = self.iter();
        let mut out: Vec<Dna> = Vec::new();
        while it.pos() < len
            invariant
                it.wf(),
                it.rope() == *self,
                len == self@.len(),
                it.spec_pos() <= len,
                out@ == self@.take(it.spec_pos()),
            decreases len - it.spec_pos(),
        {
            let ghost p = it.spec_pos();
            proof {
                it.lemma_wf();
            }
            match it.next() {
                Some(d) => {
                    out.push(d);
                    assert(self@.take(p + 1) =~= self@.take(p).push(d));
                },
                None => {},
            }
        }
        assert(self@.take(len as int) =~= self@);
        out
    }

    /// A copy of the symbols in `[start, end)`.
    pub fn copy_from_range(&self, range: Range<usize>) -> (r: Vec<Dna>)
        requires
            self.wf(),
            range.start <= range.end <= self@.len(),
        ensures
            r@ == self@.subrange(range.start as int, range.end as int),
    {
        let mut it = self.iter();
        it.seek(range.start);
        let mut out: Vec<Dna> = Vec::new();
        while it.pos() < range.end
            invariant
                it.wf(),
                it.rope() == *self,
                range.start <= it.spec_pos() <= range.end <= self@.len(),
                out@ == self@.subrange(range.start as int, it.spec_pos()),
            decreases range.end - it.spec_pos(),
        {
            let ghost p = it.spec_pos();
            match it.next() {
                Some(d) => {
                    out.push(d);
                    assert(self@.subrange(range.start as int, p + 1) =~= self@.subrange(
                        range.start as int,
                        p,
                    ).push(d));
                },
                None => {},
            }
        }
        out
    }

    /// The symbols from `start` to `end`, cut at the end of the rope.
    pub fn get_range(&self, range: Range<usize>) -> (r: Vec<Dna>)
        requires
            self.wf(),
            range.start <= range.end,
        ensures
            range.end <= self@.len() ==> r@ == self@.subrange(range.start as int, range.end as int),
            range.start <= self@.len() < range.end ==> r@ == self@.skip(range.start as int),
            self@.len() < range.start ==> r@.len() == 0,
    {
        let len = self.len();
        let start = if range.start < len {
            range.start
        } else {
            len
        };
        let end = if range.end < len {
            range.end
        } else {
            len
        };
        self.copy_from_range(start..end)
    }

    /// The same symbols in a single chunk.
    pub fn defragment(self) -> (r: DnaRope)
        requires
            self.wf(),
        ensures
            r.wf(),
            r@ == self@,
            r.chunks().len() == 1,
    {
        let v = self.as_vec();
        DnaRope::from(v)
    }

    /// One rope per range, in the order of `ranges`, with the symbols of that
    /// range. Ranges that share offsets with no other are moved out of the
    /// receiver; the others are copied.
    pub fn split_by_ranges(self, ranges: &[Range<usize>]) -> (r: Vec<DnaRope>)
        requires
            self.wf(),
            ranges_within(ranges@, self@.len() as int),
        ensures
            r@.len() == ranges@.len(),
            forall|i: int| 0 <= i < r@.len() ==> (#[trigger] r@[i]).wf() && r@[i]@ == self@.subrange(
                ranges@[i].start as int,
                ranges@[i].end as int,
            ),
    {
        let ghost all = self@;
        let ghost rs = ranges@;
        let n = ranges.len();
        let moved = movable_ranges(ranges);
        let mut out: Vec<DnaRope> = Vec::new();
        let mut i: usize = 0;
        while i < n
            invariant
                self.wf(),
                all == self@,
                rs == ranges@,
                n == rs.len(),
                ranges_within(rs, all.len() as int),
                moved@.len() == n,
                forall|j: int| 0 <= j < n ==> #[trigger] moved@[j] == movable(rs, j),
                i <= n,
                out@.len() == i,
                forall|j: int| 0 <= j < i && !moved@[j] ==> (#[trigger] out@[j]).wf() && out@[j]@
                    == all.subrange(rs[j].start as int, rs[j].end as int),
            decreases n - i,
        {
            if moved[i] {
                out.push(DnaRope::new());
            } else {
                let copy = self.copy_from_range(ranges[i].start..ranges[i].end);
                out.push(DnaRope::from(copy));
            }
            i = i + 1;
        }
        let mut rest = self;
        let mut bound = rest.len();
        let mut pending = true;
        while pending
            invariant
                rest.wf(),
                rest@ == all.take(bound as int),
                bound <= all.len(),
                rs == ranges@,
                n == rs.len(),
                ranges_within(rs, all.len() as int),
                moved@.len() == n,
                forall|j: int| 0 <= j < n ==> #[trigger] moved@[j] == movable(rs, j),
                out@.len() == n,
                forall|j: int| 0 <= j < n && (!moved@[j] || rs[j].end > bound) ==> (#[trigger] out@[j]).wf()
                    && out@[j]@ == all.subrange(rs[j].start as int, rs[j].end as int),
                !pending ==> forall|j: int| 0 <= j < n && moved@[j] ==> #[trigger] rs[j].end > bound,
            decreases bound + (if pending { 1int } else { 0int }),
        {
            match latest_pending(ranges, &moved, bound) {
                None => {
                    pending = false;
                },
                Some(k) => {
                    let start = ranges[k].start;
                    let end = ranges[k].end;
                    let _tail = rest.split_off(end);
                    let piece = rest.split_off(start);
                    proof {
                        assert(piece@ =~= all.subrange(start as int, end as int));
                        assert(rest@ =~= all.take(start as int));
                        assert forall|j: int| 0 <= j < n && moved@[j] && rs[j].end <= bound && j != k implies
                            #[trigger] rs[j].end <= start by {
                            assert(disjoint(rs[j], rs[k as int]));
                        }
                    }
                    out.set(k, piece);
                    bound = start;
                },
            }
        }
        out
    }

    /// Moves the chunks of `prefix` to the front.
    pub fn prepend(&mut self, prefix: DnaRope)
        requires
            old(self).wf(),
            prefix.wf(),
            prefix@.len() + old(self)@.len() <= usize::MAX,
        ensures
            final(self).wf(),
            final(self)@ == prefix@ + old(self)@,
            final(self).chunks() == prefix.chunks() + old(self).chunks(),
    {
        let mut front = prefix;
        std::mem::swap(self, &mut front);
        self.append(front);
    }
}

/// For each range, whether it is movable.
fn movable_ranges(ranges: &[Range<usize>]) -> (r: Vec<bool>)
    ensures
        r@.len() == ranges@.len(),
        forall|i: int| 0 <= i < r@.len() ==> #[trigger] r@[i] == movable(ranges@, i),
{
    let n = ranges.len();
    let mut r: Vec<bool> = Vec::new();
    let mut i: usize = 0;
    while i < n
        invariant
            n == ranges@.len(),
            i <= n,
            r@.len() == i,
            forall|k: int| 0 <= k < i ==> #[trigger] r@[k] == movable(ranges@, k),
        decreases n - i,
    {
        let a = &ranges[i];
        let mut ok = a.start < a.end;
        let mut j: usize = 0;
        while j < n
            invariant
                n == ranges@.len(),
                i < n,
                *a == ranges@[i as int],
                j <= n,
                ok == (a.start < a.end && forall|t: int| 0 <= t < j && t != i ==> disjoint(
                    #[trigger] ranges@[t],
                    ranges@[i as int],
                )),
            decreases n - j,
        {
            if j != i {
                let b = &ranges[j];
                if !(b.start >= a.end || b.end <= a.start) {
                    ok = false;
                }
            }
            j = j + 1;
        }
        r.push(ok);
        i = i + 1;
    }
    r
}

/// The movable range with the latest start among those that end at or before
/// `bound`.
fn latest_pending(ranges: &[Range<usize>], moved: &Vec<bool>, bound: usize) -> (r: Option<usize>)
    requires
        moved@.len() == ranges@.len(),
    ensures
        r matches Some(k) ==> k < ranges@.len() && moved@[k as int] && ranges@[k as int].end <= bound
            && forall|j: int| 0 <= j < ranges@.len() && moved@[j] && ranges@[j].end <= bound
                ==> #[trigger] ranges@[j].start <= ranges@[k as int].start,
        r is None ==> forall|j: int| 0 <= j < ranges@.len() && moved@[j] ==> #[trigger] ranges@[j].end > bound,
{
    let n = ranges.len();
    let mut best: Option<usize> = None;
    let mut j: usize = 0;
    while j < n
        invariant
            n == ranges@.len(),
            moved@.len() == n,
            j <= n,
            best matches Some(k) ==> k < j && moved@[k as int] && ranges@[k as int].end <= bound
                && forall|t: int| 0 <= t < j && moved@[t] && ranges@[t].end <= bound
                    ==> #[trigger] ranges@[t].start <= ranges@[k as int].start,
            best is None ==> forall|t: int| 0 <= t < j && moved@[t] ==> #[trigger] ranges@[t].end > bound,
        decreases n - j,
    {
        if moved[j] && ranges[j].end <= bound {
            match best {
                None => {
                    best = Some(j);
                },
                Some(k) => {
                    if ranges[j].start > ranges[k].start {
                        best = Some(j);
                    }
                },
            }
        }
        j = j + 1;
    }
    best
}

/// A position in a rope: an offset, with the chunk and the place in the chunk
/// that it falls on.
#[derive(Clone, Copy)]
pub struct Iter<'a> {
    rope: &'a DnaRope,
    vec: usize,
    index: usize,
    absolute_index: usize,
}

impl<'a> Iter<'a> {
    /// The rope the cursor walks.
    pub closed spec fn rope(&self) -> DnaRope {
        *self.rope
    }

    /// The symbols of the rope.
    pub open spec fn seq(&self) -> Seq<Dna> {
        self.rope()@
    }

    /// The offset.
    pub closed spec fn spec_pos(&self) -> int {
        self.absolute_index as int
    }

    pub closed spec fn wf(&self) -> bool {
        let cs = self.rope.chunks();
        &&& self.rope.wf()
        &&& self.vec <= cs.len()
        &&& self.vec < cs.len() ==> self.index <= cs[self.vec as int].len()
        &&& self.vec == cs.len() ==> self.index == 0
        &&& self.absolute_index == prefix_len(cs, self.vec as int) + self.index
    }

    pub proof fn lemma_wf(&self)
        requires
            self.wf(),
        ensures
            self.rope().wf(),
            0 <= self.spec_pos() <= self.seq().len(),
            self.seq().len() <= usize::MAX,
    {
        self.rope.lemma_len_bound();
        let cs = self.rope.chunks();
        lemma_prefix_all(cs);
        if self.vec < cs.len() {
            lemma_prefix_step(cs, self.vec as int);
            lemma_prefix_mono(cs, self.vec + 1, cs.len() as int);
        }
    }

    pub fn pos(&self) -> (r: usize)
        ensures
            r == self.spec_pos(),
    {
        self.absolute_index
    }

    /// Reads the symbol at the offset and moves past it.
    pub fn next(&mut self) -> (r: Option<Dna>)
        requires
            old(self).wf(),
        ensures
            final(self).wf(),
            final(self).rope() == old(self).rope(),
            old(self).spec_pos() < old(self).seq().len() ==> r == Some(old(self).seq()[old(self).spec_pos()])
                && final(self).spec_pos() == old(self).spec_pos() + 1,
            old(self).spec_pos() >= old(self).seq().len() ==> r is None && final(self).spec_pos()
                == old(self).spec_pos(),
    {
        proof {
            self.lemma_wf();
        }
        let ghost cs = self.rope.chunks();
        let n = self.rope.dna.len();
        while self.vec < n && self.index == self.rope.dna[self.vec].len()
            invariant
                self.wf(),
                self.rope() == old(self).rope(),
                cs == self.rope.chunks(),
                n == cs.len(),
                self.absolute_index == old(self).absolute_index,
            decreases n - self.vec,
        {
            proof {
                lemma_prefix_step(cs, self.vec as int);
            }
            self.vec = self.vec + 1;
            self.index = 0;
        }
        if self.vec == n {
            proof {
                lemma_prefix_all(cs);
            }
            None
        } else {
            proof {
                lemma_flat_index(cs, self.vec as int, self.index as int);
                lemma_prefix_step(cs, self.vec as int);
                lemma_prefix_mono(cs, self.vec + 1, cs.len() as int);
                lemma_prefix_all(cs);
                assert(self.rope.index@[n - 1] == prefix_len(cs, n as int));
            }
            let d = self.rope.dna[self.vec][self.index];
            self.index = self.index + 1;
            self.absolute_index = self.absolute_index + 1;
            Some(d)
        }
    }

    /// Moves back by one symbol, unless at the start.
    pub fn step_back(&mut self)
        requires
            old(self).wf(),
        ensures
            final(self).wf(),
            final(self).rope() == old(self).rope(),
            old(self).spec_pos() > 0 ==> final(self).spec_pos() == old(self).spec_pos() - 1,
            old(self).spec_pos() == 0 ==> final(self).spec_pos() == 0,
    {
        let ghost cs = self.rope.chunks();
        if self.absolute_index == 0 {
            return;
        }
        if self.index != 0 {
            self.index = self.index - 1;
            self.absolute_index = self.absolute_index - 1;
            return;
        }
        loop
            invariant
                self.wf(),
                self.rope() == old(self).rope(),
                cs == self.rope.chunks(),
                self.index == 0,
                self.absolute_index == old(self).absolute_index,
                self.absolute_index > 0,
            decreases self.vec,
        {
            proof {
                if self.vec == 0 {
                    assert(cs.take(0) =~= Seq::<Seq<Dna>>::empty());
                }
                lemma_prefix_step(cs, self.vec - 1);
            }
            self.vec = self.vec - 1;
            self.index = self.rope.dna[self.vec].len();
            if self.index != 0 {
                self.index = self.index - 1;
                self.absolute_index = self.absolute_index - 1;
                return;
            }
        }
    }

    /// Moves to offset `n`, or to the end where `n` is past it.
    pub fn seek(&mut self, n: usize)
        requires
            old(self).wf(),
        ensures
            final(self).wf(),
            final(self).rope() == old(self).rope(),
            n <= old(self).seq().len() ==> final(self).spec_pos() == n,
            n > old(self).seq().len() ==> final(self).spec_pos() == old(self).seq().len(),
    {
        let ghost cs = self.rope.chunks();
        match self.rope.index_pair(n) {
            Some((v, i)) => {
                self.vec = v;
                self.index = i;
                self.absolute_index = n;
            },
            None => {
                proof {
                    lemma_prefix_all(cs);
                }
                self.vec = self.rope.dna.len();
                self.index = 0;
                self.absolute_index = self.rope.len();
            },
        }
    }

    /// The offset of the first occurrence of `key` at or after the cursor; the
    /// cursor does not move. A one-symbol key is looked for directly; a longer
    /// one through its search automaton, in one pass over the rope.
    pub fn dna_search(&self, key: &[Dna]) -> (r: Option<usize>)
        requires
            self.wf(),
        ensures
            key@.len() == 0 ==> r is None,
            key@.len() > 0 ==> match r {
                Some(p) => first_occ(self.seq(), key@, self.spec_pos()) == Some(p as int),
                None => first_occ(self.seq(), key@, self.spec_pos()) is None,
            },
    {
        proof {
            self.lemma_wf();
        }
        let ghost s = self.seq();
        let ghost k = key@;
        let ghost start = self.spec_pos();
        let m = key.len();
        if m == 0 {
            return None;
        }
        let mut iter = *self;
        if m == 1 {
            let target = key[0];
            loop
                invariant
                    iter.wf(),
                    iter.rope() == self.rope(),
                    s == self.seq(),
                    k == key@,
                    k.len() == 1,
                    target == k[0],
                    0 <= start <= iter.spec_pos() <= s.len(),
                    start == self.spec_pos(),
                    forall|q: int| start <= q < iter.spec_pos() ==> !occurs_at(s, k, q),
                decreases s.len() - iter.spec_pos(),
            {
                let p = iter.pos();
                proof {
                    iter.lemma_wf();
                }
                match iter.next() {
                    Some(d) => {
                        if d == target {
                            proof {
                                assert(s.subrange(p as int, p + 1) =~= k);
                                lemma_first_occ_at(s, k, start, p as int);
                            }
                            return Some(p);
                        }
                        proof {
                            assert(s.subrange(p as int, p + 1)[0] == d);
                        }
                    },
                    None => {
                        proof {
                            lemma_first_occ_none(s, k, start);
                        }
                        return None;
                    },
                }
            }
        }
        let dfa = build_dfa(key);
        let mut j: usize = 0;
        proof {
            let w = s.subrange(start, start);
            assert(w =~= Seq::<Dna>::empty());
            lemma_longest_border(w, k);
        }
        loop
            invariant
                iter.wf(),
                iter.rope() == self.rope(),
                s == self.seq(),
                k == key@,
                m == k.len(),
                m >= 2,
                dfa@.len() == m,
                dfa_rows(dfa@, k, m as int),
                0 <= start <= iter.spec_pos() <= s.len(),
                start == self.spec_pos(),
                j < m,
                j == longest_border(s.subrange(start, iter.spec_pos()), k),
                forall|q: int| start <= q && q + m <= iter.spec_pos() ==> !occurs_at(s, k, q),
            decreases s.len() - iter.spec_pos(),
        {
            let p = iter.pos();
            proof {
                iter.lemma_wf();
            }
            match iter.next() {
                Some(d) => {
                    let ghost w = s.subrange(start, p as int);
                    let ghost w2 = s.subrange(start, p + 1);
                    proof {
                        lemma_border_step(w, k, d);
                        assert(w.push(d) =~= w2);
                        lemma_longest_border(w2, k);
                    }
                    j = dfa[j][index_sym(d)];
                    if j == m {
                        proof {
                            assert(k.take(m as int) =~= k);
                            assert(w2.subrange(w2.len() - m, w2.len() as int) =~= s.subrange(p + 1 - m, p + 1));
                            lemma_first_occ_at(s, k, start, p + 1 - m);
                        }
                        return Some(p + 1 - m);
                    }
                    proof {
                        let q = p + 1 - m;
                        if start <= q && occurs_at(s, k, q) {
                            assert(w2.subrange(w2.len() - m, w2.len() as int) =~= s.subrange(q, q + m));
                            assert(k.take(m as int) =~= k);
                            assert(is_border(w2, k, m as int));
                        }
                    }
                },
                None => {
                    proof {
                        lemma_first_occ_none(s, k, start);
                    }
                    return None;
                },
            }
        }
    }
}

} // verus!
