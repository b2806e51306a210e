use vstd::prelude::*;

use crate::codec::{asnat, enc, protect, protect_seq, quote_seq};
use crate::dna::Dna;
use crate::pattern::{pattern_view, Pattern, PatternTok};
use crate::rope::{first_occ, lemma_first_occ_leftmost, ranges_within, DnaRope};
use crate::template::Template;
use std::ops::Range;

verus! {

/// A captured range as a pair of offsets.
pub open spec fn range_view(r: Range<usize>) -> (int, int) {
    (r.start as int, r.end as int)
}

pub open spec fn env_view(e: Seq<Range<usize>>) -> Seq<(int, int)> {
    e.map_values(|r: Range<usize>| range_view(r))
}

/// Runs the instructions of `ps` from `k` on `s`, at offset `pos`, with the
/// offsets of the open groups in `opens` and the ranges captured so far in
/// `env`. Gives the offset where matching ended and the captured ranges, in
/// the order their groups closed, or none where an instruction fails.
pub open spec fn match_run(
    s: Seq<Dna>,
    ps: Seq<PatternTok>,
    k: int,
    pos: int,
    opens: Seq<int>,
    env: Seq<(int, int)>,
) -> Option<(int, Seq<(int, int)>)>
    decreases ps.len() - k,
{
    if k < 0 || k >= ps.len() {
        Some((pos, env))
    } else {
        match ps[k] {
            PatternTok::Base(d) => if 0 <= pos < s.len() && s[pos] == d {
                match_run(s, ps, k + 1, pos + 1, opens, env)
            } else {
                None
            },
            PatternTok::Skip(n) => if pos + n <= s.len() {
                match_run(s, ps, k + 1, pos + n, opens, env)
            } else {
                None
            },
            PatternTok::Search(c) => if c.len() == 0 {
                match_run(s, ps, k + 1, pos, opens, env)
            } else if s.len() - pos < c.len() {
                None
            } else {
                match first_occ(s, c, pos) {
                    Some(p) => match_run(s, ps, k + 1, p + c.len(), opens, env),
                    None => None,
                }
            },
            PatternTok::GroupOpen => match_run(s, ps, k + 1, pos, opens.push(pos), env),
            PatternTok::GroupClose => if opens.len() > 0 {
                let start = opens.last();
                let r = if start < pos { (start, pos) } else { (pos, pos) };
                match_run(s, ps, k + 1, pos, opens.drop_last(), env.push(r))
            } else {
                match_run(s, ps, k + 1, pos, opens, env)
            },
        }
    }
}

/// Whether the pattern matches `s`, and where and with which captures.
pub open spec fn match_spec(s: Seq<Dna>, ps: Seq<PatternTok>) -> Option<(int, Seq<(int, int)>)> {
    match_run(s, ps, 0, 0, Seq::empty(), Seq::empty())
}

/// The symbols of captured group `n`; none where there is no such group.
pub open spec fn group(s: Seq<Dna>, env: Seq<(int, int)>, n: int) -> Seq<Dna> {
    if 0 <= n < env.len() {
        s.subrange(env[n].0, env[n].1)
    } else {
        Seq::empty()
    }
}

/// The length of captured group `n`, 0 where there is no such group.
pub open spec fn group_len(env: Seq<(int, int)>, n: int) -> nat {
    if 0 <= n < env.len() {
        (env[n].1 - env[n].0) as nat
    } else {
        0
    }
}

/// What one replacement instruction contributes.
pub open spec fn template_item(s: Seq<Dna>, env: Seq<(int, int)>, t: Template) -> Seq<Dna> {
    match t {
        Template::Base(d) => seq![d],
        Template::NumberLevel(n, l) => protect_seq(l as nat, group(s, env, n as int)),
        Template::Length(n) => enc(group_len(env, n as int)),
    }
}

/// The replacement that the instructions build, in order.
pub open spec fn replacement(s: Seq<Dna>, env: Seq<(int, int)>, ts: Seq<Template>) -> Seq<Dna>
    decreases ts.len(),
{
    if ts.len() == 0 {
        Seq::empty()
    } else {
        replacement(s, env, ts.drop_last()) + template_item(s, env, ts.last())
    }
}

/// The captured ranges that the instructions take in full, in order: those of
/// references to groups that exist and are not empty.
pub open spec fn template_refs(env: Seq<(int, int)>, ts: Seq<Template>) -> Seq<(int, int)>
    decreases ts.len(),
{
    if ts.len() == 0 {
        Seq::empty()
    } else {
        template_refs(env, ts.drop_last()) + match ts.last() {
            Template::NumberLevel(n, _) => if n < env.len() && env[n as int].0 != env[n as int].1 {
                seq![env[n as int]]
            } else {
                Seq::empty()
            },
            _ => Seq::empty(),
        }
    }
}

/// The sequence after one rewrite of `s`, or none where the pattern does not
/// match.
pub open spec fn rewrite(s: Seq<Dna>, ps: Seq<PatternTok>, ts: Seq<Template>) -> Option<Seq<Dna>> {
    match match_spec(s, ps) {
        Some((pos, env)) => Some(replacement(s, env, ts) + s.skip(pos)),
        None => None,
    }
}

/// Quoting nothing, any number of times, gives nothing.
pub proof fn lemma_protect_empty(l: nat)
    ensures
        protect_seq(l, Seq::empty()) == Seq::<Dna>::empty(),
    decreases l,
{
    if l > 0 {
        lemma_protect_empty((l - 1) as nat);
    }
}

/// A group that closes at or before the offset where it opened captures the
/// empty range at the closing offset, and a reference to an empty group, at
/// any quotation level, contributes nothing.
pub proof fn lemma_empty_capture(
    s: Seq<Dna>,
    ps: Seq<PatternTok>,
    k: int,
    pos: int,
    opens: Seq<int>,
    env: Seq<(int, int)>,
    n: u64,
    l: u64,
)
    requires
        0 <= pos <= s.len(),
        n == env.len(),
        0 <= k < ps.len(),
        ps[k] == PatternTok::GroupClose,
        opens.len() > 0,
        opens.last() >= pos,
    ensures
        match_run(s, ps, k, pos, opens, env) == match_run(
            s,
            ps,
            k + 1,
            pos,
            opens.drop_last(),
            env.push((pos, pos)),
        ),
        template_item(s, env.push((pos, pos)), Template::NumberLevel(n, l)) == Seq::<Dna>::empty(),
{
    lemma_protect_empty(l as nat);
    assert(env.push((pos, pos))[n as int] == (pos, pos));
    assert(group(s, env.push((pos, pos)), n as int) =~= Seq::<Dna>::empty());
}

proof fn lemma_template_refs_prefix(env: Seq<(int, int)>, ts: Seq<Template>, a: int)
    requires
        0 <= a <= ts.len(),
    ensures
        template_refs(env, ts.take(a)).len() <= template_refs(env, ts).len(),
        forall|j: int| 0 <= j < template_refs(env, ts.take(a)).len() ==> #[trigger] template_refs(env, ts)[j]
            == template_refs(env, ts.take(a))[j],
    decreases ts.len() - a,
{
    if a < ts.len() {
        lemma_template_refs_prefix(env, ts, a + 1);
        assert(ts.take(a + 1).drop_last() =~= ts.take(a));
        let x = template_refs(env, ts.take(a));
        let y = template_refs(env, ts.take(a + 1));
        assert forall|j: int| 0 <= j < x.len() implies #[trigger] template_refs(env, ts)[j] == x[j] by {
            assert(y[j] == x[j]);
        }
    } else {
        assert(ts.take(a) =~= ts);
    }
}

proof fn lemma_replacement_prefix(s: Seq<Dna>, env: Seq<(int, int)>, ts: Seq<Template>, a: int)
    requires
        0 <= a <= ts.len(),
    ensures
        replacement(s, env, ts.take(a)).len() <= replacement(s, env, ts).len(),
    decreases ts.len() - a,
{
    if a < ts.len() {
        lemma_replacement_prefix(s, env, ts, a + 1);
        assert(ts.take(a + 1).drop_last() =~= ts.take(a));
    } else {
        assert(ts.take(a) =~= ts);
    }
}

/// Runs a pattern on a rope: the offset where matching ended and the captured
/// ranges (see `match_spec`).
pub fn execute_match(pattern: &Vec<Pattern>, dna: &DnaRope) -> (r: Option<(usize, Vec<Range<usize>>)>)
    requires
        dna.wf(),
    ensures
        match match_spec(dna@, pattern_view(pattern@)) {
            Some((p, e)) => r matches Some((rp, re)) && rp == p && env_view(re@) == e && ranges_within(
                re@,
                rp as int,
            ) && rp <= dna@.len(),
            None => r is None,
        },
{
    let ghost s = dna@;
    let ghost ps = pattern_view(pattern@);
    let mut e: Vec<Range<usize>> = Vec::new();
    let mut c: Vec<usize> = Vec::new();
    let mut iter = dna.iter();
    let len = dna.len();
    let mut k: usize = 0;
    proof {
        assert(env_view(e@) =~= Seq::<(int, int)>::empty());
        assert(c@.map_values(|x: usize| x as int) =~= Seq::<int>::empty());
    }
    while k < pattern.len()
        invariant
            iter.wf(),
            iter.rope() == *dna,
            s == dna@,
            len == s.len(),
            ps == pattern_view(pattern@),
            k <= pattern@.len(),
            0 <= iter.spec_pos() <= len,
            forall|j: int| 0 <= j < c@.len() ==> #[trigger] c@[j] <= iter.spec_pos(),
            ranges_within(e@, iter.spec_pos()),
            match_spec(s, ps) == match_run(
                s,
                ps,
                k as int,
                iter.spec_pos(),
                c@.map_values(|x: usize| x as int),
                env_view(e@),
            ),
        decreases pattern@.len() - k,
    {
        let ghost pos = iter.spec_pos();
        let ghost cv = c@;
        let ghost ev = e@;
        proof {
            iter.lemma_wf();
            assert(ps[k as int] == pattern@[k as int]@);
        }
        match &pattern[k] {
            Pattern::Base(d) => {
                match iter.next() {
                    Some(x) => {
                        if x != *d {
                            return None;
                        }
                    },
                    None => {
                        return None;
                    },
                }
            },
            Pattern::Skip(n) => {
                let pos = iter.pos();
                if *n > (len - pos) as u64 {
                    return None;
                }
                iter.seek(pos + *n as usize);
            },
            Pattern::Search(key) => {
                if key.len() > 0 {
                    let pos = iter.pos();
                    if len - pos < key.len() {
                        return None;
                    }
                    proof {
                        lemma_first_occ_leftmost(s, key@, pos as int);
                    }
                    match iter.dna_search(key.as_slice()) {
                        Some(p) => {
                            iter.seek(p + key.len());
                        },
                        None => {
                            return None;
                        },
                    }
                }
            },
            Pattern::GroupOpen => {
                c.push(iter.pos());
                proof {
                    assert(c@.map_values(|x: usize| x as int) =~= cv.map_values(|x: usize| x as int).push(
                        pos,
                    ));
                }
            },
            Pattern::GroupClose => {
                match c.pop() {
                    Some(start) => {
                        let end = iter.pos();
                        if start < end {
                            e.push(Range { start: start, end: end });
                        } else {
                            e.push(Range { start: end, end: end });
                        }
                        proof {
                            assert(c@.map_values(|x: usize| x as int) =~= cv.map_values(
                                |x: usize| x as int,
                            ).drop_last());
                            assert(env_view(e@) =~= env_view(ev).push(range_view(e@.last())));
                        }
                    },
                    None => {
                        proof {
                            assert(c@ =~= cv);
                        }
                    },
                }
            },
        }
        k = k + 1;
        proof {
            iter.lemma_wf();
        }
    }
    let p = iter.pos();
    Some((p, e))
}

/// Builds the replacement for a match that ended at `pos` with the captured
/// ranges `e`, and puts it in front of the symbols after `pos`. Gives none
/// where the result would be longer than a rope can hold.
pub fn execute_replace(template: &Vec<Template>, pos: usize, e: &Vec<Range<usize>>, dna: DnaRope) -> (r:
    Option<DnaRope>)
    requires
        dna.wf(),
        pos <= dna@.len(),
        ranges_within(e@, pos as int),
    ensures
        ({
            let expected = replacement(dna@, env_view(e@), template@) + dna@.skip(pos as int);
            &&& r matches Some(x) ==> x.wf() && x@ == expected
            &&& r is None <==> expected.len() > usize::MAX
        }),
{
    let ghost s = dna@;
    let ghost ev = env_view(e@);
    let ghost ts = template@;
    let ghost expected = replacement(s, ev, ts) + s.skip(pos as int);
    let mut head = dna;
    let mut postfix = head.split_off(pos);
    let mut env: Vec<Range<usize>> = Vec::new();
    let mut t: usize = 0;
    proof {
        assert(ts.take(0) =~= Seq::<Template>::empty());
        assert(env_view(env@) =~= Seq::<(int, int)>::empty());
    }
    while t < template.len()
        invariant
            ts == template@,
            ev == env_view(e@),
            ranges_within(e@, pos as int),
            t <= ts.len(),
            env_view(env@) == template_refs(ev, ts.take(t as int)),
            ranges_within(env@, pos as int),
            env@.len() == template_refs(ev, ts.take(t as int)).len(),
        decreases ts.len() - t,
    {
        let ghost before = env@;
        proof {
            assert(ts.take(t + 1).drop_last() =~= ts.take(t as int));
            assert(ts.take(t + 1).last() == ts[t as int]);
        }
        match template[t] {
            Template::NumberLevel(n, _) => {
                if n < e.len() as u64 && e[n as usize].start != e[n as usize].end {
                    env.push(Range { start: e[n as usize].start, end: e[n as usize].end });
                    proof {
                        assert(env_view(env@) =~= env_view(before).push(ev[n as int]));
                    }
                } else {
                    proof {
                        assert(env_view(env@) =~= env_view(before) + Seq::<(int, int)>::empty());
                    }
                }
            },
            _ => {
                proof {
                    assert(env_view(env@) =~= env_view(before) + Seq::<(int, int)>::empty());
                }
            },
        }
        t = t + 1;
    }
    let ghost refs = env_view(env@);
    proof {
        assert(ts.take(ts.len() as int) =~= ts);
    }
    let mut pieces = head.split_by_ranges(env.as_slice());
    let mut prefix = DnaRope::new();
    let mut r: Vec<Dna> = Vec::new();
    let ghost mut used: int = 0;
    t = 0;
    proof {
        assert(prefix@ + r@ =~= replacement(s, ev, ts.take(0)));
        assert forall|k: int| 0 <= k < pieces@.len() implies (#[trigger] pieces@[k]).wf() && pieces@[k]@
            == s.subrange(refs[used + k].0, refs[used + k].1) by {
            assert(s.take(pos as int).subrange(env@[k].start as int, env@[k].end as int) =~= s.subrange(
                refs[k].0,
                refs[k].1,
            ));
        }
    }
    while t < template.len()
        invariant
            ts == template@,
            ev == env_view(e@),
            s.len() >= pos,
            ranges_within(e@, pos as int),
            refs == template_refs(ev, ts),
            t <= ts.len(),
            0 <= used <= refs.len(),
            used == template_refs(ev, ts.take(t as int)).len(),
            pieces@.len() == refs.len() - used,
            forall|k: int| 0 <= k < pieces@.len() ==> (#[trigger] pieces@[k]).wf() && pieces@[k]@
                == s.subrange(refs[used + k].0, refs[used + k].1),
            prefix.wf(),
            prefix@.len() + r@.len() <= usize::MAX,
            prefix@ + r@ == replacement(s, ev, ts.take(t as int)),
            postfix.wf(),
            postfix@ == s.skip(pos as int),
            expected == replacement(s, ev, ts) + s.skip(pos as int),
            expected == replacement(dna@, env_view(e@), template@) + dna@.skip(pos as int),
        decreases ts.len() - t,
    {
        let ghost built = prefix@ + r@;
        proof {
            assert(ts.take(t + 1).drop_last() =~= ts.take(t as int));
            assert(ts.take(t + 1).last() == ts[t as int]);
            lemma_replacement_prefix(s, ev, ts, t + 1);
            lemma_template_refs_prefix(ev, ts, t + 1);
        }
        match template[t] {
            Template::Base(g) => {
                r.push(g);
                proof {
                    assert(prefix@ + r@ =~= built + seq![g]);
                    assert(template_item(s, ev, ts[t as int]) == seq![g]);
                    assert(replacement(s, ev, ts.take(t + 1)) =~= built + seq![g]);
                }
                if prefix.len() > usize::MAX - r.len() {
                    return None;
                }
            },
            Template::NumberLevel(n, l) => {
                if n < e.len() as u64 && e[n as usize].start != e[n as usize].end {
                    proof {
                        assert(refs[used] == ev[n as int]);
                        assert(pieces@[0]@ == group(s, ev, n as int));
                    }
                    let ghost old_pieces = pieces@;
                    let piece = pieces.remove(0);
                    proof {
                        used = used + 1;
                        assert forall|k: int| 0 <= k < pieces@.len() implies (#[trigger] pieces@[k]).wf()
                            && pieces@[k]@ == s.subrange(refs[used + k].0, refs[used + k].1) by {
                            assert(pieces@[k] == old_pieces[k + 1]);
                        }
                    }
                    if l == 0 {
                        let plen = piece.len();
                        proof {
                            assert(replacement(s, ev, ts.take(t + 1)) =~= built + group(s, ev, n as int));
                        }
                        if prefix.len() > usize::MAX - r.len() || prefix.len() + r.len() > usize::MAX - plen {
                            return None;
                        }
                        if r.len() > 0 {
                            prefix.append_dna(r);
                            r = Vec::new();
                        }
                        prefix.append(piece);
                        proof {
                            assert(prefix@ + r@ =~= built + group(s, ev, n as int));
                        }
                    } else {
                        let v = piece.as_vec();
                        let mut q = protect(l, v.as_slice());
                        r.append(&mut q);
                        if prefix.len() > usize::MAX - r.len() {
                            return None;
                        }
                        proof {
                            assert(prefix@ + r@ =~= built + protect_seq(l as nat, group(s, ev, n as int)));
                        }
                    }
                } else {
                    proof {
                        lemma_protect_empty(l as nat);
                        if n < e@.len() {
                            assert(group(s, ev, n as int) =~= Seq::<Dna>::empty());
                        }
                        assert(prefix@ + r@ =~= built + protect_seq(l as nat, group(s, ev, n as int)));
                    }
                }
            },
            Template::Length(n) => {
                let glen: usize = if n < e.len() as u64 {
                    e[n as usize].end - e[n as usize].start
                } else {
                    0
                };
                let mut q = asnat(glen as u64);
                r.append(&mut q);
                if prefix.len() > usize::MAX - r.len() {
                    return None;
                }
                proof {
                    assert(prefix@ + r@ =~= built + enc(group_len(ev, n as int)));
                }
            },
        }
        t = t + 1;
    }
    proof {
        assert(ts.take(t as int) =~= ts);
    }
    if r.len() > 0 {
        prefix.append_dna(r);
    }
    if prefix.len() > usize::MAX - postfix.len() {
        return None;
    }
    postfix.prepend(prefix);
    proof {
        postfix.lemma_len_bound();
    }
    Some(postfix)
}

/// One rewrite of `dna` (see `rewrite`). Where the pattern does not match,
/// gives back `dna` unchanged as an error; where the result would be longer
/// than a rope can hold, an empty rope as an error.
pub fn execute(pattern: Vec<Pattern>, template: Vec<Template>, dna: DnaRope) -> (r: Result<DnaRope, DnaRope>)
    requires
        dna.wf(),
    ensures
        match rewrite(dna@, pattern_view(pattern@), template@) {
            Some(x) => if x.len() <= usize::MAX {
                r matches Ok(y) && y.wf() && y@ == x
            } else {
                r matches Err(y) && y.wf() && y@.len() == 0
            },
            None => r matches Err(y) && y.wf() && y@ == dna@,
        },
{
    match execute_match(&pattern, &dna) {
        Some((pos, env)) => {
            match execute_replace(&template, pos, &env, dna) {
                Some(x) => Ok(x),
                None => Err(DnaRope::new()),
            }
        },
        None => Err(dna),
    }
}

} // verus!
