use vstd::prelude::*;

use crate::rna::{Rna, RnaAlpha, RnaColor};

verus! {

pub const WIDTH: u32 = 600;

pub const HEIGHT: u32 = 600;

/// Pixels in one layer.
pub const BITMAP_SIZE: usize = 360000;

/// The most layers the stack holds.
pub const MAX_LAYERS: usize = 10;

/// Red, green, blue, alpha.
pub type Pixel = (u8, u8, u8, u8);

/// Column, row.
pub type Position = (u32, u32);

/// A direction of movement.
#[derive(Clone, Copy, Debug, PartialEq, Eq, Structural)]
pub enum Dir {
    N,
    E,
    S,
    W,
}

/// The direction with the given index, clockwise from north.
pub open spec fn dir_of(i: nat) -> Dir {
    if i == 0 {
        Dir::N
    } else if i == 1 {
        Dir::E
    } else if i == 2 {
        Dir::S
    } else {
        Dir::W
    }
}

/// What a color adds to the bucket, one unit per channel it holds.
pub open spec fn color_unit(c: RnaColor) -> (u8, u8, u8) {
    match c {
        RnaColor::Black => (0, 0, 0),
        RnaColor::Red => (1, 0, 0),
        RnaColor::Green => (0, 1, 0),
        RnaColor::Yellow => (1, 1, 0),
        RnaColor::Blue => (0, 0, 1),
        RnaColor::Magenta => (1, 0, 1),
        RnaColor::Cyan => (0, 1, 1),
        RnaColor::White => (1, 1, 1),
    }
}

/// What an alpha adds to the bucket.
pub open spec fn alpha_unit(a: RnaAlpha) -> u8 {
    match a {
        RnaAlpha::Transparent => 0,
        RnaAlpha::Opaque => 1,
    }
}

/// Channel sums of the colors in the bucket.
pub open spec fn color_sum(cs: Seq<(u8, u8, u8)>) -> (nat, nat, nat)
    decreases cs.len(),
{
    if cs.len() == 0 {
        (0, 0, 0)
    } else {
        let s = color_sum(cs.drop_last());
        let c = cs.last();
        ((s.0 + c.0) as nat, (s.1 + c.1) as nat, (s.2 + c.2) as nat)
    }
}

/// Sum of the alphas in the bucket.
pub open spec fn alpha_sum(a: Seq<u8>) -> nat
    decreases a.len(),
{
    if a.len() == 0 {
        0
    } else {
        (alpha_sum(a.drop_last()) + a.last()) as nat
    }
}

/// The bucket's alpha: the average of its alphas scaled to 0..255, or 255
/// where it holds none.
pub open spec fn bucket_alpha(a: Seq<u8>) -> nat {
    if a.len() == 0 {
        255
    } else {
        alpha_sum(a) * 255 / a.len()
    }
}

/// The pixel the bucket paints: each channel's average, scaled by the alpha.
pub open spec fn bucket_pixel(cs: Seq<(u8, u8, u8)>, a: Seq<u8>) -> Pixel {
    let al = bucket_alpha(a);
    let n: nat = if cs.len() == 0 { 1 } else { cs.len() };
    let s = color_sum(cs);
    ((s.0 * al / n) as u8, (s.1 * al / n) as u8, (s.2 * al / n) as u8, al as u8)
}

/// The position one step in direction `d`, around the torus.
pub open spec fn moved(p: Position, d: nat) -> Position {
    if d == 0 {
        (p.0, ((p.1 + HEIGHT - 1) % (HEIGHT as int)) as u32)
    } else if d == 1 {
        (((p.0 + 1) % (WIDTH as int)) as u32, p.1)
    } else if d == 2 {
        (p.0, ((p.1 + 1) % (HEIGHT as int)) as u32)
    } else {
        (((p.0 + WIDTH - 1) % (WIDTH as int)) as u32, p.1)
    }
}

/// Where pixel `p` lies in a layer.
pub open spec fn pixel_index(p: Position) -> int {
    p.1 * WIDTH + p.0
}

/// A layer with the given places set to `px`, in order; places outside the
/// layer are passed over.
pub open spec fn paint(layer: Seq<Pixel>, places: Seq<int>, px: Pixel) -> Seq<Pixel>
    decreases places.len(),
{
    if places.len() == 0 {
        layer
    } else {
        let l = paint(layer, places.drop_last(), px);
        let i = places.last();
        if 0 <= i < l.len() {
            l.update(i, px)
        } else {
            l
        }
    }
}

/// Steps of a line between two positions: the larger of the two distances.
pub open spec fn line_steps(from: Position, to: Position) -> int {
    let dx = to.0 - from.0;
    let dy = to.1 - from.1;
    let ax = if dx < 0 { -dx } else { dx };
    let ay = if dy < 0 { -dy } else { dy };
    if ax > ay { ax } else { ay }
}

/// The place of the `k`-th point of a line (scaled coordinates divided by the
/// step count, starting half a step in), or -1 where it falls off the layer.
pub open spec fn line_place(from: Position, to: Position, k: int) -> int {
    let d = line_steps(from, to);
    let dx = to.0 - from.0;
    let dy = to.1 - from.1;
    let c: int = if dx * dy <= 0 { 1 } else { 0 };
    let x = from.0 * d + (d - c) / 2 + k * dx;
    let y = from.1 * d + (d - c) / 2 + k * dy;
    if d > 0 && x >= 0 && y >= 0 && x / d < WIDTH && y / d < HEIGHT {
        (y / d) * WIDTH + x / d
    } else {
        -1
    }
}

/// The places a line sets: one per step, then the end point.
pub open spec fn line_places(from: Position, to: Position) -> Seq<int> {
    let d = line_steps(from, to);
    Seq::new((d + 1) as nat, |k: int| if k < d { line_place(from, to, k) } else { pixel_index(to) })
}

/// A pixel of `top` under the pixel `over` of the removed layer.
pub open spec fn compose_pixel(over: Pixel, top: Pixel) -> Pixel {
    let k = 255 - over.3;
    (
        ((over.0 + top.0 * k / 255) % 256) as u8,
        ((over.1 + top.1 * k / 255) % 256) as u8,
        ((over.2 + top.2 * k / 255) % 256) as u8,
        ((over.3 + top.3 * k / 255) % 256) as u8,
    )
}

/// A pixel of `top` scaled by the alpha of the pixel `mask` of the removed
/// layer.
pub open spec fn clip_pixel(mask: Pixel, top: Pixel) -> Pixel {
    let a = mask.3;
    ((top.0 * a / 255) as u8, (top.1 * a / 255) as u8, (top.2 * a / 255) as u8, (top.3 * a / 255) as u8)
}

/// Every layer has the full size.
pub open spec fn layers_sized(ls: Seq<Seq<Pixel>>) -> bool {
    forall|i: int| 0 <= i < ls.len() ==> (#[trigger] ls[i]).len() == BITMAP_SIZE
}

/// Two positions of a layer that share a side.
pub open spec fn adjacent(p: Position, q: Position) -> bool {
    &&& p.0 < WIDTH && p.1 < HEIGHT && q.0 < WIDTH && q.1 < HEIGHT
    &&& (p.1 == q.1 && (p.0 + 1 == q.0 || q.0 + 1 == p.0)) || (p.0 == q.0 && (p.1 + 1 == q.1 || q.1 + 1
        == p.1))
}

/// `path` leads from `from` to `to` through positions sharing sides, all of
/// whose pixels in `layer` equal `initial`.
pub open spec fn is_path(layer: Seq<Pixel>, initial: Pixel, from: Position, to: Position, path: Seq<Position>) -> bool {
    &&& path.len() >= 1
    &&& path[0] == from
    &&& path.last() == to
    &&& forall|i: int| 0 <= i < path.len() ==> layer[pixel_index(#[trigger] path[i])] == initial
    &&& forall|i: int| 0 <= i < path.len() - 1 ==> adjacent(#[trigger] path[i], path[i + 1])
}

/// A fill of `layer` from `start`, replacing pixels equal to `initial` by
/// `new`: the start pixel is replaced; no pixel changes but from `initial` to
/// `new`; every replaced pixel is reached from the start through pixels equal
/// to `initial`; and no pixel left equal to `initial` shares a side with a
/// replaced one. So exactly the region of `initial` around the start is
/// replaced.
pub open spec fn fill_done(layer: Seq<Pixel>, result: Seq<Pixel>, start: Position, initial: Pixel, new: Pixel) -> bool {
    &&& result.len() == layer.len()
    &&& result[pixel_index(start)] == new
    &&& forall|q: Position|
        q.0 < WIDTH && q.1 < HEIGHT && #[trigger] result[pixel_index(q)] != layer[pixel_index(q)] ==> exists|
            path: Seq<Position>,
        | is_path(layer, initial, start, q, path)
    &&& forall|i: int| 0 <= i < layer.len() ==> #[trigger] result[i] == layer[i] || (layer[i] == initial
        && result[i] == new)
    &&& forall|p: Position, q: Position|
        #[trigger] adjacent(p, q) && result[pixel_index(p)] != layer[pixel_index(p)] ==> result[pixel_index(q)]
            != initial
}

proof fn lemma_index_injective(p: Position, q: Position)
    requires
        p.0 < WIDTH && p.1 < HEIGHT,
        q.0 < WIDTH && q.1 < HEIGHT,
        pixel_index(p) == pixel_index(q),
    ensures
        p == q,
{
}

proof fn lemma_index_range(p: Position)
    requires
        p.0 < WIDTH && p.1 < HEIGHT,
    ensures
        0 <= pixel_index(p) < BITMAP_SIZE,
{
}

/// How many pixels of `s` equal `v`.
pub open spec fn count_eq(s: Seq<Pixel>, v: Pixel) -> nat
    decreases s.len(),
{
    if s.len() == 0 {
        0
    } else {
        count_eq(s.drop_last(), v) + if s.last() == v { 1nat } else { 0nat }
    }
}

proof fn lemma_count_update(s: Seq<Pixel>, i: int, v: Pixel, w: Pixel)
    requires
        0 <= i < s.len(),
        s[i] == v,
        w != v,
    ensures
        count_eq(s.update(i, w), v) + 1 == count_eq(s, v),
    decreases s.len(),
{
    if i == s.len() - 1 {
        assert(s.update(i, w).drop_last() =~= s.drop_last());
    } else {
        assert(s.update(i, w).drop_last() =~= s.drop_last().update(i, w));
        lemma_count_update(s.drop_last(), i, v, w);
    }
}

proof fn lemma_paint_len(layer: Seq<Pixel>, places: Seq<int>, px: Pixel)
    ensures
        paint(layer, places, px).len() == layer.len(),
    decreases places.len(),
{
    if places.len() > 0 {
        lemma_paint_len(layer, places.drop_last(), px);
    }
}

/// The in-layer positions that share a side with `q`, in the order a fill
/// visits them.
pub open spec fn neighbours(q: Position) -> Seq<Position> {
    (if q.0 > 0 { seq![((q.0 - 1) as u32, q.1)] } else { Seq::empty() }) + (if q.0 + 1 < WIDTH {
        seq![((q.0 + 1) as u32, q.1)]
    } else {
        Seq::empty()
    }) + (if q.1 > 0 { seq![(q.0, (q.1 - 1) as u32)] } else { Seq::empty() }) + (if q.1 + 1 < HEIGHT {
        seq![(q.0, (q.1 + 1) as u32)]
    } else {
        Seq::empty()
    })
}

/// What holds between the steps of a fill from `p` of `orig`, now `bm`, with
/// the places `work` still to visit.
#[verifier::opaque]
pub open spec fn fill_inv(
    orig: Seq<Pixel>,
    bm: Seq<Pixel>,
    work: Seq<Position>,
    p: Position,
    initial: Pixel,
    new: Pixel,
) -> bool {
    &&& forall|i: int| 0 <= i < BITMAP_SIZE ==> #[trigger] bm[i] == orig[i] || (orig[i] == initial && bm[i] == new)
    &&& forall|j: int| 0 <= j < work.len() ==> (#[trigger] work[j]).0 < WIDTH && work[j].1 < HEIGHT
    &&& forall|a: Position, b: Position|
        #[trigger] adjacent(a, b) && bm[pixel_index(a)] != orig[pixel_index(a)] ==> bm[pixel_index(b)] != initial
            || work.contains(b)
    &&& forall|q: Position|
        q.0 < WIDTH && q.1 < HEIGHT && #[trigger] bm[pixel_index(q)] != orig[pixel_index(q)] ==> exists|
            path: Seq<Position>,
        | is_path(orig, initial, p, q, path)
    &&& forall|j: int|
        0 <= j < work.len() ==> #[trigger] work[j] == p || exists|a: Position|
            #[trigger] adjacent(a, work[j]) && bm[pixel_index(a)] != orig[pixel_index(a)]
}

proof fn lemma_fill_start(orig: Seq<Pixel>, p: Position, initial: Pixel, new: Pixel)
    requires
        p.0 < WIDTH && p.1 < HEIGHT,
    ensures
        fill_inv(orig, orig, seq![p], p, initial, new),
{
    reveal(fill_inv);
}

proof fn lemma_fill_end(orig: Seq<Pixel>, bm: Seq<Pixel>, p: Position, initial: Pixel, new: Pixel)
    requires
        fill_inv(orig, bm, Seq::empty(), p, initial, new),
        bm.len() == orig.len(),
        bm[pixel_index(p)] == new,
        orig.len() == BITMAP_SIZE,
    ensures
        fill_done(orig, bm, p, initial, new),
{
    reveal(fill_inv);
}

/// Visiting `q`, the last place to visit, which is no longer `initial`.
proof fn lemma_fill_skip(
    orig: Seq<Pixel>,
    bm: Seq<Pixel>,
    prev: Seq<Position>,
    q: Position,
    p: Position,
    initial: Pixel,
    new: Pixel,
)
    requires
        fill_inv(orig, bm, prev, p, initial, new),
        prev.len() > 0,
        prev.last() == q,
        bm.len() == BITMAP_SIZE,
        bm[pixel_index(q)] != initial,
    ensures
        fill_inv(orig, bm, prev.drop_last(), p, initial, new),
{
    reveal(fill_inv);
    let work = prev.drop_last();
    assert forall|b: Position| prev.contains(b) && b != q implies work.contains(b) by {
        let k = choose|k: int| 0 <= k < prev.len() && prev[k] == b;
        assert(work[k] == b);
    }
    assert forall|a: Position, b: Position|
        #[trigger] adjacent(a, b) && bm[pixel_index(a)] != orig[pixel_index(a)] implies bm[pixel_index(b)]
            != initial || work.contains(b) by {
        if b != q && !(bm[pixel_index(b)] != initial) {
            assert(prev.contains(b));
        }
    }
    assert forall|j: int| 0 <= j < work.len() implies #[trigger] work[j] == p || exists|a: Position|
        #[trigger] adjacent(a, work[j]) && bm[pixel_index(a)] != orig[pixel_index(a)] by {
        assert(work[j] == prev[j]);
    }
}

/// Visiting `q`, the last place to visit, which is still `initial`: it is
/// replaced and its neighbours are queued.
#[verifier::rlimit(100)]
#[verifier::spinoff_prover]
proof fn lemma_fill_set(
    orig: Seq<Pixel>,
    bm: Seq<Pixel>,
    prev: Seq<Position>,
    q: Position,
    p: Position,
    initial: Pixel,
    new: Pixel,
)
    requires
        fill_inv(orig, bm, prev, p, initial, new),
        prev.len() > 0,
        prev.last() == q,
        bm.len() == BITMAP_SIZE,
        orig.len() == BITMAP_SIZE,
        orig[pixel_index(p)] == initial,
        initial != new,
        bm[pixel_index(q)] == initial,
    ensures
        fill_inv(orig, bm.update(pixel_index(q), new), prev.drop_last() + neighbours(q), p, initial, new),
{
    reveal(fill_inv);
    let kept = prev.drop_last();
    let work = kept + neighbours(q);
    let after = bm.update(pixel_index(q), new);
    let idx = pixel_index(q);
    assert(prev[prev.len() - 1] == q);
    assert(q.0 < WIDTH && q.1 < HEIGHT);
    lemma_index_range(q);
    assert(orig[idx] == initial);
    let mut path_q: Seq<Position> = seq![p];
    if q != p {
        let a = choose|a: Position|
            #[trigger] adjacent(a, prev[prev.len() - 1]) && bm[pixel_index(a)] != orig[pixel_index(a)];
        assert(adjacent(a, q));
        let pa = choose|pa: Seq<Position>| is_path(orig, initial, p, a, pa);
        path_q = pa.push(q);
        assert forall|i: int| 0 <= i < path_q.len() implies orig[pixel_index(#[trigger] path_q[i])] == initial by {
            if i < pa.len() {
                assert(path_q[i] == pa[i]);
            }
        }
        assert forall|i: int| 0 <= i < path_q.len() - 1 implies adjacent(#[trigger] path_q[i], path_q[i + 1]) by {
            if i < pa.len() - 1 {
                assert(path_q[i] == pa[i]);
                assert(path_q[i + 1] == pa[i + 1]);
            } else {
                assert(path_q[i] == a);
            }
        }
    }
    assert(is_path(orig, initial, p, q, path_q));
    assert forall|b: Position| kept.contains(b) implies work.contains(b) by {
        let k = choose|k: int| 0 <= k < kept.len() && kept[k] == b;
        assert(work[k] == b);
    }
    assert forall|b: Position| prev.contains(b) && b != q implies work.contains(b) by {
        let k = choose|k: int| 0 <= k < prev.len() && prev[k] == b;
        assert(kept[k] == b);
    }
    assert forall|b: Position| #[trigger] adjacent(q, b) implies work.contains(b) by {
        let n = neighbours(q);
        let t: int = if b.0 + 1 == q.0 && b.1 == q.1 {
            0
        } else if q.0 + 1 == b.0 && b.1 == q.1 {
            if q.0 > 0 { 1 } else { 0 }
        } else if b.1 + 1 == q.1 {
            (if q.0 > 0 { 1int } else { 0int }) + (if q.0 + 1 < WIDTH { 1int } else { 0int })
        } else {
            (if q.0 > 0 { 1int } else { 0int }) + (if q.0 + 1 < WIDTH { 1int } else { 0int }) + (if q.1 > 0 {
                1int
            } else {
                0int
            })
        };
        assert(n[t] == b);
        assert(work[kept.len() + t] == b);
    }
    assert forall|i: int| 0 <= i < BITMAP_SIZE implies #[trigger] after[i] == orig[i] || (orig[i] == initial
        && after[i] == new) by {
        if i != idx {
            assert(after[i] == bm[i]);
        }
    }
    assert forall|j: int| 0 <= j < work.len() implies (#[trigger] work[j]).0 < WIDTH && work[j].1 < HEIGHT by {
        if j < kept.len() {
            assert(work[j] == prev[j]);
        } else {
            assert(work[j] == neighbours(q)[j - kept.len()]);
        }
    }
    assert forall|a: Position, b: Position|
        #[trigger] adjacent(a, b) && after[pixel_index(a)] != orig[pixel_index(a)] implies after[pixel_index(b)]
            != initial || work.contains(b) by {
        lemma_index_range(a);
        lemma_index_range(b);
        if a != q {
            if pixel_index(a) == idx {
                lemma_index_injective(a, q);
            }
            assert(bm[pixel_index(a)] != orig[pixel_index(a)]);
            if b != q {
                if pixel_index(b) == idx {
                    lemma_index_injective(b, q);
                }
                if !(bm[pixel_index(b)] != initial) {
                    assert(prev.contains(b));
                }
            }
        }
    }
    assert forall|r: Position|
        r.0 < WIDTH && r.1 < HEIGHT && #[trigger] after[pixel_index(r)] != orig[pixel_index(r)] implies exists|
            path: Seq<Position>,
        | is_path(orig, initial, p, r, path) by {
        lemma_index_range(r);
        if r == q {
            assert(is_path(orig, initial, p, r, path_q));
        } else {
            if pixel_index(r) == idx {
                lemma_index_injective(r, q);
            }
            assert(bm[pixel_index(r)] != orig[pixel_index(r)]);
        }
    }
    assert forall|j: int| 0 <= j < work.len() implies #[trigger] work[j] == p || exists|a: Position|
        #[trigger] adjacent(a, work[j]) && after[pixel_index(a)] != orig[pixel_index(a)] by {
        if j < kept.len() {
            assert(work[j] == prev[j]);
            if work[j] != p {
                let a = choose|a: Position|
                    #[trigger] adjacent(a, prev[j]) && bm[pixel_index(a)] != orig[pixel_index(a)];
                lemma_index_range(a);
                if a != q && pixel_index(a) == idx {
                    lemma_index_injective(a, q);
                }
                assert(adjacent(a, work[j]) && after[pixel_index(a)] != orig[pixel_index(a)]);
            }
        } else {
            let t = j - kept.len();
            assert(work[j] == neighbours(q)[t]);
            assert(adjacent(q, work[j]));
            assert(after[idx] != orig[idx]);
        }
    }
}

/// Fills from `p` (see `fill_done`), with an explicit list of places to visit.
fn fill(bm: &mut Vec<Pixel>, p: Position, initial: Pixel, new: Pixel)
    requires
        old(bm)@.len() == BITMAP_SIZE,
        p.0 < WIDTH && p.1 < HEIGHT,
        old(bm)@[pixel_index(p)] == initial,
        initial != new,
    ensures
        fill_done(old(bm)@, final(bm)@, p, initial, new),
{
    let ghost start = pixel_index(p);
    let ghost orig = bm@;
    let mut work: Vec<Position> = Vec::new();
    work.push(p);
    let mut first = true;
    proof {
        lemma_index_range(p);
        lemma_fill_start(orig, p, initial, new);
    }
    while work.len() > 0
        invariant
            bm@.len() == BITMAP_SIZE,
            orig == old(bm)@,
            orig.len() == BITMAP_SIZE,
            0 <= start < BITMAP_SIZE,
            start == pixel_index(p),
            first ==> bm@ == orig && work@ == seq![p],
            !first ==> bm@[start] == new,
            fill_inv(orig, bm@, work@, p, initial, new),
            orig[start] == initial,
            initial != new,
        decreases 5 * count_eq(bm@, initial) + work@.len(),
    {
        let ghost prev = work@;
        let ghost before = bm@;
        let q = work.pop().unwrap();
        proof {
            assert(prev == work@.push(q));
            assert(prev[prev.len() - 1] == q);
            reveal(fill_inv);
            lemma_index_range(q);
        }
        let idx = (q.1 * WIDTH + q.0) as usize;
        if same_pixel(bm[idx], initial) {
            proof {
                lemma_count_update(bm@, idx as int, initial, new);
                lemma_fill_set(orig, before, prev, q, p, initial, new);
            }
            bm.set(idx, new);
            let ghost kept = work@;
            if q.0 > 0 {
                work.push((q.0 - 1, q.1));
            }
            if q.0 < WIDTH - 1 {
                work.push((q.0 + 1, q.1));
            }
            if q.1 > 0 {
                work.push((q.0, q.1 - 1));
            }
            if q.1 < HEIGHT - 1 {
                work.push((q.0, q.1 + 1));
            }
            proof {
                assert(work@ =~= kept + neighbours(q));
                if !first && start != idx {
                    assert(bm@[start] == before[start]);
                }
            }
        } else {
            proof {
                lemma_fill_skip(orig, bm@, prev, q, p, initial, new);
                assert(work@ =~= prev.drop_last());
            }
        }
        first = false;
    }
    proof {
        assert(work@ =~= Seq::<Position>::empty());
        lemma_fill_end(orig, bm@, p, initial, new);
    }
}

/// Sets the places of a line from `from` to `to` (see `line_places`).
fn line(bm: &mut Vec<Pixel>, from: Position, to: Position, pixel: Pixel)
    requires
        old(bm)@.len() == BITMAP_SIZE,
        from.0 < WIDTH && from.1 < HEIGHT,
        to.0 < WIDTH && to.1 < HEIGHT,
    ensures
        final(bm)@ == paint(old(bm)@, line_places(from, to), pixel),
{
    let ghost places = line_places(from, to);
    let deltax: i64 = to.0 as i64 - from.0 as i64;
    let deltay: i64 = to.1 as i64 - from.1 as i64;
    let ax: i64 = if deltax < 0 {
        -deltax
    } else {
        deltax
    };
    let ay: i64 = if deltay < 0 {
        -deltay
    } else {
        deltay
    };
    let d: i64 = if ax > ay {
        ax
    } else {
        ay
    };
    proof {
        assert(d == line_steps(from, to));
        assert(places.take(0) =~= Seq::<int>::empty());
        assert(bm@ == paint(old(bm)@, places.take(0), pixel));
    }
    if d > 0 {
        proof {
            assert(-360000 < deltax * deltay < 360000) by (nonlinear_arith)
                requires
                    -600 < deltax < 600,
                    -600 < deltay < 600,
            ;
            assert(0 <= from.0 * d <= 600 * 600) by (nonlinear_arith)
                requires
                    0 <= from.0 < 600,
                    0 < d < 600,
            ;
            assert(0 <= from.1 * d <= 600 * 600) by (nonlinear_arith)
                requires
                    0 <= from.1 < 600,
                    0 < d < 600,
            ;
        }
        let c: i64 = if deltax * deltay <= 0 {
            1
        } else {
            0
        };
        let off: i64 = (d - c) / 2;
        let mut x: i64 = from.0 as i64 * d + off;
        let mut y: i64 = from.1 as i64 * d + off;
        let mut k: i64 = 0;
        while k < d
            invariant
                bm@.len() == BITMAP_SIZE,
                places == line_places(from, to),
                d == line_steps(from, to),
                0 < d < 600,
                -600 < deltax < 600,
                -600 < deltay < 600,
                deltax == to.0 - from.0,
                deltay == to.1 - from.1,
                c == (if deltax * deltay <= 0 { 1int } else { 0int }),
                off == (d - c) / 2,
                0 <= off <= d,
                0 <= k <= d,
                0 <= from.0 * d <= 360000,
                0 <= from.1 * d <= 360000,
                x == from.0 * d + off + k * deltax,
                y == from.1 * d + off + k * deltay,
                -1000000 < x < 1000000,
                -1000000 < y < 1000000,
                bm@ == paint(old(bm)@, places.take(k as int), pixel),
            decreases d - k,
        {
            let ghost before = bm@;
            proof {
                assert(places.take(k + 1).drop_last() =~= places.take(k as int));
                assert(places[k as int] == line_place(from, to, k as int));
            }
            if x >= 0 && y >= 0 {
                let px = (x as u64) / (d as u64);
                let py = (y as u64) / (d as u64);
                if px < WIDTH as u64 && py < HEIGHT as u64 {
                    let idx = (py * WIDTH as u64 + px) as usize;
                    bm.set(idx, pixel);
                }
            }
            proof {
                assert(bm@ == paint(old(bm)@, places.take(k + 1), pixel));
                assert(-360000 < (k + 1) * deltax < 360000) by (nonlinear_arith)
                    requires
                        0 <= k < d < 600,
                        -600 < deltax < 600,
                ;
                assert(-360000 < (k + 1) * deltay < 360000) by (nonlinear_arith)
                    requires
                        0 <= k < d < 600,
                        -600 < deltay < 600,
                ;
                assert((k + 1) * deltax == k * deltax + deltax) by (nonlinear_arith);
                assert((k + 1) * deltay == k * deltay + deltay) by (nonlinear_arith);
            }
            x = x + deltax;
            y = y + deltay;
            k = k + 1;
        }
    }
    proof {
        lemma_paint_len(old(bm)@, places.take(d as int), pixel);
    }
    let ghost before = bm@;
    let idx = (to.1 * WIDTH + to.0) as usize;
    bm.set(idx, pixel);
    proof {
        assert(places.take(d as int) =~= places.drop_last());
        assert(places.take(d as int) == places.drop_last());
        assert(places.last() == pixel_index(to));
    }
}

/// Byte `n` of a layer laid out as red, green, blue, alpha per pixel, the
/// alpha of the top layer shown as 255.
pub open spec fn layer_byte(layer: Seq<Pixel>, top: bool, n: int) -> u8 {
    let p = layer[n / 4];
    if n % 4 == 0 {
        p.0
    } else if n % 4 == 1 {
        p.1
    } else if n % 4 == 2 {
        p.2
    } else if top {
        255
    } else {
        p.3
    }
}

/// The whole state of a renderer.
pub struct RenderState {
    pub layers: Seq<Seq<Pixel>>,
    pub colors: Seq<(u8, u8, u8)>,
    pub alphas: Seq<u8>,
    pub dir: nat,
    pub position: Position,
    pub mark: Position,
}

/// A blank layer.
pub open spec fn blank_layer() -> Seq<Pixel> {
    Seq::new(BITMAP_SIZE as nat, |i: int| (0u8, 0u8, 0u8, 0u8))
}

/// The effect of one instruction, flood fill aside (see `fill_step`).
pub open spec fn render_step(st: RenderState, cmd: Rna) -> RenderState {
    match cmd {
        Rna::AddColor(c) => RenderState { colors: st.colors.push(color_unit(c)), ..st },
        Rna::AddAlpha(a) => RenderState { alphas: st.alphas.push(alpha_unit(a)), ..st },
        Rna::EmptyBucket => RenderState { colors: Seq::empty(), alphas: Seq::empty(), ..st },
        Rna::Move => RenderState { position: moved(st.position, st.dir), ..st },
        Rna::TurnCounterClockwise => RenderState { dir: (st.dir + 3) % 4, ..st },
        Rna::TurnClockwise => RenderState { dir: (st.dir + 1) % 4, ..st },
        Rna::Mark => RenderState { mark: st.position, ..st },
        Rna::Line => RenderState {
            layers: st.layers.update(
                0,
                paint(st.layers[0], line_places(st.position, st.mark), bucket_pixel(st.colors, st.alphas)),
            ),
            ..st
        },
        Rna::AddBitmap => if st.layers.len() != MAX_LAYERS {
            RenderState { layers: seq![blank_layer()] + st.layers, ..st }
        } else {
            st
        },
        Rna::Compose => if st.layers.len() >= 2 {
            RenderState {
                layers: seq![
                    Seq::new(
                        BITMAP_SIZE as nat,
                        |i: int| compose_pixel(st.layers[0][i], st.layers[1][i]),
                    ),
                ] + st.layers.skip(2),
                ..st
            }
        } else {
            st
        },
        Rna::Clip => if st.layers.len() >= 2 {
            RenderState {
                layers: seq![
                    Seq::new(BITMAP_SIZE as nat, |i: int| clip_pixel(st.layers[0][i], st.layers[1][i])),
                ] + st.layers.skip(2),
                ..st
            }
        } else {
            st
        },
        _ => st,
    }
}

/// The effect of a flood fill: from the current position, with the bucket's
/// pixel, on the top layer; nothing changes where the pixel there already is
/// the bucket's.
pub open spec fn fill_step(a: RenderState, b: RenderState) -> bool {
    let start = pixel_index(a.position);
    let initial = a.layers[0][start];
    let px = bucket_pixel(a.colors, a.alphas);
    &&& b == RenderState { layers: b.layers, ..a }
    &&& b.layers.len() == a.layers.len()
    &&& forall|i: int| 1 <= i < a.layers.len() ==> #[trigger] b.layers[i] == a.layers[i]
    &&& initial == px ==> b.layers[0] == a.layers[0]
    &&& initial != px ==> fill_done(a.layers[0], b.layers[0], a.position, initial, px)
}

fn bucket_color(c: RnaColor) -> (r: (u8, u8, u8))
    ensures
        r == color_unit(c),
{
    match c {
        RnaColor::Black => (0, 0, 0),
        RnaColor::Red => (1, 0, 0),
        RnaColor::Green => (0, 1, 0),
        RnaColor::Yellow => (1, 1, 0),
        RnaColor::Blue => (0, 0, 1),
        RnaColor::Magenta => (1, 0, 1),
        RnaColor::Cyan => (0, 1, 1),
        RnaColor::White => (1, 1, 1),
    }
}

fn bucket_alpha_of(a: RnaAlpha) -> (r: u8)
    ensures
        r == alpha_unit(a),
{
    match a {
        RnaAlpha::Transparent => 0,
        RnaAlpha::Opaque => 1,
    }
}

fn compose_px(over: Pixel, top: Pixel) -> (r: Pixel)
    ensures
        r == compose_pixel(over, top),
{
    let k: u32 = 255 - over.3 as u32;
    proof {
        assert(top.0 * k <= 255 * 255) by (nonlinear_arith)
            requires
                top.0 <= 255,
                k <= 255,
        ;
        assert(top.1 * k <= 255 * 255) by (nonlinear_arith)
            requires
                top.1 <= 255,
                k <= 255,
        ;
        assert(top.2 * k <= 255 * 255) by (nonlinear_arith)
            requires
                top.2 <= 255,
                k <= 255,
        ;
        assert(top.3 * k <= 255 * 255) by (nonlinear_arith)
            requires
                top.3 <= 255,
                k <= 255,
        ;
    }
    (
        ((over.0 as u32 + top.0 as u32 * k / 255) % 256) as u8,
        ((over.1 as u32 + top.1 as u32 * k / 255) % 256) as u8,
        ((over.2 as u32 + top.2 as u32 * k / 255) % 256) as u8,
        ((over.3 as u32 + top.3 as u32 * k / 255) % 256) as u8,
    )
}

fn clip_px(mask: Pixel, top: Pixel) -> (r: Pixel)
    ensures
        r == clip_pixel(mask, top),
{
    let a: u32 = mask.3 as u32;
    proof {
        assert(top.0 * a / 255 <= 255) by (nonlinear_arith)
            requires
                top.0 <= 255,
                a <= 255,
        ;
        assert(top.1 * a / 255 <= 255) by (nonlinear_arith)
            requires
                top.1 <= 255,
                a <= 255,
        ;
        assert(top.2 * a / 255 <= 255) by (nonlinear_arith)
            requires
                top.2 <= 255,
                a <= 255,
        ;
        assert(top.3 * a / 255 <= 255) by (nonlinear_arith)
            requires
                top.3 <= 255,
                a <= 255,
        ;
    }
    (
        (top.0 as u32 * a / 255) as u8,
        (top.1 as u32 * a / 255) as u8,
        (top.2 as u32 * a / 255) as u8,
        (top.3 as u32 * a / 255) as u8,
    )
}

/// `b` is a state that instruction `cmd` can lead to from `a`.
pub open spec fn render_rel(a: RenderState, cmd: Rna, b: RenderState) -> bool {
    if cmd is TryFill {
        fill_step(a, b)
    } else {
        b == render_step(a, cmd)
    }
}

/// `states` is a run of the instructions `cmds`: each state follows from the
/// one before it by the instruction between them.
pub open spec fn render_run(states: Seq<RenderState>, cmds: Seq<Rna>) -> bool {
    &&& states.len() == cmds.len() + 1
    &&& forall|i: int| 0 <= i < cmds.len() ==> render_rel(#[trigger] states[i], cmds[i], states[i + 1])
}

/// Executes render instructions over a stack of layers.
pub struct RnaRenderer {
    bitmaps: Vec<Vec<Pixel>>,
    bucket_color: Vec<(u8, u8, u8)>,
    bucker_alpha: Vec<u8>,
    dir_index: usize,
    position: Position,
    mark: Position,
}

impl Default for RnaRenderer {
    fn default() -> (r: RnaRenderer)
        ensures
            r.wf(),
            r.layers().len() == 1,
            r.colors().len() == 0,
            r.alphas().len() == 0,
            r.dir_view() == 1,
            r.position_view() == (0u32, 0u32),
            r.mark_view() == (0u32, 0u32),
    {
        RnaRenderer::new()
    }
}

fn new_bitmap() -> (r: Vec<Pixel>)
    ensures
        r@.len() == BITMAP_SIZE,
        forall|i: int| 0 <= i < BITMAP_SIZE ==> #[trigger] r@[i] == (0u8, 0u8, 0u8, 0u8),
{
    let mut r: Vec<Pixel> = Vec::with_capacity(BITMAP_SIZE);
    let mut i: usize = 0;
    while i < BITMAP_SIZE
        invariant
            i <= BITMAP_SIZE,
            r@.len() == i,
            forall|j: int| 0 <= j < i ==> #[trigger] r@[j] == (0u8, 0u8, 0u8, 0u8),
        decreases BITMAP_SIZE - i,
    {
        r.push((0, 0, 0, 0));
        i = i + 1;
    }
    r
}

fn same_pixel(a: Pixel, b: Pixel) -> (r: bool)
    ensures
        r == (a == b),
{
    a.0 == b.0 && a.1 == b.1 && a.2 == b.2 && a.3 == b.3
}

impl RnaRenderer {
    /// The layers, the top one first.
    pub closed spec fn layers(&self) -> Seq<Seq<Pixel>> {
        self.bitmaps@.map_values(|b: Vec<Pixel>| b@)
    }

    /// The colors in the bucket.
    pub closed spec fn colors(&self) -> Seq<(u8, u8, u8)> {
        self.bucket_color@
    }

    /// The alphas in the bucket.
    pub closed spec fn alphas(&self) -> Seq<u8> {
        self.bucker_alpha@
    }

    /// The index of the direction (see `dir_of`).
    pub closed spec fn dir_view(&self) -> nat {
        self.dir_index as nat
    }

    pub closed spec fn position_view(&self) -> Position {
        self.position
    }

    pub closed spec fn mark_view(&self) -> Position {
        self.mark
    }

    pub open spec fn wf(&self) -> bool {
        &&& 1 <= self.layers().len() <= MAX_LAYERS
        &&& layers_sized(self.layers())
        &&& self.dir_view() < 4
        &&& self.position_view().0 < WIDTH && self.position_view().1 < HEIGHT
        &&& self.mark_view().0 < WIDTH && self.mark_view().1 < HEIGHT
        &&& forall|i: int| 0 <= i < self.colors().len() ==> (#[trigger] self.colors()[i]).0 <= 1
            && self.colors()[i].1 <= 1 && self.colors()[i].2 <= 1
        &&& forall|i: int| 0 <= i < self.alphas().len() ==> #[trigger] self.alphas()[i] <= 1
    }

    /// One blank layer, an empty bucket, at the origin facing east.
    pub fn new() -> (r: RnaRenderer)
        ensures
            r.wf(),
            r.layers().len() == 1,
            forall|i: int| 0 <= i < BITMAP_SIZE ==> #[trigger] r.layers()[0][i] == (0u8, 0u8, 0u8, 0u8),
            r.colors().len() == 0,
            r.alphas().len() == 0,
            r.dir_view() == 1,
            r.position_view() == (0u32, 0u32),
            r.mark_view() == (0u32, 0u32),
    {
        let mut bitmaps: Vec<Vec<Pixel>> = Vec::new();
        bitmaps.push(new_bitmap());
        let r = RnaRenderer {
            bitmaps,
            bucket_color: Vec::new(),
            bucker_alpha: Vec::new(),
            dir_index: 1,
            position: (0, 0),
            mark: (0, 0),
        };
        assert(r.layers().len() == 1);
        r
    }

    /// The whole state.
    pub open spec fn state(&self) -> RenderState {
        RenderState {
            layers: self.layers(),
            colors: self.colors(),
            alphas: self.alphas(),
            dir: self.dir_view(),
            position: self.position_view(),
            mark: self.mark_view(),
        }
    }

    /// The pixel the bucket paints (see `bucket_pixel`).
    pub fn current_pixel(&self) -> (r: Pixel)
        requires
            self.wf(),
        ensures
            r == bucket_pixel(self.colors(), self.alphas()),
    {
        let ghost cs = self.colors();
        let ghost al = self.alphas();
        let mut c0: u64 = 0;
        let mut c1: u64 = 0;
        let mut c2: u64 = 0;
        let mut i: usize = 0;
        while i < self.bucket_color.len()
            invariant
                self.wf(),
                cs == self.colors(),
                i <= cs.len(),
                (c0 as nat, c1 as nat, c2 as nat) == color_sum(cs.take(i as int)),
                c0 <= i && c1 <= i && c2 <= i,
            decreases cs.len() - i,
        {
            assert(cs.take(i + 1).drop_last() =~= cs.take(i as int));
            let c = self.bucket_color[i];
            c0 = c0 + c.0 as u64;
            c1 = c1 + c.1 as u64;
            c2 = c2 + c.2 as u64;
            i = i + 1;
        }
        assert(cs.take(cs.len() as int) =~= cs);
        let mut sa: u64 = 0;
        let mut j: usize = 0;
        while j < self.bucker_alpha.len()
            invariant
                self.wf(),
                al == self.alphas(),
                j <= al.len(),
                sa as nat == alpha_sum(al.take(j as int)),
                sa <= j,
            decreases al.len() - j,
        {
            assert(al.take(j + 1).drop_last() =~= al.take(j as int));
            sa = sa + self.bucker_alpha[j] as u64;
            j = j + 1;
        }
        assert(al.take(al.len() as int) =~= al);
        let na = self.bucker_alpha.len() as u128;
        let a: u128 = if na == 0 {
            255
        } else {
            sa as u128 * 255 / na
        };
        proof {
            if na > 0 {
                assert((sa as int) * 255 / (na as int) <= 255) by (nonlinear_arith)
                    requires
                        sa <= na,
                        na > 0,
                ;
            }
        }
        let n: u128 = if self.bucket_color.len() == 0 {
            1
        } else {
            self.bucket_color.len() as u128
        };
        proof {
            assert((c0 as int) * (a as int) <= n * 255) by (nonlinear_arith)
                requires
                    c0 <= n,
                    a <= 255,
            ;
            assert((c1 as int) * (a as int) <= n * 255) by (nonlinear_arith)
                requires
                    c1 <= n,
                    a <= 255,
            ;
            assert((c2 as int) * (a as int) <= n * 255) by (nonlinear_arith)
                requires
                    c2 <= n,
                    a <= 255,
            ;
            assert((c0 as int) * (a as int) / (n as int) <= 255) by (nonlinear_arith)
                requires
                    c0 <= n,
                    a <= 255,
                    n > 0,
            ;
            assert((c1 as int) * (a as int) / (n as int) <= 255) by (nonlinear_arith)
                requires
                    c1 <= n,
                    a <= 255,
                    n > 0,
            ;
            assert((c2 as int) * (a as int) / (n as int) <= 255) by (nonlinear_arith)
                requires
                    c2 <= n,
                    a <= 255,
                    n > 0,
            ;
        }
        ((c0 as u128 * a / n) as u8, (c1 as u128 * a / n) as u8, (c2 as u128 * a / n) as u8, a as u8)
    }

    /// Runs each instruction in turn.
    pub fn render(&mut self, rna: &[Rna])
        requires
            old(self).wf(),
        ensures
            final(self).wf(),
            exists|states: Seq<RenderState>|
                render_run(states, rna@) && states[0] == old(self).state() && states.last()
                    == final(self).state(),
    {
        let ghost mut states: Seq<RenderState> = seq![self.state()];
        let mut i: usize = 0;
        while i < rna.len()
            invariant
                self.wf(),
                i <= rna@.len(),
                render_run(states, rna@.take(i as int)),
                states[0] == old(self).state(),
                states.last() == self.state(),
            decreases rna@.len() - i,
        {
            let ghost before = states;
            self.render_command(&rna[i]);
            proof {
                states = states.push(self.state());
                assert forall|j: int| 0 <= j < i + 1 implies render_rel(
                    #[trigger] states[j],
                    rna@.take(i + 1)[j],
                    states[j + 1],
                ) by {
                    if j < i {
                        assert(states[j] == before[j]);
                        assert(states[j + 1] == before[j + 1]);
                        assert(rna@.take(i + 1)[j] == rna@.take(i as int)[j]);
                    }
                }
            }
            i = i + 1;
        }
        proof {
            assert(rna@.take(rna@.len() as int) =~= rna@);
        }
    }

    /// Runs one instruction (see `render_step` and `fill_step`).
    pub fn render_command(&mut self, command: &Rna)
        requires
            old(self).wf(),
        ensures
            final(self).wf(),
            *command is TryFill ==> fill_step(old(self).state(), final(self).state()),
            !(*command is TryFill) ==> final(self).state() == render_step(old(self).state(), *command),
    {
        let ghost st = self.state();
        match command {
            Rna::AddColor(c) => {
                self.bucket_color.push(bucket_color(*c));
            },
            Rna::AddAlpha(a) => {
                self.bucker_alpha.push(bucket_alpha_of(*a));
            },
            Rna::EmptyBucket => {
                self.bucket_color.clear();
                self.bucker_alpha.clear();
            },
            Rna::Move => {
                self.position = match self.dir_index {
                    0 => (self.position.0, (self.position.1 + HEIGHT - 1) % HEIGHT),
                    1 => ((self.position.0 + 1) % WIDTH, self.position.1),
                    2 => (self.position.0, (self.position.1 + 1) % HEIGHT),
                    _ => ((self.position.0 + WIDTH - 1) % WIDTH, self.position.1),
                };
            },
            Rna::TurnCounterClockwise => {
                self.dir_index = (self.dir_index + 3) % 4;
            },
            Rna::TurnClockwise => {
                self.dir_index = (self.dir_index + 1) % 4;
            },
            Rna::Mark => {
                self.mark = self.position;
            },
            Rna::Line => {
                proof {
                    assert(self.layers()[0].len() == BITMAP_SIZE);
                }
                let pixel = self.current_pixel();
                let mut bm = self.bitmaps.remove(0);
                line(&mut bm, self.position, self.mark, pixel);
                self.bitmaps.insert(0, bm);
                proof {
                    lemma_paint_len(st.layers[0], line_places(st.position, st.mark), pixel);
                    assert(self.layers() =~= st.layers.update(0, bm@));
                }
            },
            Rna::TryFill => {
                self.try_fill();
            },
            Rna::AddBitmap => {
                self.add_bitmap();
            },
            Rna::Compose => {
                self.compose();
            },
            Rna::Clip => {
                self.clip();
            },
            Rna::Unknown(_) => {},
        }
        proof {
            assert(self.colors() =~= render_step(st, *command).colors);
            assert(self.alphas() =~= render_step(st, *command).alphas);
        }
    }

    fn try_fill(&mut self)
        requires
            old(self).wf(),
        ensures
            final(self).wf(),
            fill_step(old(self).state(), final(self).state()),
    {
        let ghost st = self.state();
        proof {
            assert(self.layers()[0].len() == BITMAP_SIZE);
        }
        let new = self.current_pixel();
        let idx = (self.position.1 * WIDTH + self.position.0) as usize;
        let old = self.bitmaps[0][idx];
        if !same_pixel(old, new) {
            let mut bm = self.bitmaps.remove(0);
            fill(&mut bm, self.position, old, new);
            self.bitmaps.insert(0, bm);
            proof {
                assert(self.layers() =~= st.layers.update(0, bm@));
            }
        }
    }

    fn add_bitmap(&mut self)
        requires
            old(self).wf(),
        ensures
            final(self).wf(),
            final(self).state() == render_step(old(self).state(), Rna::AddBitmap),
    {
        let ghost st = self.state();
        if self.bitmaps.len() != MAX_LAYERS {
            let b = new_bitmap();
            self.bitmaps.insert(0, b);
            proof {
                assert(b@ =~= blank_layer());
                assert(self.layers() =~= seq![blank_layer()] + st.layers);
            }
        }
    }

    fn compose(&mut self)
        requires
            old(self).wf(),
        ensures
            final(self).wf(),
            final(self).state() == render_step(old(self).state(), Rna::Compose),
    {
        let ghost st = self.state();
        if self.bitmaps.len() < 2 {
            return;
        }
        let b0 = self.bitmaps.remove(0);
        let mut b1 = self.bitmaps.remove(0);
        let ghost orig = b1@;
        proof {
            assert(b0@ == st.layers[0]);
            assert(orig == st.layers[1]);
        }
        let mut i: usize = 0;
        while i < BITMAP_SIZE
            invariant
                b0@.len() == BITMAP_SIZE,
                orig.len() == BITMAP_SIZE,
                b1@.len() == BITMAP_SIZE,
                i <= BITMAP_SIZE,
                forall|j: int| 0 <= j < i ==> #[trigger] b1@[j] == compose_pixel(b0@[j], orig[j]),
                forall|j: int| i <= j < BITMAP_SIZE ==> #[trigger] b1@[j] == orig[j],
            decreases BITMAP_SIZE - i,
        {
            let p = compose_px(b0[i], b1[i]);
            b1.set(i, p);
            i = i + 1;
        }
        let ghost rest = self.layers();
        self.bitmaps.insert(0, b1);
        proof {
            assert(b1@ =~= Seq::new(BITMAP_SIZE as nat, |i: int| compose_pixel(st.layers[0][i], st.layers[1][i])));
            assert(rest =~= st.layers.skip(2));
            assert(self.layers() =~= seq![b1@] + rest);
        }
    }

    fn clip(&mut self)
        requires
            old(self).wf(),
        ensures
            final(self).wf(),
            final(self).state() == render_step(old(self).state(), Rna::Clip),
    {
        let ghost st = self.state();
        if self.bitmaps.len() < 2 {
            return;
        }
        let b0 = self.bitmaps.remove(0);
        let mut b1 = self.bitmaps.remove(0);
        let ghost orig = b1@;
        proof {
            assert(b0@ == st.layers[0]);
            assert(orig == st.layers[1]);
        }
        let mut i: usize = 0;
        while i < BITMAP_SIZE
            invariant
                b0@.len() == BITMAP_SIZE,
                orig.len() == BITMAP_SIZE,
                b1@.len() == BITMAP_SIZE,
                i <= BITMAP_SIZE,
                forall|j: int| 0 <= j < i ==> #[trigger] b1@[j] == clip_pixel(b0@[j], orig[j]),
                forall|j: int| i <= j < BITMAP_SIZE ==> #[trigger] b1@[j] == orig[j],
            decreases BITMAP_SIZE - i,
        {
            let p = clip_px(b0[i], b1[i]);
            b1.set(i, p);
            i = i + 1;
        }
        let ghost rest = self.layers();
        self.bitmaps.insert(0, b1);
        proof {
            assert(b1@ =~= Seq::new(BITMAP_SIZE as nat, |i: int| clip_pixel(st.layers[0][i], st.layers[1][i])));
            assert(rest =~= st.layers.skip(2));
            assert(self.layers() =~= seq![b1@] + rest);
        }
    }

    /// Layer `index` as bytes, four per pixel (see `layer_byte`); zeros where
    /// there is no such layer.
    pub fn to_vec(&self, index: usize) -> (r: Vec<u8>)
        requires
            self.wf(),
        ensures
            r@.len() == 4 * BITMAP_SIZE,
            index < self.layers().len() ==> forall|n: int| 0 <= n < 4 * BITMAP_SIZE ==> #[trigger] r@[n]
                == layer_byte(self.layers()[index as int], index == 0, n),
            index >= self.layers().len() ==> forall|n: int| 0 <= n < 4 * BITMAP_SIZE ==> #[trigger] r@[n] == 0,
    {
        let mut result: Vec<u8> = Vec::new();
        if index < self.bitmaps.len() {
            let bitmap = &self.bitmaps[index];
            let top = index == 0;
            proof {
                assert(bitmap@ == self.layers()[index as int]);
            }
            let mut i: usize = 0;
            while i < BITMAP_SIZE
                invariant
                    bitmap@ == self.layers()[index as int],
                    bitmap@.len() == BITMAP_SIZE,
                    top == (index == 0),
                    i <= BITMAP_SIZE,
                    result@.len() == 4 * i,
                    forall|n: int| 0 <= n < 4 * i ==> #[trigger] result@[n] == layer_byte(bitmap@, top, n),
                decreases BITMAP_SIZE - i,
            {
                let pixel = bitmap[i];
                result.push(pixel.0);
                result.push(pixel.1);
                result.push(pixel.2);
                result.push(if top {
                    255
                } else {
                    pixel.3
                });
                proof {
                    assert forall|n: int| 4 * i <= n < 4 * i + 4 implies #[trigger] result@[n] == layer_byte(
                        bitmap@,
                        top,
                        n,
                    ) by {
                        assert(n / 4 == i);
                    }
                }
                i = i + 1;
            }
        } else {
            let mut i: usize = 0;
            while i < 4 * BITMAP_SIZE
                invariant
                    i <= 4 * BITMAP_SIZE,
                    result@.len() == i,
                    forall|k: int| 0 <= k < i ==> #[trigger] result@[k] == 0,
                decreases 4 * BITMAP_SIZE - i,
            {
                result.push(0);
                i = i + 1;
            }
        }
        result
    }

    pub fn position(&self) -> (r: &Position)
        ensures
            *r == self.position_view(),
    {
        &self.position
    }

    pub fn mark(&self) -> (r: &Position)
        ensures
            *r == self.mark_view(),
    {
        &self.mark
    }

    pub fn dir(&self) -> (r: Dir)
        requires
            self.wf(),
        ensures
            r == dir_of(self.dir_view()),
    {
        match self.dir_index {
            0 => Dir::N,
            1 => Dir::E,
            2 => Dir::S,
            _ => Dir::W,
        }
    }
}

} // verus!
